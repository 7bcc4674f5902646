use udp_hole_punching::addr::{Ip, PeerAddr};
use udp_hole_punching::conf::Conf;
use udp_hole_punching::packet::Packet;
use udp_hole_punching::api::send;
use udp_hole_punching::db::{DB, BatchSave, DoSend, Export2Task, RecMsg, SendDelOne, SingleSave, TaskSave};
use udp_hole_punching::rec_store::{RecEntry, RecKey};
use udp_hole_punching::send_store::{SendEntry, SendKey, task_key, TaskV};

fn addr(n: u32) -> PeerAddr {
    PeerAddr { ip: Ip::V4(n), port: 4000 }
}

fn entries_of(a: PeerAddr, pacs: &[Packet], tag: u8) -> Vec<RecEntry> {
    pacs.iter()
        .map(|p| RecEntry {
            raw: vec![tag, p.order as u8],
            key: Some(RecKey::new(p, a)),
            value: p.to_bytes(),
        })
        .collect()
}

#[test]
fn rec_one_reads_a_complete_message() {
    let body: Vec<u8> = (0..=255).cycle().take(3000).collect();
    let pacs = Packet::new_pacs_with_sess(5, &body, 1420);
    let mut dic = entries_of(addr(1), &pacs, 1);
    dic.reverse();
    dic.push(RecEntry { raw: vec![99], key: None, value: vec![] });
    let other = Packet::new_pacs_with_sess(6, &vec![7; 10], 1420);
    dic.extend(entries_of(addr(1), &other, 2));
    let (data, dels) = DB::Rec.rec_one(&dic, addr(1), 5);
    assert_eq!(data, body);
    assert_eq!(dels, vec![vec![1, 2], vec![1, 1], vec![1, 0], vec![99]]);
}

#[test]
fn rec_one_waits_for_missing_packets() {
    let body: Vec<u8> = vec![3; 3000];
    let pacs = Packet::new_pacs_with_sess(5, &body, 1420);
    let dic = entries_of(addr(1), &pacs[0..2], 1);
    let (data, dels) = DB::Rec.rec_one(&dic, addr(1), 5);
    assert!(data.is_empty());
    assert!(dels.is_empty());
    let (data, dels) = DB::Rec.rec_one(&Vec::new(), addr(1), 5);
    assert!(data.is_empty() && dels.is_empty());
    let full = entries_of(addr(1), &pacs, 1);
    let (data, _) = DB::Rec.rec_one(&full, addr(2), 5);
    assert!(data.is_empty());
}

#[test]
fn rec_from_reads_some_complete_message() {
    let a = Packet::new_pacs_with_sess(1, &vec![1; 2000], 1420);
    let b = Packet::new_pacs_with_sess(2, &vec![2; 20], 1420);
    let mut dic = entries_of(addr(1), &a[0..1], 1);
    dic.extend(entries_of(addr(2), &b, 2));
    let (from, data, dels) = DB::Rec.rec_from(&dic);
    assert_eq!(from, addr(2));
    assert_eq!(data, vec![2; 20]);
    assert_eq!(dels, vec![vec![2, 0]]);
    let (from, data, dels) = DB::Rec.rec_from(&entries_of(addr(1), &a[0..1], 1));
    assert_eq!(from, PeerAddr { ip: Ip::V4(0), port: 8888 });
    assert!(data.is_empty() && dels.is_empty());
}

#[test]
fn grouping_and_complete_keys() {
    let a = Packet::new_pacs_with_sess(1, &vec![1; 2000], 1420);
    let b = Packet::new_pacs_with_sess(2, &vec![2; 20], 1420);
    let mut dic = entries_of(addr(1), &a[1..2], 1);
    dic.extend(entries_of(addr(2), &b, 2));
    dic.extend(entries_of(addr(1), &a[0..1], 1));
    let gs = RecKey::group_by_key(&dic);
    assert_eq!(gs.len(), 2);
    assert_eq!(gs[0].address, addr(1));
    assert_eq!(gs[0].pacs, vec![a[1].clone(), a[0].clone()]);
    assert_eq!(gs[1].session, 2);
    let keys = RecKey::get_complete_keys(&dic);
    assert_eq!(keys.len(), 2);
    assert!(keys.contains(&(addr(1), 1)));
    assert!(keys.contains(&(addr(2), 2)));
    let dels = DB::Rec.del_by_session_address(&dic, 2, addr(2));
    assert_eq!(dels, vec![vec![2, 0]]);
}

#[test]
fn batch_save_keeps_every_packet() {
    let pacs = Packet::new_pacs_with_sess(9, &vec![4; 3000], 1420);
    let kept = DB::Send.batch_save(addr(3), &pacs);
    assert_eq!(kept.len(), 3);
    for (i, (k, v)) in kept.iter().enumerate() {
        assert_eq!(*k, SendKey { address: addr(3), session: 9, retry: 0, max: 2, order: i as u32 });
        assert_eq!(*v, pacs[i].to_bytes());
    }
    assert!(DB::Send.batch_save(addr(3), &Vec::new()).is_empty());
}

#[test]
fn acknowledgement_removes_all_retries() {
    let mut conf = Conf::default();
    let p = Packet::new_pacs_with_sess(9, &vec![4; 30], 1420).remove(0);
    let keys = DB::Send.send_del_one(&conf, addr(3), &p);
    assert_eq!(keys.len(), 5);
    assert_eq!(keys[4].retry, 4);
    conf.retry_send_times = -1;
    assert!(DB::Send.send_del_one(&conf, addr(3), &p).is_empty());
}

#[test]
fn export_resends_until_the_limit() {
    let conf = Conf::default();
    let k0 = SendKey { address: addr(1), session: 1, retry: 0, max: 0, order: 0 };
    let k4 = SendKey { retry: 4, ..k0 };
    let dic = vec![
        SendEntry { raw: vec![1], key: Some(k0), value: vec![10] },
        SendEntry { raw: vec![2], key: None, value: vec![11] },
        SendEntry { raw: vec![3], key: Some(k4), value: vec![12] },
    ];
    let plan = DB::Send.export_task(&dic, &conf);
    assert!(plan.clear);
    assert_eq!(plan.tasks, vec![(addr(1), vec![10])]);
    assert_eq!(plan.reinserts, vec![(SendKey { retry: 1, ..k0 }, vec![10])]);
    let plan = DB::Send.export_task(&Vec::new(), &conf);
    assert!(!plan.clear && plan.tasks.is_empty() && plan.reinserts.is_empty());
}

#[test]
fn task_keys_are_big_endian_ids() {
    assert_eq!(task_key(0x0102030405060708), vec![1, 2, 3, 4, 5, 6, 7, 8]);
    let (k, t) = DB::Task.task_save(addr(1), &vec![5, 6], 1);
    assert_eq!(k, vec![0, 0, 0, 0, 0, 0, 0, 1]);
    assert_eq!(t.address, addr(1));
    assert_eq!(t.data, vec![5, 6]);
    let t2 = TaskV::new(addr(2), &vec![]);
    assert!(t2.data.is_empty());
}

#[test]
fn send_keeps_long_messages_only() {
    let conf = Conf::default();
    let short = send(&vec![1; 100], addr(1), &conf);
    assert_eq!(short.queue.len(), 1);
    assert!(short.keep.is_empty());
    let long_msg: Vec<u8> = vec![2; 1011 * 11];
    let long = send(&long_msg, addr(1), &conf);
    assert_eq!(long.queue.len(), 11);
    assert_eq!(long.keep.len(), 11);
    let first = Packet::new_from_save_db(&long.queue[0]);
    assert_eq!(first.sess, long.sess);
    assert_eq!(long.keep[10].0.order, 10);
    let ten: Vec<u8> = vec![2; 1011 * 10];
    assert!(send(&ten, addr(1), &conf).keep.is_empty());
}

#[test]
fn single_save_and_do_send() {
    let p = Packet::new_pacs_with_sess(4, &vec![1, 2, 3], 1420).remove(0);
    let (k, v) = DB::Rec.single_save(addr(7), &p);
    assert_eq!(k, RecKey { address: addr(7), session: 4, max: 0, order: 0 });
    assert_eq!(v, p.to_bytes());
    assert!(DB::Task.do_send(&vec![1], &vec![2]));
    assert!(!DB::Task.do_send(&vec![], &vec![2]));
    assert!(!DB::Task.do_send(&vec![1], &vec![]));
}

#[test]
fn tree_names() {
    assert_eq!(DB::Send.tree_name(), "send");
    assert_eq!(DB::Rec.tree_name(), "rec");
    assert_eq!(DB::Task.tree_name(), "task");
}

#[test]
fn task_keys_sort_as_their_ids() {
    let ids: Vec<u64> = vec![0, 1, 255, 256, 65535, 65536, 1 << 40, u64::MAX - 1, u64::MAX];
    for a in ids.iter() {
        for b in ids.iter() {
            assert_eq!(a < b, task_key(*a) < task_key(*b));
        }
    }
}
