use udp_hole_punching::conf::Conf;
use udp_hole_punching::packet::Packet;
use udp_hole_punching::packets::Packets;
use udp_hole_punching::swap_cmd::SwapCmd;
use udp_hole_punching::tools::segment_bytes;

#[test]
fn test_pac() {
    let mut p = Packet::empty();
    p.cmd = SwapCmd::P2P.enum2int();
    p.sess = 7;
    p.max = 1;
    p.order = 1;
    p.body = vec![5, 6];
    let b = p.to_bytes();
    assert_eq!(b, vec![8, 0, 0, 0, 7, 0, 0, 0, 1, 0, 0, 0, 1, 5, 6]);
    let q = Packet::new_from_rec_bytes(b.len(), &b);
    assert_eq!(q, p);
}

#[test]
fn test_new_send() {
    let mut v = vec![];
    for _ in 0..2000 {
        v.push(97);
    }
    let conf = Conf::default();
    let (u, pacs) = Packet::new_pacs_from_send_bytes(&v, &conf);
    assert_eq!(pacs.len(), 2);
    assert_eq!(pacs[0].body.len(), 1011);
    assert_eq!(pacs[1].body.len(), 989);
    assert_eq!(pacs[0].sess, u);
    assert_eq!(pacs[0].max, 1);
    let pac = pacs[0].clone();
    let s1 = Packet::new_from_save_db(&pac.to_bytes());
    assert_eq!(s1.body.len(), 1011);
    assert_eq!(s1, pac);
}

#[test]
fn header_len_is_13() {
    assert_eq!(Packet::header_len(), 13);
}

#[test]
fn big_endian_numbers_on_the_wire() {
    let mut p = Packet::empty();
    p.sess = 0x01020304;
    p.max = 0xA0B0C0D0;
    p.order = 0xFFFFFFFF;
    let b = p.to_bytes();
    assert_eq!(b, vec![0, 1, 2, 3, 4, 0xA0, 0xB0, 0xC0, 0xD0, 0xFF, 0xFF, 0xFF, 0xFF]);
}

#[test]
fn rec_bytes_use_only_total_bytes() {
    let buf = vec![9, 0, 0, 0, 1, 0, 0, 0, 0, 0, 0, 0, 0, 1, 2, 3, 0, 0, 0];
    let p = Packet::new_from_rec_bytes(16, &buf);
    assert_eq!(p.cmd, 9);
    assert_eq!(p.sess, 1);
    assert_eq!(p.body, vec![1, 2, 3]);
}

#[test]
fn hello_and_got() {
    assert_eq!(Packet::hello(), vec![9, 0, 0, 0, 0, 0, 0, 0, 0, 0, 0, 0, 0]);
    let mut p = Packet::empty();
    p.cmd = 8;
    p.sess = 2;
    p.max = 3;
    p.order = 1;
    p.body = vec![1, 2, 3];
    assert_eq!(Packet::got(&p), vec![6, 0, 0, 0, 2, 0, 0, 0, 3, 0, 0, 0, 1]);
}

#[test]
fn segment_bytes_cuts_at_capacity() {
    let body: Vec<u8> = (0..10).collect();
    let s = segment_bytes(&body, 5, 1);
    assert_eq!(s, vec![vec![0, 1, 2, 3], vec![4, 5, 6, 7], vec![8, 9]]);
    let s = segment_bytes(&body, 6, 1);
    assert_eq!(s, vec![vec![0, 1, 2, 3, 4], vec![5, 6, 7, 8, 9]]);
    let empty: Vec<u8> = vec![];
    assert_eq!(segment_bytes(&empty, 5, 1).len(), 0);
}

#[test]
fn segments_glue_back_to_the_message() {
    let body: Vec<u8> = (0..=255).cycle().take(5000).collect();
    let s = segment_bytes(&body, 100, 13);
    assert_eq!(s.len(), 58);
    let glued: Vec<u8> = s.concat();
    assert_eq!(glued, body);
}

#[test]
fn packets_of_a_message_are_complete_and_reassemble() {
    let body: Vec<u8> = (0..=255).cycle().take(3000).collect();
    let pacs = Packet::new_pacs_with_sess(42, &body, 1420);
    assert_eq!(pacs.len(), 3);
    for (i, p) in pacs.iter().enumerate() {
        assert_eq!(p.cmd, 8);
        assert_eq!(p.sess, 42);
        assert_eq!(p.max, 2);
        assert_eq!(p.order, i as u32);
    }
    assert!(pacs.is_complete());
    let mut shuffled = vec![pacs[2].clone(), pacs[0].clone(), pacs[1].clone()];
    assert!(shuffled.is_complete());
    assert_eq!(shuffled.assembly(), body);
    assert_eq!(shuffled, pacs);
}

#[test]
fn incomplete_packets() {
    let body: Vec<u8> = vec![1; 3000];
    let pacs = Packet::new_pacs_with_sess(1, &body, 1420);
    let empty: Vec<Packet> = vec![];
    assert!(!empty.is_complete());
    let two = vec![pacs[0].clone(), pacs[2].clone()];
    assert!(!two.is_complete());
    let dup = vec![pacs[0].clone(), pacs[0].clone(), pacs[2].clone()];
    assert!(!dup.is_complete());
}

#[test]
fn empty_message_has_no_packet() {
    let body: Vec<u8> = vec![];
    assert_eq!(Packet::new_pacs_with_sess(1, &body, 1420).len(), 0);
}

#[test]
fn sort_is_stable() {
    let mut a = Packet::empty();
    a.order = 1;
    a.body = vec![1];
    let mut b = Packet::empty();
    b.order = 0;
    b.body = vec![2];
    let mut c = Packet::empty();
    c.order = 1;
    c.body = vec![3];
    let mut v = vec![a.clone(), b.clone(), c.clone()];
    Packets::sort(&mut v);
    assert_eq!(v, vec![b, a, c]);
    let mut v2 = v.clone();
    assert_eq!(v2.assembly(), vec![2, 1, 3]);
}
