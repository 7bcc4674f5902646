//! The three stores a client keeps (sent packets awaiting acknowledgement,
//! received packets, datagrams waiting to be sent) and what each operation on
//! a store reads and writes. The stores themselves live outside the library;
//! each operation here takes what was read and returns what to write.
use vstd::prelude::*;
use crate::addr::{PeerAddr, be64};
use crate::conf::Conf;
use crate::packet::{Packet, packet_bytes, packet_views};
use crate::packets::{Packets, complete, sort_by_order, bodies};
use crate::rec_store::{RecKey, RecEntry, rec_views, values_hold_packets, pacs_for, removed_keys, no_sender, groups_of, lemma_pacs_for_step};
use crate::send_store::{SendKey, SendEntry, TaskV, ExportPlan, send_key, send_views, resent, task_key};
use crate::tools::vec_views;

verus! {

/// A store of the client.
#[derive(PartialEq, Eq, Structural, Copy, Clone, Debug)]
pub enum DB {
    /// Packets sent and not acknowledged yet.
    Send,
    /// Packets received.
    Rec,
    /// Datagrams waiting to be sent.
    Task,
}

impl DB {
    /// The name of the store's tree.
    pub fn tree_name(&self) -> (name: String)
        ensures
            *self == DB::Send ==> name@ == "send"@,
            *self == DB::Rec ==> name@ == "rec"@,
            *self == DB::Task ==> name@ == "task"@,
    {
        let name = match self {
            DB::Send => "send",
            DB::Rec => "rec",
            DB::Task => "task",
        };
        name.to_owned()
    }
}

/// Which store an operation works on; each operation works on one store only.
pub trait StoreKind {
    spec fn store_kind(&self) -> DB;
}

impl StoreKind for DB {
    open spec fn store_kind(&self) -> DB {
        *self
    }
}

/// The entry to write into the receive store for a packet that arrived.
pub trait SingleSave: StoreKind {
    /// The key and the bytes under which packet `pac` from `address` is kept.
    fn single_save(&self, address: PeerAddr, pac: &Packet) -> (r: (RecKey, Vec<u8>))
        requires
            self.store_kind() == DB::Rec,
    ;
}

impl SingleSave for DB {
    fn single_save(&self, address: PeerAddr, pac: &Packet) -> (r: (RecKey, Vec<u8>))
        ensures
            r.0 == (RecKey { address: address, session: pac.sess, max: pac.max, order: pac.order }),
            r.1@ == packet_bytes(pac@),
    {
        (RecKey::new(pac, address), pac.to_bytes())
    }
}

/// Reading messages from the receive store.
pub trait RecMsg: StoreKind {
    /// Reads the message of session `sess` from `address` when all its packets
    /// are in the store: its bytes, and the raw keys to remove from the store.
    /// Otherwise nothing is read and nothing is removed.
    fn rec_one(&self, dic: &Vec<RecEntry>, address: PeerAddr, sess: u32) -> (r: (Vec<u8>, Vec<Vec<u8>>))
        requires
            self.store_kind() == DB::Rec,
            values_hold_packets(rec_views(dic@)),
    ;

    /// Reads some message all of whose packets are in the store: the peer that
    /// sent it, its bytes, and the raw keys to remove. When no message is
    /// complete, answers `0.0.0.0:8888` with no bytes and removes nothing.
    fn rec_from(&self, dic: &Vec<RecEntry>) -> (r: (PeerAddr, Vec<u8>, Vec<Vec<u8>>))
        requires
            self.store_kind() == DB::Rec,
            values_hold_packets(rec_views(dic@)),
    ;

    /// The raw keys of the entries of session `sess` from `addr` and of the
    /// entries whose key cannot be read: what reading that session removes.
    fn del_by_session_address(&self, dic: &Vec<RecEntry>, sess: u32, addr: PeerAddr) -> (r: Vec<Vec<u8>>)
        requires
            self.store_kind() == DB::Rec,
    ;
}

impl RecMsg for DB {
    fn rec_one(&self, dic: &Vec<RecEntry>, address: PeerAddr, sess: u32) -> (r: (Vec<u8>, Vec<Vec<u8>>))
        ensures
            complete(pacs_for(rec_views(dic@), address, sess)) ==> r.0@ == bodies(
                sort_by_order(pacs_for(rec_views(dic@), address, sess)),
            ) && vec_views(r.1@) == removed_keys(rec_views(dic@), address, sess),
            !complete(pacs_for(rec_views(dic@), address, sess)) ==> r.0@.len() == 0 && r.1@.len() == 0,
    {
        let ghost es = rec_views(dic@);
        if dic.len() == 0 {
            assert(pacs_for(es, address, sess) =~= seq![]);
            return (Vec::new(), Vec::new());
        }
        let mut m = RecKey::group_by_key(dic);
        let mut i: usize = 0;
        while i < m.len()
            invariant
                *self == DB::Rec,
                es == rec_views(dic@),
                values_hold_packets(es),
                groups_of(m@, es),
                i <= m@.len(),
                forall|g: int| 0 <= g < i ==> !(#[trigger] m@[g].address == address && m@[g].session == sess
                    && complete(pacs_for(es, address, sess))),
            decreases m@.len() - i,
        {
            if m[i].address == address && m[i].session == sess && m[i].pacs.is_complete() {
                let ghost gv = packet_views(m@[i as int].pacs@);
                assert(gv == pacs_for(es, address, sess));
                assert(complete(gv));
                let mut data = m.remove(i).pacs;
                assert(packet_views(data@) == gv);
                let res = data.assembly();
                assert(res@ == bodies(sort_by_order(gv)));
                let dels = self.del_by_session_address(dic, sess, address);
                return (res, dels);
            }
            i = i + 1;
        }
        proof {
            if complete(pacs_for(es, address, sess)) {
                let g = choose|g: int| 0 <= g < m@.len() && m@[g].address == address && m@[g].session == sess;
            }
        }
        (Vec::new(), Vec::new())
    }

    fn rec_from(&self, dic: &Vec<RecEntry>) -> (r: (PeerAddr, Vec<u8>, Vec<Vec<u8>>))
        ensures
            (forall|a: PeerAddr, s: u32| !#[trigger] complete(pacs_for(rec_views(dic@), a, s))) ==> r.0
                == no_sender() && r.1@.len() == 0 && r.2@.len() == 0,
            (exists|a: PeerAddr, s: u32| #[trigger] complete(pacs_for(rec_views(dic@), a, s))) ==> exists|s: u32|
                #[trigger] complete(pacs_for(rec_views(dic@), r.0, s)) && r.1@ == bodies(
                    sort_by_order(pacs_for(rec_views(dic@), r.0, s)),
                ) && vec_views(r.2@) == removed_keys(rec_views(dic@), r.0, s),
    {
        let ghost es = rec_views(dic@);
        let default = PeerAddr { ip: crate::addr::Ip::V4(0), port: 8888 };
        let mut m = RecKey::group_by_key(dic);
        let mut i: usize = 0;
        while i < m.len()
            invariant
                *self == DB::Rec,
                es == rec_views(dic@),
                values_hold_packets(es),
                groups_of(m@, es),
                i <= m@.len(),
                forall|g: int| 0 <= g < i ==> !complete(pacs_for(es, #[trigger] m@[g].address, m@[g].session)),
            decreases m@.len() - i,
        {
            if m[i].pacs.is_complete() {
                let addr = m[i].address;
                let sess = m[i].session;
                let ghost gv = packet_views(m@[i as int].pacs@);
                assert(gv == pacs_for(es, addr, sess));
                let mut data = m.remove(i).pacs;
                assert(packet_views(data@) == gv);
                let res = data.assembly();
                let dels = self.del_by_session_address(dic, sess, addr);
                assert(complete(pacs_for(es, addr, sess)));
                return (addr, res, dels);
            }
            i = i + 1;
        }
        proof {
            assert forall|a: PeerAddr, s: u32| !#[trigger] complete(pacs_for(es, a, s)) by {
                if complete(pacs_for(es, a, s)) {
                    let g = choose|g: int| 0 <= g < m@.len() && m@[g].address == a && m@[g].session == s;
                }
            }
        }
        (default, Vec::new(), Vec::new())
    }

    fn del_by_session_address(&self, dic: &Vec<RecEntry>, sess: u32, addr: PeerAddr) -> (r: Vec<Vec<u8>>)
        ensures
            vec_views(r@) == removed_keys(rec_views(dic@), addr, sess),
    {
        let ghost es = rec_views(dic@);
        let mut r: Vec<Vec<u8>> = Vec::new();
        let n = dic.len();
        let mut i: usize = 0;
        assert(es.take(0) =~= seq![]);
        while i < n
            invariant
                es == rec_views(dic@),
                n == es.len(),
                i <= n,
                vec_views(r@) == removed_keys(es.take(i as int), addr, sess),
            decreases n - i,
        {
            proof {
                lemma_pacs_for_step(es, i as int, addr, sess);
                assert(es[i as int] == dic@[i as int]@);
            }
            let e = &dic[i];
            let remove = match e.key {
                None => true,
                Some(key) => key.address == addr && key.session == sess,
            };
            if remove {
                let ghost before = vec_views(r@);
                r.push(e.raw.clone());
                assert(vec_views(r@) =~= before.push(e.raw@));
            }
            i = i + 1;
        }
        assert(es.take(n as int) =~= es);
        r
    }
}

/// Keeping the packets of a long message for resending.
pub trait BatchSave: StoreKind {
    /// The entries to keep when the packets `pacs` of a message are sent to
    /// `address`: each packet's bytes under its key, retry count 0.
    fn batch_save(&self, address: PeerAddr, pacs: &Vec<Packet>) -> (r: Vec<(SendKey, Vec<u8>)>)
        requires
            self.store_kind() == DB::Send,
    ;
}

impl BatchSave for DB {
    fn batch_save(&self, address: PeerAddr, pacs: &Vec<Packet>) -> (r: Vec<(SendKey, Vec<u8>)>)
        ensures
            r@.len() == pacs@.len(),
            forall|i: int|
                0 <= i < r@.len() ==> (#[trigger] r@[i]).0 == send_key(pacs@[i]@, address, 0) && r@[i].1@
                    == packet_bytes(pacs@[i]@),
    {
        let mut r: Vec<(SendKey, Vec<u8>)> = Vec::new();
        if pacs.len() == 0 {
            return r;
        }
        let mut i: usize = 0;
        while i < pacs.len()
            invariant
                i <= pacs@.len(),
                r@.len() == i,
                forall|j: int|
                    0 <= j < i ==> (#[trigger] r@[j]).0 == send_key(pacs@[j]@, address, 0) && r@[j].1@
                        == packet_bytes(pacs@[j]@),
            decreases pacs@.len() - i,
        {
            let pac = &pacs[i];
            r.push((SendKey::new(pac, address), pac.to_bytes()));
            i = i + 1;
        }
        r
    }
}

/// Forgetting a packet once its peer acknowledged it.
pub trait SendDelOne: StoreKind {
    /// The keys to remove once `address` acknowledges packet `pac`: its key with
    /// every retry count from 0 to `conf.retry_send_times`.
    fn send_del_one(&self, conf: &Conf, address: PeerAddr, pac: &Packet) -> (r: Vec<SendKey>)
        requires
            self.store_kind() == DB::Send,
            conf.retry_send_times < i32::MAX,
    ;
}

impl SendDelOne for DB {
    fn send_del_one(&self, conf: &Conf, address: PeerAddr, pac: &Packet) -> (r: Vec<SendKey>)
        ensures
            r@.len() == (if conf.retry_send_times < 0 { 0 } else { conf.retry_send_times + 1 }),
            forall|i: int| 0 <= i < r@.len() ==> #[trigger] r@[i] == send_key(pac@, address, i as i32),
    {
        let max = conf.retry_send_times;
        let mut r: Vec<SendKey> = Vec::new();
        let mut k = SendKey::new(pac, address);
        if max < 0 {
            return r;
        }
        let mut i: i32 = 0;
        while i < max + 1
            invariant
                0 <= i <= max + 1,
                max == conf.retry_send_times,
                max < i32::MAX,
                r@.len() == i,
                k.address == address && k.session == pac.sess && k.max == pac.max && k.order == pac.order,
                forall|j: int| 0 <= j < r@.len() ==> #[trigger] r@[j] == send_key(pac@, address, j as i32),
            decreases max + 1 - i,
        {
            k.retry = i;
            r.push(k);
            i = i + 1;
        }
        r
    }
}

/// Queuing again the packets kept for resending.
pub trait Export2Task: StoreKind {
    /// Plans the resending of the kept packets (the entries of the send store):
    /// when the store is not empty it is emptied, and every packet sent again
    /// fewer than `conf.retry_send_times` times is queued to its peer and put back
    /// with its retry count one higher. The others are dropped.
    fn export_task(&self, dic: &Vec<SendEntry>, conf: &Conf) -> (p: ExportPlan)
        requires
            self.store_kind() == DB::Send,
    ;
}

impl Export2Task for DB {
    fn export_task(&self, dic: &Vec<SendEntry>, conf: &Conf) -> (p: ExportPlan)
        ensures
            p.clear == (dic@.len() > 0),
            p.tasks@.len() == resent(send_views(dic@), conf.retry_send_times).len(),
            p.reinserts@.len() == resent(send_views(dic@), conf.retry_send_times).len(),
            forall|i: int|
                0 <= i < p.tasks@.len() ==> (#[trigger] p.tasks@[i]).0 == resent(
                    send_views(dic@),
                    conf.retry_send_times,
                )[i].0.address && p.tasks@[i].1@ == resent(send_views(dic@), conf.retry_send_times)[i].1,
            forall|i: int|
                0 <= i < p.reinserts@.len() ==> (#[trigger] p.reinserts@[i]).0 == (SendKey {
                    retry: (resent(send_views(dic@), conf.retry_send_times)[i].0.retry + 1) as i32,
                    ..resent(send_views(dic@), conf.retry_send_times)[i].0
                }) && p.reinserts@[i].1@ == resent(send_views(dic@), conf.retry_send_times)[i].1,
    {
        let ghost es = send_views(dic@);
        let limit = conf.retry_send_times;
        let mut tasks: Vec<(PeerAddr, Vec<u8>)> = Vec::new();
        let mut reinserts: Vec<(SendKey, Vec<u8>)> = Vec::new();
        if dic.len() == 0 {
            assert(es =~= seq![]);
            return ExportPlan { clear: false, tasks, reinserts };
        }
        let n = dic.len();
        let mut i: usize = 0;
        assert(es.take(0) =~= seq![]);
        while i < n
            invariant
                es == send_views(dic@),
                n == es.len(),
                i <= n,
                tasks@.len() == resent(es.take(i as int), limit).len(),
                reinserts@.len() == resent(es.take(i as int), limit).len(),
                forall|j: int|
                    0 <= j < tasks@.len() ==> (#[trigger] tasks@[j]).0 == resent(es.take(i as int), limit)[j].0.address
                        && tasks@[j].1@ == resent(es.take(i as int), limit)[j].1,
                forall|j: int|
                    0 <= j < reinserts@.len() ==> (#[trigger] reinserts@[j]).0 == (SendKey {
                        retry: (resent(es.take(i as int), limit)[j].0.retry + 1) as i32,
                        ..resent(es.take(i as int), limit)[j].0
                    }) && reinserts@[j].1@ == resent(es.take(i as int), limit)[j].1,
            decreases n - i,
        {
            let e = &dic[i];
            proof {
                assert(es.take(i + 1).drop_last() =~= es.take(i as int));
                assert(es.take(i + 1).last() == es[i as int]);
                assert(es[i as int] == (dic@[i as int].key, dic@[i as int].value@));
            }
            match e.key {
                None => {},
                Some(key) => {
                    if key.retry < limit {
                        let ghost before = resent(es.take(i as int), limit);
                        tasks.push((key.address, e.value.clone()));
                        let newk = SendKey { retry: key.retry + 1, ..key };
                        reinserts.push((newk, e.value.clone()));
                        proof {
                            assert(resent(es.take(i + 1), limit) == before.push((key, e.value@)));
                        }
                    }
                },
            }
            i = i + 1;
        }
        assert(es.take(n as int) =~= es);
        ExportPlan { clear: true, tasks, reinserts }
    }
}

/// Queuing a datagram.
pub trait TaskSave: StoreKind {
    /// What queuing `data` for `address` under id `n` stores: the key and the task.
    fn task_save(&self, address: PeerAddr, data: &Vec<u8>, n: u64) -> (r: (Vec<u8>, TaskV))
        requires
            self.store_kind() == DB::Task,
    ;
}

impl TaskSave for DB {
    fn task_save(&self, address: PeerAddr, data: &Vec<u8>, n: u64) -> (r: (Vec<u8>, TaskV))
        ensures
            r.0@ == be64(n),
            r.1.address == address,
            r.1.data@ == data@,
    {
        (task_key(n), TaskV::new(address, data))
    }
}

/// Sending the next queued datagram.
pub trait DoSend: StoreKind {
    /// Whether the entry (`k`, `v`) taken from the front of the queue is a
    /// datagram to send; when it is not (the queue was empty), the kept
    /// packets are to be queued again instead.
    fn do_send(&self, k: &Vec<u8>, v: &Vec<u8>) -> (send: bool)
        requires
            self.store_kind() == DB::Task,
    ;
}

impl DoSend for DB {
    fn do_send(&self, k: &Vec<u8>, v: &Vec<u8>) -> (send: bool)
        ensures
            send == (k@.len() > 0 && v@.len() > 0),
    {
        k.len() > 0 && v.len() > 0
    }
}

} // verus!
