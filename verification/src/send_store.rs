//! The send store and the task queue. Packets of long messages are kept in the
//! send store under (peer, session, retry count, last index, index) until the
//! peer acknowledges them; whenever the task queue runs empty, every kept
//! packet that has not been sent again too often is queued once more. The task
//! queue holds the datagrams waiting to be sent, under increasing ids.
use vstd::prelude::*;
use crate::addr::{PeerAddr, be64, push_be64};
use crate::packet::{Packet, PacketView};

verus! {

/// The key under which a packet waits for its acknowledgement.
#[derive(PartialEq, Eq, Structural, Clone, Copy, Debug)]
pub struct SendKey {
    pub address: PeerAddr,
    pub session: u32,
    pub retry: i32,
    pub max: u32,
    pub order: u32,
}

/// The key of packet `p` sent to `addr`, sent again `retry` times so far.
pub open spec fn send_key(p: PacketView, addr: PeerAddr, retry: i32) -> SendKey {
    SendKey { address: addr, session: p.sess, retry: retry, max: p.max, order: p.order }
}

impl SendKey {
    /// The key of packet `pac` sent to `addr`, not sent again yet.
    pub fn new(pac: &Packet, addr: PeerAddr) -> (k: SendKey)
        ensures
            k == send_key(pac@, addr, 0),
    {
        SendKey { address: addr, session: pac.sess, retry: 0, max: pac.max, order: pac.order }
    }
}

/// A datagram waiting to be sent: where to, and its bytes.
pub struct TaskV {
    pub address: PeerAddr,
    pub data: Vec<u8>,
}

impl TaskV {
    /// The task of sending `data` to `addr`.
    pub fn new(addr: PeerAddr, data: &Vec<u8>) -> (t: TaskV)
        ensures
            t.address == addr,
            t.data@ == data@,
    {
        TaskV { address: addr, data: data.clone() }
    }
}

/// The key of the task with id `n`: the id's eight big-endian bytes, so that
/// the queue, ordered by key, is ordered by id.
pub fn task_key(n: u64) -> (k: Vec<u8>)
    ensures
        k@ == be64(n),
{
    let mut k: Vec<u8> = Vec::new();
    push_be64(&mut k, n);
    assert(k@ =~= be64(n));
    k
}

/// `x` comes before `y` in the byte-wise order in which the store keeps its
/// keys: at the first place where they differ `x` has the smaller byte, or
/// `x` is a proper prefix of `y`.
pub open spec fn bytes_lt(x: Seq<u8>, y: Seq<u8>) -> bool {
    ||| exists|i: int| 0 <= i < x.len() && i < y.len() && x[i] < y[i] && #[trigger] x.take(i) == y.take(i)
    ||| x.len() < y.len() && x == y.take(x.len() as int)
}

/// The eight big-endian bytes of `a`, one by one.
proof fn lemma_be64_bytes(a: u64)
    ensures
        be64(a) == seq![
            (a >> 56u64) as u8,
            (a >> 48u64) as u8,
            (a >> 40u64) as u8,
            (a >> 32u64) as u8,
            (a >> 24u64) as u8,
            (a >> 16u64) as u8,
            (a >> 8u64) as u8,
            a as u8,
        ],
{
    let hi = (a >> 32u64) as u32;
    let lo = a as u32;
    assert((hi >> 24u32) as u8 == (a >> 56u64) as u8 && (hi >> 16u32) as u8 == (a >> 48u64) as u8
        && (hi >> 8u32) as u8 == (a >> 40u64) as u8 && hi as u8 == (a >> 32u64) as u8) by (bit_vector)
        requires
            hi == (a >> 32u64) as u32,
    ;
    assert((lo >> 24u32) as u8 == (a >> 24u64) as u8 && (lo >> 16u32) as u8 == (a >> 16u64) as u8
        && (lo >> 8u32) as u8 == (a >> 8u64) as u8 && lo as u8 == a as u8) by (bit_vector)
        requires
            lo == a as u32,
    ;
    assert(be64(a) =~= seq![
        (a >> 56u64) as u8,
        (a >> 48u64) as u8,
        (a >> 40u64) as u8,
        (a >> 32u64) as u8,
        (a >> 24u64) as u8,
        (a >> 16u64) as u8,
        (a >> 8u64) as u8,
        a as u8,
    ]);
}

/// A smaller id has a key that comes first: at the first byte where the keys
/// differ, the smaller id has the smaller byte.
proof fn lemma_be64_first_difference(a: u64, b: u64)
    requires
        a < b,
    ensures
        exists|i: int| 0 <= i < 8 && be64(a)[i] < be64(b)[i] && #[trigger] be64(a).take(i) == be64(b).take(i),
{
    lemma_be64_bytes(a);
    lemma_be64_bytes(b);
    let x = be64(a);
    let y = be64(b);
    assert(a < b ==> (a >> 56u64) as u8 <= (b >> 56u64) as u8) by (bit_vector);
    assert(a < b && (a >> 56u64) as u8 == (b >> 56u64) as u8 ==> (a >> 48u64) as u8 <= (b
        >> 48u64) as u8) by (bit_vector);
    assert(a < b && (a >> 48u64) == (b >> 48u64) ==> (a >> 40u64) as u8 <= (b >> 40u64) as u8)
        by (bit_vector);
    assert(a < b && (a >> 40u64) == (b >> 40u64) ==> (a >> 32u64) as u8 <= (b >> 32u64) as u8)
        by (bit_vector);
    assert(a < b && (a >> 32u64) == (b >> 32u64) ==> (a >> 24u64) as u8 <= (b >> 24u64) as u8)
        by (bit_vector);
    assert(a < b && (a >> 24u64) == (b >> 24u64) ==> (a >> 16u64) as u8 <= (b >> 16u64) as u8)
        by (bit_vector);
    assert(a < b && (a >> 16u64) == (b >> 16u64) ==> (a >> 8u64) as u8 <= (b >> 8u64) as u8)
        by (bit_vector);
    assert(a < b && (a >> 8u64) == (b >> 8u64) ==> (a as u8) < (b as u8)) by (bit_vector);
    assert((a >> 56u64) as u8 == (b >> 56u64) as u8 && (a >> 48u64) as u8 == (b >> 48u64) as u8
        ==> (a >> 48u64) == (b >> 48u64)) by (bit_vector);
    assert((a >> 48u64) == (b >> 48u64) && (a >> 40u64) as u8 == (b >> 40u64) as u8 ==> (a
        >> 40u64) == (b >> 40u64)) by (bit_vector);
    assert((a >> 40u64) == (b >> 40u64) && (a >> 32u64) as u8 == (b >> 32u64) as u8 ==> (a
        >> 32u64) == (b >> 32u64)) by (bit_vector);
    assert((a >> 32u64) == (b >> 32u64) && (a >> 24u64) as u8 == (b >> 24u64) as u8 ==> (a
        >> 24u64) == (b >> 24u64)) by (bit_vector);
    assert((a >> 24u64) == (b >> 24u64) && (a >> 16u64) as u8 == (b >> 16u64) as u8 ==> (a
        >> 16u64) == (b >> 16u64)) by (bit_vector);
    assert((a >> 16u64) == (b >> 16u64) && (a >> 8u64) as u8 == (b >> 8u64) as u8 ==> (a >> 8u64)
        == (b >> 8u64)) by (bit_vector);
    let mut i: int = 0;
    if x[0] != y[0] {
        i = 0;
    } else if x[1] != y[1] {
        i = 1;
    } else if x[2] != y[2] {
        i = 2;
    } else if x[3] != y[3] {
        i = 3;
    } else if x[4] != y[4] {
        i = 4;
    } else if x[5] != y[5] {
        i = 5;
    } else if x[6] != y[6] {
        i = 6;
    } else {
        i = 7;
    }
    assert(x.take(i) =~= y.take(i));
    assert(x[i] < y[i]);
}

/// Law: the keys of the task queue sort as their ids do, so the queue, which
/// hands out the entry with the smallest key first, hands out tasks in the
/// order of their ids (first in, first out).
pub proof fn lemma_task_keys_in_id_order(a: u64, b: u64)
    ensures
        a < b <==> bytes_lt(be64(a), be64(b)),
{
    let x = be64(a);
    let y = be64(b);
    assert(x.len() == 8 && y.len() == 8);
    if a < b {
        lemma_be64_first_difference(a, b);
    } else if bytes_lt(x, y) {
        let i = choose|i: int| 0 <= i < x.len() && i < y.len() && x[i] < y[i] && #[trigger] x.take(i) == y.take(i);
        if a == b {
        } else {
            lemma_be64_first_difference(b, a);
            let j = choose|j: int| 0 <= j < 8 && y[j] < x[j] && #[trigger] y.take(j) == x.take(j);
            if j < i {
                assert(x.take(i)[j] == y.take(i)[j]);
            } else if i < j {
                assert(x.take(j)[i] == y.take(j)[i]);
            }
        }
    }
}

/// An entry of the send store as read: raw key, the key decoded from it
/// (`None` when it cannot be decoded) and the packet bytes.
pub struct SendEntry {
    pub raw: Vec<u8>,
    pub key: Option<SendKey>,
    pub value: Vec<u8>,
}

/// The entries as plain values: decoded key and packet bytes.
pub open spec fn send_views(s: Seq<SendEntry>) -> Seq<(Option<SendKey>, Seq<u8>)> {
    s.map_values(|e: SendEntry| (e.key, e.value@))
}

/// The kept packets that are sent again: those whose key can be read and that
/// were sent again fewer than `limit` times, in the order of the entries.
pub open spec fn resent(es: Seq<(Option<SendKey>, Seq<u8>)>, limit: i32) -> Seq<(SendKey, Seq<u8>)>
    decreases es.len(),
{
    if es.len() == 0 {
        seq![]
    } else {
        let rest = resent(es.drop_last(), limit);
        match es.last().0 {
            Some(k) => if k.retry < limit {
                rest.push((k, es.last().1))
            } else {
                rest
            },
            None => rest,
        }
    }
}

/// Whether an entry of the send store is due to be sent again: its key can be
/// read and it was sent again fewer than `limit` times.
pub open spec fn is_due(limit: i32) -> spec_fn((Option<SendKey>, Seq<u8>)) -> bool {
    |e: (Option<SendKey>, Seq<u8>)| e.0 is Some && e.0.unwrap().retry < limit
}

/// The key and the bytes of an entry whose key can be read.
pub open spec fn key_and_bytes() -> spec_fn((Option<SendKey>, Seq<u8>)) -> (SendKey, Seq<u8>) {
    |e: (Option<SendKey>, Seq<u8>)| (e.0.unwrap(), e.1)
}

/// Law: the packets sent again are exactly the entries of the send store that
/// are due, each once, in the order of the entries: every entry whose key can
/// be read and whose retry count is below the limit is sent again, and no
/// other.
pub proof fn lemma_resent_is_every_due_entry(es: Seq<(Option<SendKey>, Seq<u8>)>, limit: i32)
    ensures
        resent(es, limit) == es.filter(is_due(limit)).map_values(key_and_bytes()),
        resent(es, limit).len() == es.filter(is_due(limit)).len(),
        forall|i: int|
            0 <= i < es.len() && (#[trigger] es[i]).0 is Some && es[i].0.unwrap().retry < limit
                ==> resent(es, limit).contains((es[i].0.unwrap(), es[i].1)),
    decreases es.len(),
{
    reveal(Seq::filter);
    if es.len() > 0 {
        let t = es.drop_last();
        lemma_resent_is_every_due_entry(t, limit);
        let f = t.filter(is_due(limit));
        assert(es.filter(is_due(limit)) == (if is_due(limit)(es.last()) {
            f.push(es.last())
        } else {
            f
        }));
        if is_due(limit)(es.last()) {
            assert(es.last().0 is Some && es.last().0.unwrap().retry < limit);
            assert(resent(es, limit) == resent(t, limit).push((es.last().0.unwrap(), es.last().1)));
            assert(f.push(es.last()).map_values(key_and_bytes()) =~= f.map_values(key_and_bytes()).push(
                (es.last().0.unwrap(), es.last().1),
            ));
        } else {
            assert(resent(es, limit) == resent(t, limit));
        }
        let r = resent(es, limit);
        assert forall|i: int|
            0 <= i < es.len() && (#[trigger] es[i]).0 is Some && es[i].0.unwrap().retry < limit
                implies r.contains((es[i].0.unwrap(), es[i].1)) by {
            if i < es.len() - 1 {
                assert(t[i] == es[i]);
                let rt = resent(t, limit);
                let j = choose|j: int| 0 <= j < rt.len() && rt[j] == (t[i].0.unwrap(), t[i].1);
                assert(r[j] == rt[j]);
            } else {
                assert(r[r.len() - 1] == (es[i].0.unwrap(), es[i].1));
            }
        }
    } else {
        assert(es.filter(is_due(limit)) =~= Seq::<(Option<SendKey>, Seq<u8>)>::empty());
        assert(es.filter(is_due(limit)).map_values(key_and_bytes()) =~= Seq::<(SendKey, Seq<u8>)>::empty());
    }
}

/// Law: the key of a packet changes with the retry count and with nothing
/// else: for every retry count it holds the peer, the session, the index of
/// the last packet and the index of the packet.
pub proof fn lemma_send_key_fields(p: PacketView, addr: PeerAddr, retry: i32)
    ensures
        send_key(p, addr, retry).address == addr,
        send_key(p, addr, retry).session == p.sess,
        send_key(p, addr, retry).retry == retry,
        send_key(p, addr, retry).max == p.max,
        send_key(p, addr, retry).order == p.order,
{
}

/// Law: every kept copy of packet `p` sent to `addr` (same peer, session,
/// last index and index, any retry count) is the key `send_key(p, addr, r)`
/// for its retry count `r`; so the keys of all retry counts from 0 to the
/// limit, which an acknowledgement removes, cover every copy the resending
/// can have made.
pub proof fn lemma_every_copy_is_a_send_key(p: PacketView, addr: PeerAddr, k: SendKey)
    requires
        k.address == addr,
        k.session == p.sess,
        k.max == p.max,
        k.order == p.order,
    ensures
        k == send_key(p, addr, k.retry),
{
}

/// What to do when the task queue runs empty: whether to empty the send store
/// first, the tasks to queue, and the entries to put back in the send store.
pub struct ExportPlan {
    pub clear: bool,
    pub tasks: Vec<(PeerAddr, Vec<u8>)>,
    pub reinserts: Vec<(SendKey, Vec<u8>)>,
}

/// Law: a packet put back by the resending has been sent again one time more,
/// and never more often than `limit` times.
pub proof fn lemma_resent_bounded(es: Seq<(Option<SendKey>, Seq<u8>)>, limit: i32)
    ensures
        forall|i: int|
            0 <= i < resent(es, limit).len() ==> #[trigger] resent(es, limit)[i].0.retry < limit,
    decreases es.len(),
{
    if es.len() > 0 {
        lemma_resent_bounded(es.drop_last(), limit);
        let rest = resent(es.drop_last(), limit);
        assert forall|i: int|
            0 <= i < resent(es, limit).len() implies #[trigger] resent(es, limit)[i].0.retry < limit by {
            if i < rest.len() {
                assert(resent(es, limit)[i] == rest[i]);
            }
        }
    }
}

} // verus!
