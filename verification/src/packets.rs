//! A message as the vector of its packets: whether all of them are there,
//! putting them in order, and gluing their bodies back into the message.
use vstd::prelude::*;
use crate::packet::{Packet, PacketView, packet_views, message_packets};
use crate::tools::{piece_count, segments, lemma_segments_flatten, lemma_segments_shape};

verus! {

/// Some packet of `s` has index `k`.
pub open spec fn has_order(s: Seq<PacketView>, k: int) -> bool {
    exists|j: int| 0 <= j < s.len() && #[trigger] s[j].order == k
}

/// All packets of the message are there: at least one packet, as many packets
/// as the first one says (`max + 1`), and every index from 0 to `max` present.
pub open spec fn complete(s: Seq<PacketView>) -> bool {
    &&& s.len() > 0
    &&& s.len() == s[0].max + 1
    &&& forall|k: int| 0 <= k <= s[0].max ==> #[trigger] has_order(s, k)
}

/// The indices of the packets, in their order.
pub open spec fn orders(s: Seq<PacketView>) -> Seq<int> {
    s.map_values(|p: PacketView| p.order as int)
}

/// Law: the packets of a message are complete exactly when there is at least
/// one, there are as many as the first one's `max` plus one, and every index
/// from 0 to that `max` is the index of one of them.
pub proof fn lemma_complete_iff(s: Seq<PacketView>)
    ensures
        complete(s) <==> (s.len() > 0 && s.len() == s[0].max + 1 && forall|k: int|
            0 <= k <= s[0].max ==> #[trigger] orders(s).contains(k)),
{
    assert forall|k: int|
        #![trigger has_order(s, k)]
        #![trigger orders(s).contains(k)]
        has_order(s, k) <==> orders(s).contains(k) by {
        if has_order(s, k) {
            let j = choose|j: int| 0 <= j < s.len() && #[trigger] s[j].order == k;
            assert(orders(s)[j] == k);
        }
        if orders(s).contains(k) {
            let j = choose|j: int| 0 <= j < orders(s).len() && orders(s)[j] == k;
            assert(s[j].order == k);
        }
    }
}

/// Law: a vector of packets that lacks some index from 0 to the first one's
/// `max` (the first packet of the message, say) is not complete.
pub proof fn lemma_missing_index_not_complete(s: Seq<PacketView>, k: int)
    requires
        s.len() > 0,
        0 <= k <= s[0].max,
        forall|j: int| 0 <= j < s.len() ==> #[trigger] s[j].order != k,
    ensures
        !complete(s),
{
    lemma_complete_iff(s);
    if orders(s).contains(k) {
        let j = choose|j: int| 0 <= j < orders(s).len() && orders(s)[j] == k;
        assert(s[j].order != k);
    }
}

/// Puts `x` into `s` behind every packet whose index is at most that of `x`,
/// looking from the end: the step of a stable insertion sort.
pub open spec fn insert_by_order(x: PacketView, s: Seq<PacketView>) -> Seq<PacketView>
    decreases s.len(),
{
    if s.len() == 0 {
        seq![x]
    } else if s.last().order <= x.order {
        s.push(x)
    } else {
        insert_by_order(x, s.drop_last()).push(s.last())
    }
}

/// The packets ordered by index; packets with the same index keep their order.
pub open spec fn sort_by_order(s: Seq<PacketView>) -> Seq<PacketView>
    decreases s.len(),
{
    if s.len() == 0 {
        seq![]
    } else {
        insert_by_order(s.last(), sort_by_order(s.drop_last()))
    }
}

/// The bodies of the packets, one after the other.
pub open spec fn bodies(s: Seq<PacketView>) -> Seq<u8> {
    s.map_values(|p: PacketView| p.body).flatten()
}

/// The packets are in order of their indices.
pub open spec fn sorted_by_order(s: Seq<PacketView>) -> bool {
    forall|i: int, j: int| 0 <= i < j < s.len() ==> s[i].order <= s[j].order
}

/// The insertion step puts `x` at the place `j` that the scan from the end stops at.
pub proof fn lemma_insert_at(x: PacketView, s: Seq<PacketView>, j: int)
    requires
        0 <= j <= s.len(),
        forall|k: int| j <= k < s.len() ==> x.order < #[trigger] s[k].order,
        j > 0 ==> s[j - 1].order <= x.order,
    ensures
        insert_by_order(x, s) == s.take(j) + seq![x] + s.skip(j),
    decreases s.len(),
{
    if s.len() == 0 {
        assert(s.take(j) + seq![x] + s.skip(j) =~= seq![x]);
    } else if s.last().order <= x.order {
        assert(j == s.len());
        assert(s.take(j) + seq![x] + s.skip(j) =~= s.push(x));
    } else {
        let t = s.drop_last();
        lemma_insert_at(x, t, j);
        assert(t.take(j) + seq![x] + t.skip(j) + seq![s.last()] =~= s.take(j) + seq![x] + s.skip(
            j,
        ));
    }
}

/// Sorting a vector of packets that is already in order leaves it as it is.
pub proof fn lemma_sort_sorted(s: Seq<PacketView>)
    requires
        sorted_by_order(s),
    ensures
        sort_by_order(s) == s,
    decreases s.len(),
{
    if s.len() > 0 {
        let t = s.drop_last();
        assert(sorted_by_order(t));
        lemma_sort_sorted(t);
        if t.len() > 0 {
            assert(t.last().order <= s.last().order);
        }
        assert(t.push(s.last()) =~= s);
    }
}

/// Inserting keeps the packets in order, and adds exactly `x`.
pub proof fn lemma_insert_props(x: PacketView, s: Seq<PacketView>)
    requires
        sorted_by_order(s),
    ensures
        sorted_by_order(insert_by_order(x, s)),
        insert_by_order(x, s).to_multiset() == s.to_multiset().insert(x),
        insert_by_order(x, s).len() == s.len() + 1,
    decreases s.len(),
{
    broadcast use vstd::seq_lib::group_to_multiset_ensures;

    if s.len() == 0 {
        assert(seq![x] =~= Seq::<PacketView>::empty().push(x));
    } else if s.last().order <= x.order {
    } else {
        let t = s.drop_last();
        assert(sorted_by_order(t));
        lemma_insert_props(x, t);
        let r = insert_by_order(x, t);
        assert(s =~= t.push(s.last()));
        assert forall|i: int, j: int| 0 <= i < j < r.len() + 1 implies r.push(s.last())[i].order
            <= r.push(s.last())[j].order by {
            if j == r.len() {
                // r[i] is x or an element of t; both come before s.last()
                assert(r.to_multiset().count(r[i]) > 0);
                assert(r.to_multiset() == t.to_multiset().insert(x));
                if r[i] != x {
                    assert(t.to_multiset().count(r[i]) > 0);
                    assert(t.contains(r[i]));
                    let k = choose|k: int| 0 <= k < t.len() && t[k] == r[i];
                    assert(s[k] == t[k]);
                    assert(s[k].order <= s[s.len() - 1].order);
                }
            }
        }
        broadcast use vstd::multiset::group_multiset_axioms;

        assert(t.to_multiset().insert(x).insert(s.last()) =~= t.to_multiset().insert(
            s.last(),
        ).insert(x));
    }
}

/// Sorting orders the packets and keeps exactly the same packets.
pub proof fn lemma_sort_props(s: Seq<PacketView>)
    ensures
        sorted_by_order(sort_by_order(s)),
        sort_by_order(s).to_multiset() == s.to_multiset(),
        sort_by_order(s).len() == s.len(),
    decreases s.len(),
{
    broadcast use vstd::seq_lib::group_to_multiset_ensures;

    if s.len() > 0 {
        let t = s.drop_last();
        lemma_sort_props(t);
        lemma_insert_props(s.last(), sort_by_order(t));
        assert(s =~= t.push(s.last()));
    }
}

/// The packets are in strictly increasing order of their indices.
pub open spec fn strictly_sorted_by_order(s: Seq<PacketView>) -> bool {
    forall|i: int, j: int| 0 <= i < j < s.len() ==> s[i].order < s[j].order
}

/// Two vectors of packets in order that hold the same packets are equal, when
/// no two packets of the second share an index.
pub proof fn lemma_sorted_unique(a: Seq<PacketView>, b: Seq<PacketView>)
    requires
        sorted_by_order(a),
        strictly_sorted_by_order(b),
        a.to_multiset() == b.to_multiset(),
    ensures
        a == b,
    decreases a.len(),
{
    broadcast use vstd::seq_lib::group_to_multiset_ensures;
    broadcast use vstd::multiset::group_multiset_axioms;

    a.to_multiset_ensures();
    b.to_multiset_ensures();
    assert(a.len() == b.len());
    if a.len() > 0 {
        let n = a.len() - 1;
        let x = a[n];
        let y = b[n];
        assert(a.contains(x));
        assert(b.to_multiset().count(x) > 0);
        assert(b.contains(x));
        let kb = choose|k: int| 0 <= k < b.len() && b[k] == x;
        assert(a.to_multiset().count(y) > 0);
        assert(a.contains(y));
        let ka = choose|k: int| 0 <= k < a.len() && a[k] == y;
        // x has the greatest index in a, y the greatest in b
        assert(y.order <= x.order);
        assert(x.order <= y.order);
        if kb != n {
            assert(b[kb].order < b[n].order);
        }
        assert(x == y);
        let a2 = a.drop_last();
        let b2 = b.drop_last();
        assert(a =~= a2.push(x));
        assert(b =~= b2.push(x));
        assert(a2.to_multiset() =~= a.to_multiset().remove(x));
        assert(b2.to_multiset() =~= b.to_multiset().remove(x));
        assert(sorted_by_order(a2));
        assert(strictly_sorted_by_order(b2));
        lemma_sorted_unique(a2, b2);
    }
}

/// The packets of a message are strictly in order, all carry the same `max`,
/// which is the index of the last one.
pub proof fn lemma_message_shape(sess: u32, body: Seq<u8>, cap: nat)
    requires
        cap > 0,
        piece_count(body.len(), cap) <= u32::MAX,
    ensures
        strictly_sorted_by_order(message_packets(sess, segments(body, cap))),
        sorted_by_order(message_packets(sess, segments(body, cap))),
        segments(body, cap).len() <= body.len(),
        forall|i: int|
            0 <= i < segments(body, cap).len() ==> #[trigger] message_packets(
                sess,
                segments(body, cap),
            )[i].order == i,
        forall|i: int|
            0 <= i < segments(body, cap).len() ==> #[trigger] message_packets(
                sess,
                segments(body, cap),
            )[i].max == segments(body, cap).len() - 1,
{
    lemma_segments_shape(body, cap);
    let n = segments(body, cap).len();
    assert(n <= body.len()) by (nonlinear_arith)
        requires
            n == (body.len() + cap - 1) / (cap as int),
            cap >= 1,
    ;
}

/// Law: a message cut into packets is complete (when it is not empty), its
/// packets are already in order, and gluing their bodies gives the message back.
pub proof fn lemma_message_roundtrip(sess: u32, body: Seq<u8>, cap: nat)
    requires
        cap > 0,
        piece_count(body.len(), cap) <= u32::MAX,
    ensures
        sort_by_order(message_packets(sess, segments(body, cap))) == message_packets(
            sess,
            segments(body, cap),
        ),
        bodies(sort_by_order(message_packets(sess, segments(body, cap)))) == body,
        body.len() > 0 ==> complete(message_packets(sess, segments(body, cap))),
{
    let pieces = segments(body, cap);
    let m = message_packets(sess, pieces);
    lemma_message_shape(sess, body, cap);
    lemma_sort_sorted(m);
    lemma_segments_flatten(body, cap);
    assert(m.map_values(|p: PacketView| p.body) =~= pieces);
    if body.len() > 0 {
        lemma_segments_shape(body, cap);
        assert(pieces.len() > 0) by (nonlinear_arith)
            requires
                pieces.len() == (body.len() + cap - 1) / (cap as int),
                cap >= 1,
                body.len() >= 1,
        ;
        assert forall|k: int| 0 <= k <= m[0].max implies #[trigger] has_order(m, k) by {
            assert(m[k].order == k);
        }
    }
}

/// Law: however the packets of a message arrive (any order, each once), they
/// are complete, sorting puts them back in the order they were sent, and gluing
/// their bodies gives the message back.
pub proof fn lemma_reassembly_any_order(
    sess: u32,
    body: Seq<u8>,
    cap: nat,
    arrived: Seq<PacketView>,
)
    requires
        cap > 0,
        piece_count(body.len(), cap) <= u32::MAX,
        arrived.to_multiset() == message_packets(sess, segments(body, cap)).to_multiset(),
    ensures
        sort_by_order(arrived) == message_packets(sess, segments(body, cap)),
        bodies(sort_by_order(arrived)) == body,
        body.len() > 0 ==> complete(arrived),
{
    broadcast use vstd::seq_lib::group_to_multiset_ensures;

    let m = message_packets(sess, segments(body, cap));
    lemma_message_roundtrip(sess, body, cap);
    lemma_message_shape(sess, body, cap);
    lemma_sort_props(arrived);
    lemma_sorted_unique(sort_by_order(arrived), m);
    if body.len() > 0 {
        arrived.to_multiset_ensures();
        m.to_multiset_ensures();
        assert(arrived.len() == m.len());
        assert(arrived.contains(arrived[0]));
        assert(m.to_multiset().count(arrived[0]) > 0);
        assert(m.contains(arrived[0]));
        assert(arrived[0].max == m[0].max);
        assert forall|k: int| 0 <= k <= arrived[0].max implies #[trigger] has_order(arrived, k) by {
            assert(has_order(m, k));
            let j = choose|j: int| 0 <= j < m.len() && #[trigger] m[j].order == k;
            assert(m.contains(m[j]));
            assert(arrived.to_multiset().count(m[j]) > 0);
            assert(arrived.contains(m[j]));
            let i = choose|i: int| 0 <= i < arrived.len() && arrived[i] == m[j];
            assert(arrived[i].order == k);
        }
    }
}

/// The operations on the packets of one message.
pub trait Packets {
    /// Whether all packets of the message are there.
    fn is_complete(&self) -> bool;

    /// Puts the packets in order of their indices (a stable sort).
    fn sort(&mut self);

    /// Puts the packets in order and glues their bodies into the message.
    fn assembly(&mut self) -> Vec<u8>;
}

impl Packets for Vec<Packet> {
    fn is_complete(&self) -> (b: bool)
        ensures
            b == complete(packet_views(self@)),
    {
        let ghost s = packet_views(self@);
        if self.len() == 0 {
            return false;
        }
        let max = self[0].max;
        let n = self.len();
        if n - 1 != max as usize {
            assert(s.len() != s[0].max + 1);
            return false;
        }
        let mut i: usize = 0;
        while i <= max as usize
            invariant
                s == packet_views(self@),
                n == self@.len(),
                n == max as int + 1,
                max == s[0].max,
                i <= max as int + 1,
                forall|k: int| 0 <= k < i ==> #[trigger] has_order(s, k),
            decreases max as int + 1 - i,
        {
            let mut found = false;
            let mut j: usize = 0;
            while j < n
                invariant
                    s == packet_views(self@),
                    n == self@.len(),
                    i <= max as int,
                    j <= n,
                    found ==> exists|jj: int| 0 <= jj < s.len() && #[trigger] s[jj].order == i,
                    !found ==> forall|jj: int| 0 <= jj < j ==> #[trigger] s[jj].order != i,
                decreases n - j,
            {
                if self[j].order as usize == i {
                    found = true;
                    assert(s[j as int].order == i);
                }
                j = j + 1;
            }
            if !found {
                assert(!has_order(s, i as int));
                return false;
            }
            assert(has_order(s, i as int));
            i = i + 1;
        }
        true
    }

    fn sort(&mut self)
        ensures
            packet_views(final(self)@) == sort_by_order(packet_views(old(self)@)),
    {
        let ghost s = packet_views(self@);
        let mut res: Vec<Packet> = Vec::new();
        let n = self.len();
        let mut i: usize = 0;
        assert(s.take(0) =~= seq![]);
        while i < n
            invariant
                s == packet_views(self@),
                n == self@.len(),
                i <= n,
                packet_views(res@) == sort_by_order(s.take(i as int)),
            decreases n - i,
        {
            let x = self[i].clone();
            let ghost r0 = packet_views(res@);
            let mut j: usize = res.len();
            while j > 0 && res[j - 1].order > x.order
                invariant
                    r0 == packet_views(res@),
                    j <= res@.len(),
                    forall|k: int| j <= k < r0.len() ==> x.order < #[trigger] r0[k].order,
                decreases j,
            {
                j = j - 1;
            }
            proof {
                lemma_insert_at(x@, r0, j as int);
                assert(s.take(i + 1).drop_last() =~= s.take(i as int));
                assert(s.take(i + 1).last() == x@);
            }
            res.insert(j, x);
            assert(packet_views(res@) =~= r0.take(j as int) + seq![x@] + r0.skip(j as int));
            i = i + 1;
        }
        assert(s.take(n as int) =~= s);
        *self = res;
    }

    fn assembly(&mut self) -> (r: Vec<u8>)
        ensures
            packet_views(final(self)@) == sort_by_order(packet_views(old(self)@)),
            r@ == bodies(sort_by_order(packet_views(old(self)@))),
    {
        Packets::sort(self);
        let ghost s = packet_views(self@);
        let mut res: Vec<u8> = Vec::new();
        let mut i: usize = 0;
        let n = self.len();
        assert(s.take(0).map_values(|p: PacketView| p.body) =~= Seq::<Seq<u8>>::empty());
        while i < n
            invariant
                s == packet_views(self@),
                n == self@.len(),
                i <= n,
                res@ == bodies(s.take(i as int)),
            decreases n - i,
        {
            crate::bytes::append_all(&mut res, &self[i].body);
            proof {
                let a = s.take(i as int).map_values(|p: PacketView| p.body);
                let b = s.take(i + 1).map_values(|p: PacketView| p.body);
                assert(b =~= a.push(s[i as int].body));
                a.lemma_flatten_push(s[i as int].body);
            }
            i = i + 1;
        }
        assert(s.take(n as int) =~= s);
        res
    }
}

} // verus!
