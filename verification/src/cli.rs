//! The peer protocol of the command-line client: each datagram carries a
//! server packet as header and a piece of the message as body; the pieces
//! received are kept by (session, index of the last piece) until asked for.
use vstd::prelude::*;
use rand::Rng;
use std::collections::HashMap;
use crate::bytes::append_all;
use crate::server::{Packet, PAC_SIZE};
use crate::tools::{piece_count, segment_bytes, segments, vec_views, lemma_segments_flatten, lemma_segments_shape};

verus! {

/// Which side of the connection a client is.
#[derive(PartialEq, Eq, Structural, Copy, Clone, Debug)]
pub enum Who {
    Callee,
    Caller,
}

/// A piece of a message as plain values: its index and its bytes.
pub open spec fn piece_views(s: Seq<(u16, Vec<u8>)>) -> Seq<(u16, Seq<u8>)> {
    s.map_values(|e: (u16, Vec<u8>)| (e.0, e.1@))
}

/// Puts `x` behind every piece whose index is at most that of `x`, looking
/// from the end: the step of a stable insertion sort.
pub open spec fn insert_piece(x: (u16, Seq<u8>), s: Seq<(u16, Seq<u8>)>) -> Seq<(u16, Seq<u8>)>
    decreases s.len(),
{
    if s.len() == 0 {
        seq![x]
    } else if s.last().0 <= x.0 {
        s.push(x)
    } else {
        insert_piece(x, s.drop_last()).push(s.last())
    }
}

/// The pieces ordered by index; pieces with the same index keep their order.
pub open spec fn sort_pieces(s: Seq<(u16, Seq<u8>)>) -> Seq<(u16, Seq<u8>)>
    decreases s.len(),
{
    if s.len() == 0 {
        seq![]
    } else {
        insert_piece(s.last(), sort_pieces(s.drop_last()))
    }
}

proof fn lemma_insert_piece_at(x: (u16, Seq<u8>), s: Seq<(u16, Seq<u8>)>, j: int)
    requires
        0 <= j <= s.len(),
        forall|k: int| j <= k < s.len() ==> x.0 < #[trigger] s[k].0,
        j > 0 ==> s[j - 1].0 <= x.0,
    ensures
        insert_piece(x, s) == s.take(j) + seq![x] + s.skip(j),
    decreases s.len(),
{
    if s.len() == 0 {
        assert(s.take(j) + seq![x] + s.skip(j) =~= seq![x]);
    } else if s.last().0 <= x.0 {
        assert(j == s.len());
        assert(s.take(j) + seq![x] + s.skip(j) =~= s.push(x));
    } else {
        let t = s.drop_last();
        lemma_insert_piece_at(x, t, j);
        assert(t.take(j) + seq![x] + t.skip(j) + seq![s.last()] =~= s.take(j) + seq![x] + s.skip(
            j,
        ));
    }
}

/// The key in the map of the pieces of (session, index of the last piece):
/// `session * 2^16 + max`.
pub open spec fn slot_of(k: (u16, u16)) -> u32 {
    (k.0 * 0x10000 + k.1) as u32
}

/// Different (session, last index) pairs have different keys.
proof fn lemma_slot_of_injective()
    ensures
        forall|a: (u16, u16), b: (u16, u16)| #[trigger] slot_of(a) == #[trigger] slot_of(b) ==> a == b,
{
    assert forall|a: (u16, u16), b: (u16, u16)| #[trigger] slot_of(a) == #[trigger] slot_of(b) implies a == b by {
        assert(a.0 * 0x10000 + a.1 < 0x1_0000_0000);
        assert(b.0 * 0x10000 + b.1 < 0x1_0000_0000);
    }
}

/// The key of (session, last index) in the map.
fn slot(session: u16, max: u16) -> (r: u32)
    ensures
        r == slot_of((session, max)),
{
    session as u32 * 0x10000 + max as u32
}

/// The pieces received, by (session, index of the last piece).
pub struct RecvCache {
    m: HashMap<u32, Vec<(u16, Vec<u8>)>>,
}

impl View for RecvCache {
    type V = Map<(u16, u16), Seq<(u16, Seq<u8>)>>;

    closed spec fn view(&self) -> Map<(u16, u16), Seq<(u16, Seq<u8>)>> {
        Map::new(
            |k: (u16, u16)| self.m@.contains_key(slot_of(k)),
            |k: (u16, u16)| piece_views(self.m@[slot_of(k)]@),
        )
    }
}

impl RecvCache {
    /// The cache a client starts with: one empty piece 0 under (0, 0).
    pub fn new() -> (c: RecvCache)
        ensures
            c@ == Map::<(u16, u16), Seq<(u16, Seq<u8>)>>::empty().insert((0u16, 0u16), seq![(0u16, Seq::<u8>::empty())]),
    {
        broadcast use vstd::std_specs::hash::group_hash_axioms;

        let mut v: Vec<(u16, Vec<u8>)> = Vec::new();
        v.push((0u16, Vec::new()));
        let mut m: HashMap<u32, Vec<(u16, Vec<u8>)>> = HashMap::new();
        m.insert(slot(0, 0), v);
        let c = RecvCache { m };
        proof {
            lemma_slot_of_injective();
            assert(piece_views(v@) =~= seq![(0u16, Seq::<u8>::empty())]);
            assert(c@ =~= Map::<(u16, u16), Seq<(u16, Seq<u8>)>>::empty().insert(
                (0u16, 0u16),
                seq![(0u16, Seq::<u8>::empty())],
            ));
        }
        c
    }

    /// Keeps piece `order` with bytes `body` of the message of `session` whose
    /// last piece has index `max`.
    pub fn add(&mut self, session: u16, max: u16, order: u16, body: Vec<u8>)
        ensures
            final(self)@ == old(self)@.insert(
                (session, max),
                (if old(self)@.dom().contains((session, max)) {
                    old(self)@[(session, max)]
                } else {
                    seq![]
                }).push((order, body@)),
            ),
    {
        broadcast use vstd::std_specs::hash::group_hash_axioms;

        let k = slot(session, max);
        let ghost bv = body@;
        let ghost before = if old(self)@.dom().contains((session, max)) {
            old(self)@[(session, max)]
        } else {
            seq![]
        };
        let mut v: Vec<(u16, Vec<u8>)> = match self.m.remove(&k) {
            Some(found) => {
                assert(piece_views(found@) == before);
                found
            },
            None => {
                let empty: Vec<(u16, Vec<u8>)> = Vec::new();
                assert(piece_views(empty@) =~= before);
                empty
            },
        };
        let ghost pv = piece_views(v@);
        v.push((order, body));
        assert(piece_views(v@) =~= pv.push((order, bv)));
        self.m.insert(k, v);
        proof {
            lemma_slot_of_injective();
            assert(self@ =~= old(self)@.insert((session, max), before.push((order, bv))));
        }
    }

    /// The pieces kept under `key`, ordered by index (a stable sort).
    pub fn sorted(&self, key: (u16, u16)) -> (r: Vec<(u16, Vec<u8>)>)
        requires
            self@.dom().contains(key),
        ensures
            piece_views(r@) == sort_pieces(self@[key]),
    {
        broadcast use vstd::std_specs::hash::group_hash_axioms;

        let src = match self.m.get(&slot(key.0, key.1)) {
            Some(v) => v,
            None => {
                proof {
                    assert(false);
                }
                return Vec::new();
            },
        };
        let ghost s = piece_views(src@);
        assert(s == self@[key]);
        let mut res: Vec<(u16, Vec<u8>)> = Vec::new();
        let n = src.len();
        let mut a: usize = 0;
        assert(s.take(0) =~= seq![]);
        while a < n
            invariant
                s == piece_views(src@),
                n == src@.len(),
                a <= n,
                piece_views(res@) == sort_pieces(s.take(a as int)),
            decreases n - a,
        {
            let x = (src[a].0, src[a].1.clone());
            let ghost r0 = piece_views(res@);
            let mut j: usize = res.len();
            while j > 0 && res[j - 1].0 > x.0
                invariant
                    r0 == piece_views(res@),
                    j <= res@.len(),
                    forall|k: int| j <= k < r0.len() ==> x.0 < #[trigger] r0[k].0,
                decreases j,
            {
                j = j - 1;
            }
            proof {
                lemma_insert_piece_at((x.0, x.1@), r0, j as int);
                assert(s.take(a + 1).drop_last() =~= s.take(a as int));
                assert(s.take(a + 1).last() == (x.0, x.1@));
            }
            res.insert(j, x);
            assert(piece_views(res@) =~= r0.take(j as int) + seq![(x.0, x.1@)] + r0.skip(j as int));
            a = a + 1;
        }
        assert(s.take(n as int) =~= s);
        res
    }

    /// Forgets the pieces kept under `key`.
    pub fn remove(&mut self, key: (u16, u16))
        requires
            old(self)@.dom().contains(key),
        ensures
            final(self)@ == old(self)@.remove(key),
    {
        broadcast use vstd::std_specs::hash::group_hash_axioms;

        self.m.remove(&slot(key.0, key.1));
        proof {
            lemma_slot_of_injective();
            assert(self@ =~= old(self)@.remove(key));
        }
    }
}

/// Why a message cannot be put together yet.
#[derive(PartialEq, Eq, Structural, Copy, Clone, Debug)]
pub enum RecvError {
    /// Not all pieces of the session have arrived.
    NotDone,
}

/// Some piece of `s` has index `k`.
pub open spec fn has_piece(s: Seq<(u16, Seq<u8>)>, k: int) -> bool {
    exists|j: int| 0 <= j < s.len() && s[j].0 == k
}

/// All pieces of a message whose last piece has index `max` are there: as
/// many pieces as `max + 1`, and every index from 0 to `max` among them.
pub open spec fn pieces_complete(s: Seq<(u16, Seq<u8>)>, max: u16) -> bool {
    &&& s.len() == max + 1
    &&& forall|k: int| 0 <= k <= max ==> #[trigger] has_piece(s, k)
}

/// The bytes of the pieces, one after the other.
pub open spec fn piece_bytes(s: Seq<(u16, Seq<u8>)>) -> Seq<u8>
    decreases s.len(),
{
    if s.len() == 0 {
        seq![]
    } else {
        piece_bytes(s.drop_last()) + s.last().1
    }
}

/// Reading a message from the pieces kept for the session of a header.
pub trait Receiver {
    /// Whether the header announces a body.
    spec fn has_body(&self) -> bool;

    /// The key its pieces are kept under: (session, index of the last piece).
    spec fn cache_key(&self) -> (u16, u16);

    /// The pieces kept for this session, ordered by index.
    fn get_cached(&self, cache: &RecvCache) -> (r: Vec<(u16, Vec<u8>)>)
        requires
            self.has_body() ==> cache@.dom().contains(self.cache_key()),
    ;

    /// Whether the session is done.
    fn is_done(&self, cache: &RecvCache) -> (b: bool)
        requires
            self.has_body() ==> cache@.dom().contains(self.cache_key()),
    ;

    /// Forgets the pieces kept for this session.
    fn clear_cached(&self, cache: &mut RecvCache)
        requires
            self.has_body() ==> old(cache)@.dom().contains(self.cache_key()),
    ;

    /// The message: the header itself (`packed`, its serialization) when it
    /// announces no body; an error while the session is not done; otherwise
    /// the pieces joined in order of their indices, which are then forgotten.
    fn assembly(&self, cache: &mut RecvCache, packed: &Vec<u8>) -> (r: Result<Vec<u8>, RecvError>)
        requires
            self.has_body() ==> old(cache)@.dom().contains(self.cache_key()),
    ;
}

impl Receiver for Packet {
    open spec fn has_body(&self) -> bool {
        self.body_len != 0
    }

    open spec fn cache_key(&self) -> (u16, u16) {
        (self.session, self.max)
    }

    fn get_cached(&self, cache: &RecvCache) -> (r: Vec<(u16, Vec<u8>)>)
        ensures
            !self.has_body() ==> r@.len() == 0,
            self.has_body() ==> piece_views(r@) == sort_pieces(cache@[self.cache_key()]),
    {
        if self.body_len == 0 {
            return Vec::new();
        }
        cache.sorted((self.session, self.max))
    }

    fn is_done(&self, cache: &RecvCache) -> (b: bool)
        ensures
            !self.has_body() ==> b,
            self.has_body() ==> b == pieces_complete(cache@[self.cache_key()], self.max),
    {
        if self.body_len == 0 {
            return true;
        }
        let v = self.get_cached(cache);
        let ghost s = cache@[self.cache_key()];
        let ghost pv = piece_views(v@);
        proof {
            lemma_sort_pieces_props(s);
            if pieces_complete(s, self.max) {
                lemma_complete_pieces_in_index_order(s, self.max);
            }
        }
        if v.len() != self.max as usize + 1 {
            return false;
        }
        let mut i: usize = 0;
        while i < v.len()
            invariant
                pv == piece_views(v@),
                pv == sort_pieces(s),
                pieces_complete(s, self.max) ==> forall|j: int| 0 <= j < pv.len() ==> #[trigger] pv[j].0 == j,
                pv.len() == self.max + 1,
                self.body_len != 0,
                s == cache@[self.cache_key()],
                i <= v@.len(),
                forall|j: int| 0 <= j < i ==> #[trigger] pv[j].0 == j,
            decreases v@.len() - i,
        {
            if v[i].0 as usize != i {
                assert(pv[i as int].0 == v@[i as int].0);
                return false;
            }
            assert(pv[i as int].0 == v@[i as int].0);
            i = i + 1;
        }
        proof {
            lemma_pieces_in_index_order_complete(s, pv, self.max);
        }
        true
    }

    fn clear_cached(&self, cache: &mut RecvCache)
        ensures
            !self.has_body() ==> final(cache)@ == old(cache)@,
            self.has_body() ==> final(cache)@ == old(cache)@.remove(self.cache_key()),
    {
        if self.body_len == 0 {
            return;
        }
        cache.remove((self.session, self.max));
    }

    fn assembly(&self, cache: &mut RecvCache, packed: &Vec<u8>) -> (r: Result<Vec<u8>, RecvError>)
        ensures
            !self.has_body() ==> (r matches Ok(v) && v@ == packed@) && final(cache)@ == old(cache)@,
            self.has_body() && !pieces_complete(old(cache)@[self.cache_key()], self.max) ==> r
                == Err::<Vec<u8>, RecvError>(RecvError::NotDone) && final(cache)@ == old(cache)@,
            self.has_body() && pieces_complete(old(cache)@[self.cache_key()], self.max) ==> (r matches Ok(
                v,
            ) && v@ == piece_bytes(sort_pieces(old(cache)@[self.cache_key()])))
                && final(cache)@ == old(cache)@.remove(self.cache_key()),
    {
        if self.body_len == 0 {
            let c = packed.clone();
            assert(c@ == packed@);
            return Ok(c);
        }
        if !self.is_done(cache) {
            return Err(RecvError::NotDone);
        }
        let data = self.get_cached(cache);
        let ghost pv = piece_views(data@);
        let mut start: Vec<u8> = Vec::new();
        let mut i: usize = 0;
        assert(pv.take(0) =~= seq![]);
        while i < data.len()
            invariant
                pv == piece_views(data@),
                i <= data@.len(),
                start@ == piece_bytes(pv.take(i as int)),
            decreases data@.len() - i,
        {
            proof {
                assert(pv.take(i + 1).drop_last() =~= pv.take(i as int));
                assert(pv.take(i + 1).last() == pv[i as int]);
                assert(pv[i as int].1 == data@[i as int].1@);
            }
            append_all(&mut start, &data[i].1);
            i = i + 1;
        }
        assert(pv.take(data@.len() as int) =~= pv);
        self.clear_cached(cache);
        Ok(start)
    }
}

/// The pieces are in order of their indices.
pub open spec fn pieces_sorted(s: Seq<(u16, Seq<u8>)>) -> bool {
    forall|i: int, j: int| 0 <= i < j < s.len() ==> s[i].0 <= s[j].0
}

/// Inserting keeps the pieces in order, and adds exactly `x`.
proof fn lemma_insert_piece_props(x: (u16, Seq<u8>), s: Seq<(u16, Seq<u8>)>)
    requires
        pieces_sorted(s),
    ensures
        pieces_sorted(insert_piece(x, s)),
        insert_piece(x, s).to_multiset() == s.to_multiset().insert(x),
        insert_piece(x, s).len() == s.len() + 1,
    decreases s.len(),
{
    broadcast use vstd::seq_lib::group_to_multiset_ensures;

    if s.len() == 0 {
        assert(seq![x] =~= Seq::<(u16, Seq<u8>)>::empty().push(x));
    } else if s.last().0 <= x.0 {
    } else {
        let t = s.drop_last();
        assert(pieces_sorted(t));
        lemma_insert_piece_props(x, t);
        let r = insert_piece(x, t);
        assert(s =~= t.push(s.last()));
        assert forall|i: int, j: int| 0 <= i < j < r.len() + 1 implies r.push(s.last())[i].0
            <= r.push(s.last())[j].0 by {
            if j == r.len() {
                assert(r.to_multiset().count(r[i]) > 0);
                if r[i] != x {
                    assert(t.to_multiset().count(r[i]) > 0);
                    assert(t.contains(r[i]));
                    let k = choose|k: int| 0 <= k < t.len() && t[k] == r[i];
                    assert(s[k] == t[k]);
                }
            }
        }
        broadcast use vstd::multiset::group_multiset_axioms;

        assert(t.to_multiset().insert(x).insert(s.last()) =~= t.to_multiset().insert(
            s.last(),
        ).insert(x));
    }
}

/// Law: sorting puts the pieces in order of their indices and keeps exactly
/// the same pieces.
pub proof fn lemma_sort_pieces_props(s: Seq<(u16, Seq<u8>)>)
    ensures
        pieces_sorted(sort_pieces(s)),
        sort_pieces(s).to_multiset() == s.to_multiset(),
        sort_pieces(s).len() == s.len(),
    decreases s.len(),
{
    broadcast use vstd::seq_lib::group_to_multiset_ensures;

    if s.len() > 0 {
        let t = s.drop_last();
        lemma_sort_pieces_props(t);
        lemma_insert_piece_props(s.last(), sort_pieces(t));
        assert(s =~= t.push(s.last()));
    }
}

/// The place of a piece of index `k` in `t`.
spec fn piece_at(t: Seq<(u16, Seq<u8>)>, k: int) -> int {
    choose|j: int| 0 <= j < t.len() && t[j].0 == k
}

/// In pieces in order of their indices that hold every index below `n`, the
/// piece of a smaller index comes first.
proof fn lemma_piece_at_strict(t: Seq<(u16, Seq<u8>)>, n: int, a: int, b: int)
    requires
        pieces_sorted(t),
        forall|k: int| 0 <= k < n ==> #[trigger] has_piece(t, k),
        0 <= a < b < n,
    ensures
        0 <= piece_at(t, a) < piece_at(t, b) < t.len(),
        t[piece_at(t, a)].0 == a,
        t[piece_at(t, b)].0 == b,
{
    assert(has_piece(t, a));
    assert(has_piece(t, b));
    let pa = piece_at(t, a);
    let pb = piece_at(t, b);
    if pb < pa {
        assert(t[pb].0 <= t[pa].0);
    }
}

proof fn lemma_piece_at_lower(t: Seq<(u16, Seq<u8>)>, n: int, k: int)
    requires
        pieces_sorted(t),
        forall|k: int| 0 <= k < n ==> #[trigger] has_piece(t, k),
        0 <= k < n,
    ensures
        piece_at(t, k) >= k,
        0 <= piece_at(t, k) < t.len(),
        t[piece_at(t, k)].0 == k,
    decreases k,
{
    assert(has_piece(t, k));
    if k > 0 {
        lemma_piece_at_lower(t, n, k - 1);
        lemma_piece_at_strict(t, n, k - 1, k);
    }
}

proof fn lemma_piece_at_upper(t: Seq<(u16, Seq<u8>)>, n: int, k: int)
    requires
        pieces_sorted(t),
        t.len() == n,
        forall|k: int| 0 <= k < n ==> #[trigger] has_piece(t, k),
        0 <= k < n,
    ensures
        piece_at(t, k) <= k,
    decreases n - k,
{
    assert(has_piece(t, k));
    if k < n - 1 {
        lemma_piece_at_upper(t, n, k + 1);
        lemma_piece_at_strict(t, n, k, k + 1);
    }
}

/// Law: once all pieces of a message have arrived (in any order), sorting
/// puts the piece of index `i` at place `i`, for every `i` up to `max`.
pub proof fn lemma_complete_pieces_in_index_order(s: Seq<(u16, Seq<u8>)>, max: u16)
    requires
        pieces_complete(s, max),
    ensures
        sort_pieces(s).len() == max + 1,
        forall|j: int| 0 <= j < sort_pieces(s).len() ==> #[trigger] sort_pieces(s)[j].0 == j,
{
    broadcast use vstd::seq_lib::group_to_multiset_ensures;

    let t = sort_pieces(s);
    let n = max + 1;
    lemma_sort_pieces_props(s);
    assert forall|k: int| 0 <= k < n implies #[trigger] has_piece(t, k) by {
        assert(has_piece(s, k));
        let j = choose|j: int| 0 <= j < s.len() && s[j].0 == k;
        assert(s.contains(s[j]));
        assert(t.to_multiset().count(s[j]) > 0);
        assert(t.contains(s[j]));
        let j2 = choose|j2: int| 0 <= j2 < t.len() && t[j2] == s[j];
        assert(t[j2].0 == k);
    }
    assert forall|j: int| 0 <= j < t.len() implies #[trigger] t[j].0 == j by {
        lemma_piece_at_lower(t, n, j);
        lemma_piece_at_upper(t, n, j);
    }
}

/// Sorted pieces that hold each index from 0 to `max` at its own place come
/// from a complete message.
proof fn lemma_pieces_in_index_order_complete(s: Seq<(u16, Seq<u8>)>, pv: Seq<(u16, Seq<u8>)>, max: u16)
    requires
        pv == sort_pieces(s),
        pv.len() == max + 1,
        forall|j: int| 0 <= j < pv.len() ==> #[trigger] pv[j].0 == j,
    ensures
        pieces_complete(s, max),
{
    broadcast use vstd::seq_lib::group_to_multiset_ensures;

    lemma_sort_pieces_props(s);
    assert forall|k: int| 0 <= k <= max implies #[trigger] has_piece(s, k) by {
        assert(pv[k].0 == k);
        assert(pv.contains(pv[k]));
        assert(s.to_multiset().count(pv[k]) > 0);
        assert(s.contains(pv[k]));
        let j = choose|j: int| 0 <= j < s.len() && s[j] == pv[k];
        assert(s[j].0 == k);
    }
}

/// The bytes of the pieces are their bodies glued together.
proof fn lemma_piece_bytes_flatten(s: Seq<(u16, Seq<u8>)>)
    ensures
        piece_bytes(s) == s.map_values(|p: (u16, Seq<u8>)| p.1).flatten(),
    decreases s.len(),
{
    let b = s.map_values(|p: (u16, Seq<u8>)| p.1);
    if s.len() > 0 {
        lemma_piece_bytes_flatten(s.drop_last());
        assert(b.drop_last() =~= s.drop_last().map_values(|p: (u16, Seq<u8>)| p.1));
        b.drop_last().lemma_flatten_and_flatten_alt_are_equivalent();
        b.lemma_flatten_and_flatten_alt_are_equivalent();
    } else {
        assert(b =~= Seq::<Seq<u8>>::empty());
    }
}

/// The pieces of a message: piece `i` with index `i`.
pub open spec fn indexed_pieces(pieces: Seq<Seq<u8>>) -> Seq<(u16, Seq<u8>)> {
    Seq::new(pieces.len(), |i: int| (i as u16, pieces[i]))
}

/// Law: a message cut into pieces for datagrams with `cap` bytes of room
/// (at most 2^16 pieces, so that their indices fit), whose pieces arrive in
/// any order, each once, is complete and is put back together.
pub proof fn lemma_pieces_roundtrip(msg: Seq<u8>, cap: nat, arrived: Seq<(u16, Seq<u8>)>)
    requires
        cap > 0,
        0 < msg.len(),
        piece_count(msg.len(), cap) <= 0x10000,
        arrived.to_multiset() == indexed_pieces(segments(msg, cap)).to_multiset(),
    ensures
        pieces_complete(arrived, (segments(msg, cap).len() - 1) as u16),
        piece_bytes(sort_pieces(arrived)) == msg,
{
    broadcast use vstd::seq_lib::group_to_multiset_ensures;

    let pieces = segments(msg, cap);
    let m = indexed_pieces(pieces);
    let n = pieces.len();
    lemma_segments_shape(msg, cap);
    assert(n > 0) by (nonlinear_arith)
        requires
            n == (msg.len() + cap - 1) / (cap as int),
            cap >= 1,
            msg.len() >= 1,
    ;
    let max = (n - 1) as u16;
    arrived.to_multiset_ensures();
    m.to_multiset_ensures();
    assert(arrived.len() == n);
    assert forall|k: int| 0 <= k <= max implies #[trigger] has_piece(arrived, k) by {
        assert(m[k].0 == k);
        assert(m.contains(m[k]));
        assert(arrived.to_multiset().count(m[k]) > 0);
        assert(arrived.contains(m[k]));
        let j = choose|j: int| 0 <= j < arrived.len() && arrived[j] == m[k];
        assert(arrived[j].0 == k);
    }
    lemma_complete_pieces_in_index_order(arrived, max);
    lemma_sort_pieces_props(arrived);
    let t = sort_pieces(arrived);
    assert forall|j: int| 0 <= j < n implies #[trigger] t[j] == m[j] by {
        assert(t.contains(t[j]));
        assert(m.to_multiset().count(t[j]) > 0);
        assert(m.contains(t[j]));
        let i = choose|i: int| 0 <= i < m.len() && m[i] == t[j];
        assert(m[i].0 == i);
    }
    assert(t =~= m);
    lemma_piece_bytes_flatten(m);
    assert(m.map_values(|p: (u16, Seq<u8>)| p.1) =~= pieces);
    lemma_segments_flatten(msg, cap);
}

/// The header of piece `i` of `n`, holding `len` bytes: `template` numbered
/// with the piece's index, the index of the last piece and the piece's length.
pub open spec fn piece_header(template: Packet, i: int, n: int, len: int) -> Packet {
    Packet { order: i as u16, max: (n - 1) as u16, body_len: len as u16, ..template }
}

/// Cuts `msg` into the pieces that follow a header of `header_len` bytes in
/// datagrams of `PAC_SIZE` bytes, each with its header.
pub fn segment_headers(template: &Packet, msg: &Vec<u8>, header_len: usize) -> (r: Vec<(Packet, Vec<u8>)>)
    requires
        msg@.len() == 0 || header_len < PAC_SIZE,
        msg@.len() == 0 || piece_count(msg@.len(), (PAC_SIZE - header_len) as nat) <= 0x10000,
    ensures
        ({
            let pieces = segments(msg@, (PAC_SIZE - header_len) as nat);
            &&& r@.len() == pieces.len()
            &&& forall|i: int|
                0 <= i < r@.len() ==> (#[trigger] r@[i]).1@ == pieces[i] && r@[i].0 == piece_header(
                    *template,
                    i,
                    pieces.len() as int,
                    pieces[i].len() as int,
                )
        }),
{
    let pieces = segment_bytes(msg, PAC_SIZE, header_len);
    let ghost ps = segments(msg@, (PAC_SIZE - header_len) as nat);
    proof {
        if msg@.len() == 0 {
            assert(ps =~= seq![]);
            assert(vec_views(pieces@) =~= ps);
        } else {
            lemma_segments_shape(msg@, (PAC_SIZE - header_len) as nat);
        }
    }
    let n = pieces.len();
    let mut r: Vec<(Packet, Vec<u8>)> = Vec::new();
    let mut i: usize = 0;
    while i < n
        invariant
            n == pieces@.len(),
            vec_views(pieces@) == ps,
            n == ps.len(),
            n <= 0x10000,
            forall|j: int| 0 <= j < n ==> #[trigger] ps[j].len() <= PAC_SIZE,
            i <= n,
            r@.len() == i,
            forall|j: int|
                0 <= j < i ==> (#[trigger] r@[j]).1@ == ps[j] && r@[j].0 == piece_header(
                    *template,
                    j,
                    n as int,
                    ps[j].len() as int,
                ),
        decreases n - i,
    {
        let mut h = template.clone();
        h.order = i as u16;
        h.max = (n - 1) as u16;
        assert(pieces@[i as int]@ == ps[i as int]);
        assert(ps[i as int].len() <= PAC_SIZE);
        h.body_len = pieces[i].len() as u16;
        let body = pieces[i].clone();
        assert(body@ == ps[i as int]);
        r.push((h, body));
        i = i + 1;
    }
    r
}

/// Keeps the body that follows `header` in the datagram `enc` (when the header
/// announces one) among the pieces of its session.
pub fn keep_piece(header: &Packet, enc: &Vec<u8>, cache: &mut RecvCache)
    requires
        header.body_len != 0 ==> enc@.len() >= 2 && enc.len() >= 2 + crate::server::frame_len(enc@)
            + header.body_len,
    ensures
        header.body_len == 0 ==> final(cache)@ == old(cache)@,
        header.body_len != 0 ==> final(cache)@ == old(cache)@.insert(
            (header.session, header.max),
            (if old(cache)@.dom().contains((header.session, header.max)) {
                old(cache)@[(header.session, header.max)]
            } else {
                seq![]
            }).push((
                header.order,
                enc@.subrange(
                    2 + crate::server::frame_len(enc@),
                    2 + crate::server::frame_len(enc@) + header.body_len,
                ),
            )),
        ),
{
    if header.body_len == 0 {
        return;
    }
    let body = crate::server::unpack_body(enc, header.body_len as usize);
    cache.add(header.session, header.max, header.order, body);
}

/// The settings of the command-line client.
pub struct Conf {
    /// A random two-byte id.
    pub id: [u8; 2],
    /// The largest datagram.
    pub size: u16,
    /// The address of the swap server.
    pub swap_server: String,
}

/// A random byte, from `rand::thread_rng().gen::<u8>()`. Nothing is claimed
/// of it: any byte may come back.
#[verifier::external_body]
fn rand_u8() -> u8 {
    rand::thread_rng().gen::<u8>()
}

impl Conf {
    /// Settings with a random id, datagrams of 1024 bytes and the swap server
    /// at `127.0.0.1:4222`.
    pub fn default() -> (c: Conf)
        ensures
            c.size == 1024,
            c.swap_server@ == "127.0.0.1:4222"@,
    {
        let n1 = rand_u8();
        let n2 = rand_u8();
        Conf { id: [n1, n2], size: 1024, swap_server: "127.0.0.1:4222".to_owned() }
    }
}

} // verus!
