//! The in-memory send cache: the packets of each message sent, by peer and
//! a one-byte session number, kept until the message is done.
use vstd::prelude::*;
use crate::addr::PeerAddr;
use crate::assoc::{assoc, keys_distinct, lemma_assoc, lemma_assoc_push, lemma_assoc_remove};
use crate::packet::{Packet, PacketView, packet_views};

verus! {

/// Why a packet could not be found in the send cache.
#[derive(PartialEq, Eq, Structural, Copy, Clone, Debug)]
pub enum CacheError {
    /// No packet of that session and index is cached.
    NotCached,
}

/// The pairs as plain values.
pub open spec fn cache_views(s: Seq<((PeerAddr, u8), Vec<Packet>)>) -> Seq<((PeerAddr, u8), Seq<PacketView>)> {
    s.map_values(|e: ((PeerAddr, u8), Vec<Packet>)| (e.0, packet_views(e.1@)))
}

/// The index of the first packet of `s` whose index is `order`, if any.
pub open spec fn first_with_order(s: Seq<PacketView>, order: u32) -> Option<int>
    decreases s.len(),
{
    if s.len() == 0 {
        None
    } else if s[0].order == order {
        Some(0)
    } else {
        match first_with_order(s.drop_first(), order) {
            Some(i) => Some(i + 1),
            None => None,
        }
    }
}

/// The packets sent, by peer and session.
pub struct SendCache {
    entries: Vec<((PeerAddr, u8), Vec<Packet>)>,
}

impl View for SendCache {
    type V = Map<(PeerAddr, u8), Seq<PacketView>>;

    closed spec fn view(&self) -> Map<(PeerAddr, u8), Seq<PacketView>> {
        assoc(cache_views(self.entries@))
    }
}

impl SendCache {
    /// No (peer, session) is cached twice.
    pub closed spec fn wf(&self) -> bool {
        keys_distinct(cache_views(self.entries@))
    }

    /// An empty cache.
    pub fn new() -> (c: SendCache)
        ensures
            c.wf(),
            c@ == Map::<(PeerAddr, u8), Seq<PacketView>>::empty(),
    {
        let c = SendCache { entries: Vec::new() };
        assert(cache_views(c.entries@) =~= seq![]);
        c
    }

    fn find(&self, k: (PeerAddr, u8)) -> (r: Option<usize>)
        requires
            self.wf(),
        ensures
            r matches Some(i) ==> i < self.entries@.len() && self.entries@[i as int].0 == k,
            r is None ==> !self@.dom().contains(k),
    {
        let ghost s = cache_views(self.entries@);
        let mut i: usize = 0;
        while i < self.entries.len()
            invariant
                s == cache_views(self.entries@),
                i <= self.entries@.len(),
                forall|j: int| 0 <= j < i ==> #[trigger] s[j].0 != k,
            decreases self.entries@.len() - i,
        {
            if self.entries[i].0.0 == k.0 && self.entries[i].0.1 == k.1 {
                return Some(i);
            }
            assert(s[i as int].0 == self.entries@[i as int].0);
            i = i + 1;
        }
        proof {
            lemma_assoc(s);
        }
        None
    }

    /// The lowest session number not in use with `addr`, or 255 when all are.
    pub fn new_sess(&self, addr: PeerAddr) -> (r: u8)
        requires
            self.wf(),
        ensures
            forall|j: u8| j < r ==> self@.dom().contains((addr, j)),
            r != 255 ==> !self@.dom().contains((addr, r)),
    {
        let mut i: u8 = 0;
        while i < 255
            invariant
                self.wf(),
                forall|j: u8| j < i ==> self@.dom().contains((addr, j)),
            decreases 255 - i,
        {
            match self.find((addr, i)) {
                None => {
                    return i;
                },
                Some(p) => {
                    proof {
                        lemma_assoc(cache_views(self.entries@));
                        assert(cache_views(self.entries@)[p as int].0 == (addr, i));
                    }
                },
            }
            i = i + 1;
        }
        255
    }

    /// Caches the packets `data` of session `sess` with `addr`, replacing what was cached.
    pub fn save_send_cache(&mut self, data: &Vec<Packet>, addr: PeerAddr, sess: u8)
        requires
            old(self).wf(),
        ensures
            final(self).wf(),
            final(self)@ == old(self)@.insert((addr, sess), packet_views(data@)),
    {
        let k = (addr, sess);
        let ghost s0 = cache_views(self.entries@);
        proof {
            lemma_assoc(s0);
        }
        match self.find(k) {
            Some(i) => {
                self.entries.remove(i);
                proof {
                    lemma_assoc_remove(s0, i as int);
                    assert(cache_views(self.entries@) =~= s0.remove(i as int));
                }
            },
            None => {},
        }
        let ghost t = cache_views(self.entries@);
        proof {
            lemma_assoc(t);
            assert(!assoc(t).dom().contains(k));
        }
        let copy = copy_packets(data);
        self.entries.push((k, copy));
        proof {
            assert(cache_views(self.entries@) =~= t.push((k, packet_views(data@))));
            lemma_assoc_push(t, (k, packet_views(data@)));
            assert forall|a: int, b: int| 0 <= a < b < t.len() + 1 implies cache_views(self.entries@)[a].0
                != cache_views(self.entries@)[b].0 by {
                if b == t.len() {
                    assert(cache_views(self.entries@)[a] == t[a]);
                }
            }
            assert(assoc(t).insert(k, packet_views(data@)) =~= assoc(s0).insert(k, packet_views(data@)));
        }
    }

    /// The first cached packet of index `order` of session `sess` with `addr`.
    pub fn get_send_cache(&self, addr: PeerAddr, sess: u8, order: u32) -> (r: Result<Packet, CacheError>)
        requires
            self.wf(),
        ensures
            !self@.dom().contains((addr, sess)) ==> r == Err::<Packet, CacheError>(CacheError::NotCached),
            self@.dom().contains((addr, sess)) ==> match first_with_order(self@[(addr, sess)], order) {
                Some(j) => r matches Ok(p) && p@ == self@[(addr, sess)][j],
                None => r == Err::<Packet, CacheError>(CacheError::NotCached),
            },
    {
        let k = (addr, sess);
        proof {
            lemma_assoc(cache_views(self.entries@));
        }
        match self.find(k) {
            None => Err(CacheError::NotCached),
            Some(i) => {
                let pacs = &self.entries[i].1;
                let ghost s = packet_views(pacs@);
                assert(cache_views(self.entries@)[i as int] == (k, s));
                assert(self@[k] == s);
                assert(s.skip(0) =~= s);
                let mut j: usize = 0;
                while j < pacs.len()
                    invariant
                        s == packet_views(pacs@),
                        self@.dom().contains(k),
                        self@[k] == s,
                        k == (addr, sess),
                        j <= pacs@.len(),
                        forall|l: int| 0 <= l < j ==> s[l].order != order,
                        first_with_order(s, order) == (match first_with_order(s.skip(j as int), order) {
                            Some(x) => Some(x + j),
                            None => None::<int>,
                        }),
                    decreases pacs@.len() - j,
                {
                    proof {
                        let t = s.skip(j as int);
                        assert(t.drop_first() =~= s.skip(j + 1));
                        assert(t[0] == s[j as int]);
                    }
                    if pacs[j].order == order {
                        return Ok(pacs[j].clone());
                    }
                    j = j + 1;
                }
                proof {
                    assert(s.skip(j as int) =~= Seq::<PacketView>::empty());
                }
                Err(CacheError::NotCached)
            },
        }
    }

    /// Forgets session `sess` with `addr`.
    pub fn clear_send_cache(&mut self, addr: PeerAddr, sess: u8)
        requires
            old(self).wf(),
        ensures
            final(self).wf(),
            final(self)@ == old(self)@.remove((addr, sess)),
    {
        let k = (addr, sess);
        let ghost s0 = cache_views(self.entries@);
        match self.find(k) {
            Some(i) => {
                self.entries.remove(i);
                proof {
                    lemma_assoc_remove(s0, i as int);
                    assert(cache_views(self.entries@) =~= s0.remove(i as int));
                }
            },
            None => {
                assert(old(self)@.remove(k) =~= old(self)@);
            },
        }
    }
}

/// Copies a vector of packets.
pub fn copy_packets(v: &Vec<Packet>) -> (r: Vec<Packet>)
    ensures
        packet_views(r@) == packet_views(v@),
{
    let mut r: Vec<Packet> = Vec::new();
    let mut i: usize = 0;
    while i < v.len()
        invariant
            i <= v@.len(),
            packet_views(r@) == packet_views(v@).take(i as int),
        decreases v@.len() - i,
    {
        let ghost before = packet_views(r@);
        r.push(v[i].clone());
        assert(packet_views(r@) =~= before.push(v@[i as int]@));
        assert(packet_views(v@).take(i + 1) =~= packet_views(v@).take(i as int).push(v@[i as int]@));
        i = i + 1;
    }
    assert(packet_views(v@).take(v@.len() as int) =~= packet_views(v@));
    r
}

/// The first packet with a given index is found at its place.
pub proof fn lemma_first_with_order(s: Seq<PacketView>, j: int)
    requires
        0 <= j < s.len(),
        forall|l: int| 0 <= l < j ==> #[trigger] s[l].order != s[j].order,
    ensures
        first_with_order(s, s[j].order) == Some(j),
    decreases j,
{
    if j > 0 {
        let t = s.drop_first();
        assert forall|l: int| 0 <= l < j - 1 implies #[trigger] t[l].order != t[j - 1].order by {
            assert(t[l] == s[l + 1]);
        }
        lemma_first_with_order(t, j - 1);
    }
}

/// Law: after a session's packets are cached, asking for the index of one of
/// them (the first with that index) finds it.
pub proof fn lemma_saved_packet_is_found(
    m: Map<(PeerAddr, u8), Seq<PacketView>>,
    key: (PeerAddr, u8),
    pacs: Seq<PacketView>,
    j: int,
)
    requires
        0 <= j < pacs.len(),
        forall|l: int| 0 <= l < j ==> #[trigger] pacs[l].order != pacs[j].order,
    ensures
        m.insert(key, pacs).dom().contains(key),
        first_with_order(m.insert(key, pacs)[key], pacs[j].order) == Some(j),
{
    lemma_first_with_order(pacs, j);
}

} // verus!
