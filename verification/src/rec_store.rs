//! The receive store: every packet that arrives from a peer is kept under a
//! key (peer address, session, last index, index). A message can be read once
//! all its packets are there; reading it removes its packets from the store,
//! together with every entry whose key cannot be read.
use vstd::prelude::*;
use crate::addr::PeerAddr;
use crate::packet::{HEADER_LEN, Packet, PacketView, packet_views, parse_packet};
use crate::packets::{Packets, complete, sort_by_order, bodies};

verus! {

/// The key under which a received packet is kept.
#[derive(PartialEq, Eq, Structural, Clone, Copy, Debug)]
pub struct RecKey {
    pub address: PeerAddr,
    pub session: u32,
    pub max: u32,
    pub order: u32,
}

impl RecKey {
    /// The key of packet `pac` received from `addr`.
    pub fn new(pac: &Packet, addr: PeerAddr) -> (k: RecKey)
        ensures
            k == (RecKey { address: addr, session: pac.sess, max: pac.max, order: pac.order }),
    {
        RecKey { address: addr, session: pac.sess, max: pac.max, order: pac.order }
    }

    /// Groups the packets of the entries by session and peer. Entries whose key
    /// cannot be read are left out.
    pub fn group_by_key(dic: &Vec<RecEntry>) -> (gs: Vec<Group>)
        requires
            values_hold_packets(rec_views(dic@)),
        ensures
            groups_of(gs@, rec_views(dic@)),
    {
        let ghost es = rec_views(dic@);
        let mut m: Vec<Group> = Vec::new();
        let n = dic.len();
        let mut i: usize = 0;
        assert(es.take(0) =~= seq![]);
        while i < n
            invariant
                es == rec_views(dic@),
                values_hold_packets(es),
                n == es.len(),
                i <= n,
                groups_of(m@, es.take(i as int)),
            decreases n - i,
        {
            let e = &dic[i];
            proof {
                assert(es[i as int] == dic@[i as int]@);
                assert forall|a: PeerAddr, s: u32| true implies pacs_for(es.take(i + 1), a, s) == (if of_session(
                    es[i as int],
                    a,
                    s,
                ) {
                    pacs_for(es.take(i as int), a, s).push(
                        parse_packet(es[i as int].value, es[i as int].value.len() as int),
                    )
                } else {
                    pacs_for(es.take(i as int), a, s)
                }) by {
                    lemma_pacs_for_step(es, i as int, a, s);
                }
            }
            match e.key {
                None => {
                    assert(groups_of(m@, es.take(i + 1)));
                },
                Some(key) => {
                    let pac = Packet::new_from_save_db(&e.value);
                    let ghost pv = pac@;
                    let mut j: usize = 0;
                    let mut found = false;
                    while !found && j < m.len()
                        invariant
                            j <= m@.len(),
                            found ==> j < m@.len() && m@[j as int].address == key.address
                                && m@[j as int].session == key.session,
                            forall|l: int|
                                0 <= l < j ==> !(#[trigger] m@[l].address == key.address
                                    && m@[l].session == key.session),
                        decreases m@.len() - j, if found { 0int } else { 1int },
                    {
                        if m[j].address == key.address && m[j].session == key.session {
                            found = true;
                        } else {
                            j = j + 1;
                        }
                    }
                    let ghost old_m = m@;
                    if found {
                        let mut g = m.remove(j);
                        g.pacs.push(pac);
                        m.insert(j, g);
                        proof {
                            assert(packet_views(m@[j as int].pacs@) =~= packet_views(
                                old_m[j as int].pacs@,
                            ).push(pv));
                            assert forall|l: int| 0 <= l < m@.len() && l != j implies m@[l] == old_m[l] by {}
                            let t = es.take(i + 1);
                            assert(groups_unique(m@)) by {
                                assert forall|x: int, y: int| 0 <= x < y < m@.len() implies (m@[x].address, m@[x].session) != (m@[y].address, m@[y].session) by {
                                    assert(m@[x].address == old_m[x].address && m@[x].session == old_m[x].session);
                                    assert(m@[y].address == old_m[y].address && m@[y].session == old_m[y].session);
                                }
                            }
                            assert forall|l: int| 0 <= l < m@.len() implies packet_views(#[trigger] m@[l].pacs@) == pacs_for(t, m@[l].address, m@[l].session) by {
                                lemma_pacs_for_step(es, i as int, m@[l].address, m@[l].session);
                                assert(packet_views(old_m[l].pacs@) == pacs_for(es.take(i as int), old_m[l].address, old_m[l].session));
                                if l != j {
                                    assert(m@[l] == old_m[l]);
                                    assert(!of_session(es[i as int], m@[l].address, m@[l].session));
                                } else {
                                    assert(of_session(es[i as int], m@[l].address, m@[l].session));
                                    assert(pv == parse_packet(es[i as int].value, es[i as int].value.len() as int));
                                }
                            }
                            assert forall|l: int| 0 <= l < m@.len() implies pacs_for(t, #[trigger] m@[l].address, m@[l].session).len() > 0 by {
                                if l != j {
                                    assert(!of_session(es[i as int], m@[l].address, m@[l].session));
                                }
                            }
                            assert forall|a: PeerAddr, s: u32|
                                #[trigger] pacs_for(es.take(i + 1), a, s).len() > 0 implies exists|l: int|
                                0 <= l < m@.len() && m@[l].address == a && m@[l].session == s by {
                                if !of_session(es[i as int], a, s) {
                                    assert(pacs_for(es.take(i as int), a, s).len() > 0);
                                    let l = choose|l: int|
                                        0 <= l < old_m.len() && old_m[l].address == a && old_m[l].session
                                            == s;
                                    assert(m@[l].address == a);
                                } else {
                                    assert(m@[j as int].address == a);
                                }
                            }
                        }
                    } else {
                        let mut v: Vec<Packet> = Vec::new();
                        v.push(pac);
                        m.push(Group { address: key.address, session: key.session, pacs: v });
                        proof {
                            assert(packet_views(v@) =~= seq![pv]);
                            assert(pacs_for(es.take(i as int), key.address, key.session).len() == 0) by {
                                if pacs_for(es.take(i as int), key.address, key.session).len() > 0 {
                                    let l = choose|l: int|
                                        0 <= l < old_m.len() && old_m[l].address == key.address
                                            && old_m[l].session == key.session;
                                    assert(false);
                                }
                            }
                            assert(seq![pv] =~= Seq::<PacketView>::empty().push(pv));
                            let t = es.take(i + 1);
                            let last = (m@.len() - 1) as int;
                            assert(groups_unique(m@)) by {
                                assert forall|x: int, y: int| 0 <= x < y < m@.len() implies (m@[x].address, m@[x].session) != (m@[y].address, m@[y].session) by {
                                    if y == last {
                                        assert(!(old_m[x].address == key.address && old_m[x].session == key.session));
                                    }
                                }
                            }
                            assert forall|l: int| 0 <= l < m@.len() implies packet_views(#[trigger] m@[l].pacs@) == pacs_for(t, m@[l].address, m@[l].session) by {
                                lemma_pacs_for_step(es, i as int, m@[l].address, m@[l].session);
                                if l != last {
                                    assert(m@[l] == old_m[l]);
                                    assert(packet_views(old_m[l].pacs@) == pacs_for(es.take(i as int), old_m[l].address, old_m[l].session));
                                    assert(!of_session(es[i as int], m@[l].address, m@[l].session));
                                } else {
                                    assert(of_session(es[i as int], m@[l].address, m@[l].session));
                                    assert(pv == parse_packet(es[i as int].value, es[i as int].value.len() as int));
                                    assert(pacs_for(es.take(i as int), key.address, key.session) =~= seq![]);
                                }
                            }
                            assert forall|l: int| 0 <= l < m@.len() implies pacs_for(t, #[trigger] m@[l].address, m@[l].session).len() > 0 by {
                                if l != last {
                                    assert(m@[l] == old_m[l]);
                                    assert(!of_session(es[i as int], m@[l].address, m@[l].session));
                                }
                            }
                            assert forall|a: PeerAddr, s: u32|
                                #[trigger] pacs_for(es.take(i + 1), a, s).len() > 0 implies exists|l: int|
                                0 <= l < m@.len() && m@[l].address == a && m@[l].session == s by {
                                if !of_session(es[i as int], a, s) {
                                    assert(pacs_for(es.take(i as int), a, s).len() > 0);
                                    let l = choose|l: int|
                                        0 <= l < old_m.len() && old_m[l].address == a && old_m[l].session
                                            == s;
                                    assert(m@[l].address == a);
                                } else {
                                    assert(m@[m@.len() - 1].address == a);
                                }
                            }
                        }
                    }
                },
            }
            i = i + 1;
        }
        assert(es.take(n as int) =~= es);
        m
    }

    /// The sessions (peer and session) all of whose packets are in the store.
    pub fn get_complete_keys(dic: &Vec<RecEntry>) -> (r: Vec<(PeerAddr, u32)>)
        requires
            values_hold_packets(rec_views(dic@)),
        ensures
            forall|i: int| 0 <= i < r@.len() ==> complete(pacs_for(rec_views(dic@), #[trigger] r@[i].0, r@[i].1)),
            forall|i: int, j: int| 0 <= i < j < r@.len() ==> r@[i] != r@[j],
            forall|a: PeerAddr, s: u32|
                #[trigger] complete(pacs_for(rec_views(dic@), a, s)) ==> r@.contains((a, s)),
    {
        let ghost es = rec_views(dic@);
        let m = RecKey::group_by_key(dic);
        let mut l: Vec<(PeerAddr, u32)> = Vec::new();
        let mut i: usize = 0;
        while i < m.len()
            invariant
                groups_of(m@, es),
                i <= m@.len(),
                l@.len() <= i,
                forall|x: int| 0 <= x < l@.len() ==> complete(pacs_for(es, #[trigger] l@[x].0, l@[x].1)),
                forall|x: int| 0 <= x < l@.len() ==> exists|g: int| 0 <= g < i && #[trigger] l@[x] == (m@[g].address, m@[g].session),
                forall|x: int, y: int| 0 <= x < y < l@.len() ==> l@[x] != l@[y],
                forall|g: int|
                    0 <= g < i && complete(pacs_for(es, #[trigger] m@[g].address, m@[g].session))
                        ==> l@.contains((m@[g].address, m@[g].session)),
            decreases m@.len() - i,
        {
            if m[i].pacs.is_complete() {
                let ghost before = l@;
                proof {
                    assert forall|x: int| 0 <= x < before.len() implies before[x] != (m@[i as int].address, m@[i as int].session) by {
                        let g = choose|g: int| 0 <= g < i && #[trigger] before[x] == (m@[g].address, m@[g].session);
                        assert((m@[g].address, m@[g].session) != (m@[i as int].address, m@[i as int].session));
                    }
                }
                l.push((m[i].address, m[i].session));
                proof {
                    assert(l@[l@.len() - 1] == (m@[i as int].address, m@[i as int].session));
                    assert forall|x: int| 0 <= x < l@.len() implies exists|g: int| 0 <= g < i + 1 && #[trigger] l@[x] == (m@[g].address, m@[g].session) by {
                        if x < before.len() {
                            assert(l@[x] == before[x]);
                        } else {
                            assert(l@[x] == (m@[i as int].address, m@[i as int].session));
                        }
                    }
                    assert forall|g: int|
                        0 <= g < i + 1 && complete(pacs_for(es, #[trigger] m@[g].address, m@[g].session))
                            implies l@.contains((m@[g].address, m@[g].session)) by {
                        if g < i {
                            let x = choose|x: int| 0 <= x < before.len() && before[x] == (m@[g].address, m@[g].session);
                            assert(l@[x] == before[x]);
                        } else {
                            assert(l@[l@.len() - 1] == (m@[g].address, m@[g].session));
                        }
                    }
                }
            }
            i = i + 1;
        }
        proof {
            assert forall|a: PeerAddr, s: u32|
                #[trigger] complete(pacs_for(es, a, s)) implies l@.contains((a, s)) by {
                assert(pacs_for(es, a, s).len() > 0);
                let g = choose|g: int| 0 <= g < m@.len() && m@[g].address == a && m@[g].session == s;
                assert(complete(pacs_for(es, m@[g].address, m@[g].session)));
            }
        }
        l
    }
}

/// An entry of the store as read: its raw key, the key decoded from it (`None`
/// when the raw key cannot be decoded), and the stored packet bytes.
pub struct RecEntry {
    pub raw: Vec<u8>,
    pub key: Option<RecKey>,
    pub value: Vec<u8>,
}

/// An entry as plain values.
pub struct RecEntryView {
    pub raw: Seq<u8>,
    pub key: Option<RecKey>,
    pub value: Seq<u8>,
}

impl View for RecEntry {
    type V = RecEntryView;

    open spec fn view(&self) -> RecEntryView {
        RecEntryView { raw: self.raw@, key: self.key, value: self.value@ }
    }
}

/// The views of the entries.
pub open spec fn rec_views(s: Seq<RecEntry>) -> Seq<RecEntryView> {
    s.map_values(|e: RecEntry| e@)
}

/// Whether the key of an entry is that of a packet of session `s` from `a`.
pub open spec fn of_session(e: RecEntryView, a: PeerAddr, s: u32) -> bool {
    e.key matches Some(k) && k.address == a && k.session == s
}

/// Every entry whose key can be read holds the bytes of a packet.
pub open spec fn values_hold_packets(es: Seq<RecEntryView>) -> bool {
    forall|i: int| 0 <= i < es.len() && (#[trigger] es[i]).key is Some ==> es[i].value.len() >= HEADER_LEN
}

/// The packets kept for session `s` from `a`, in the order of the entries.
pub open spec fn pacs_for(es: Seq<RecEntryView>, a: PeerAddr, s: u32) -> Seq<PacketView>
    decreases es.len(),
{
    if es.len() == 0 {
        seq![]
    } else if of_session(es.last(), a, s) {
        pacs_for(es.drop_last(), a, s).push(parse_packet(es.last().value, es.last().value.len() as int))
    } else {
        pacs_for(es.drop_last(), a, s)
    }
}

/// The raw keys removed once session `s` from `a` is read: those of its
/// packets and those that cannot be decoded, in the order of the entries.
pub open spec fn removed_keys(es: Seq<RecEntryView>, a: PeerAddr, s: u32) -> Seq<Seq<u8>>
    decreases es.len(),
{
    if es.len() == 0 {
        seq![]
    } else if es.last().key is None || of_session(es.last(), a, s) {
        removed_keys(es.drop_last(), a, s).push(es.last().raw)
    } else {
        removed_keys(es.drop_last(), a, s)
    }
}

/// The packets of one session from one peer.
pub struct Group {
    pub address: PeerAddr,
    pub session: u32,
    pub pacs: Vec<Packet>,
}

/// No two groups are of the same session from the same peer.
pub open spec fn groups_unique(gs: Seq<Group>) -> bool {
    forall|i: int, j: int|
        0 <= i < j < gs.len() ==> (gs[i].address, gs[i].session) != (gs[j].address, gs[j].session)
}

/// The groups are exactly those of the sessions that have packets in `es`,
/// each with the packets of its session.
pub open spec fn groups_of(gs: Seq<Group>, es: Seq<RecEntryView>) -> bool {
    &&& groups_unique(gs)
    &&& forall|i: int|
        0 <= i < gs.len() ==> packet_views(#[trigger] gs[i].pacs@) == pacs_for(
            es,
            gs[i].address,
            gs[i].session,
        )
    &&& forall|i: int| 0 <= i < gs.len() ==> pacs_for(es, #[trigger] gs[i].address, gs[i].session).len() > 0
    &&& forall|a: PeerAddr, s: u32|
        #[trigger] pacs_for(es, a, s).len() > 0 ==> exists|i: int|
            0 <= i < gs.len() && gs[i].address == a && gs[i].session == s
}

/// One entry more: how the packets and the removed keys of a session grow.
pub proof fn lemma_pacs_for_step(es: Seq<RecEntryView>, i: int, a: PeerAddr, s: u32)
    requires
        0 <= i < es.len(),
    ensures
        pacs_for(es.take(i + 1), a, s) == (if of_session(es[i], a, s) {
            pacs_for(es.take(i), a, s).push(parse_packet(es[i].value, es[i].value.len() as int))
        } else {
            pacs_for(es.take(i), a, s)
        }),
        removed_keys(es.take(i + 1), a, s) == (if es[i].key is None || of_session(es[i], a, s) {
            removed_keys(es.take(i), a, s).push(es[i].raw)
        } else {
            removed_keys(es.take(i), a, s)
        }),
{
    assert(es.take(i + 1).drop_last() =~= es.take(i));
    assert(es.take(i + 1).last() == es[i]);
}

/// The address that `rec_from` answers with when no message is complete (`0.0.0.0:8888`).
pub open spec fn no_sender() -> PeerAddr {
    PeerAddr { ip: crate::addr::Ip::V4(0), port: 8888 }
}

/// Law: once every packet of a message sent by `a` in session `sess` has
/// arrived (in any order, each once), the session is complete and reading it
/// gives back the message.
pub proof fn lemma_store_gives_back_message(
    es: Seq<RecEntryView>,
    a: PeerAddr,
    sess: u32,
    body: Seq<u8>,
    cap: nat,
)
    requires
        cap > 0,
        0 < body.len(),
        crate::tools::piece_count(body.len(), cap) <= u32::MAX,
        pacs_for(es, a, sess).to_multiset() == crate::packet::message_packets(
            sess,
            crate::tools::segments(body, cap),
        ).to_multiset(),
    ensures
        complete(pacs_for(es, a, sess)),
        bodies(sort_by_order(pacs_for(es, a, sess))) == body,
{
    crate::packets::lemma_reassembly_any_order(sess, body, cap, pacs_for(es, a, sess));
}

/// Law: reading a session removes the raw key of every one of its entries.
pub proof fn lemma_read_removes_session(es: Seq<RecEntryView>, a: PeerAddr, s: u32)
    ensures
        forall|i: int|
            0 <= i < es.len() && of_session(#[trigger] es[i], a, s) ==> removed_keys(es, a, s).contains(
                es[i].raw,
            ),
    decreases es.len(),
{
    if es.len() > 0 {
        let t = es.drop_last();
        lemma_read_removes_session(t, a, s);
        assert forall|i: int|
            0 <= i < es.len() && of_session(#[trigger] es[i], a, s) implies removed_keys(es, a, s).contains(
            es[i].raw,
        ) by {
            let r = removed_keys(es, a, s);
            if i == es.len() - 1 {
                assert(r[r.len() - 1] == es[i].raw);
            } else {
                assert(es[i] == t[i]);
                let rt = removed_keys(t, a, s);
                let k = choose|k: int| 0 <= k < rt.len() && rt[k] == es[i].raw;
                assert(r[k] == rt[k]);
            }
        }
    }
}

} // verus!
