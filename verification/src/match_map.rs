//! The waiting room of the match-making server: clients wait under the
//! identifier they sent until another client, from another IP address, names
//! the same identifier.
use vstd::prelude::*;
use crate::addr::PeerAddr;
use crate::assoc::{assoc, keys_distinct, lemma_assoc, lemma_assoc_dom, lemma_assoc_push, lemma_assoc_remove};

verus! {

/// The entries as plain values.
pub open spec fn entry_views(s: Seq<(Vec<u8>, PeerAddr)>) -> Seq<(Seq<u8>, PeerAddr)> {
    s.map_values(|e: (Vec<u8>, PeerAddr)| (e.0@, e.1))
}

/// The waiting clients that stay when `sender` arrives: those from another IP address.
pub open spec fn kept(m: Map<Seq<u8>, PeerAddr>, sender: PeerAddr) -> Map<Seq<u8>, PeerAddr> {
    Map::new(|k: Seq<u8>| m.dom().contains(k) && m[k].ip != sender.ip, |k: Seq<u8>| m[k])
}

/// Whether two byte strings are equal.
pub fn bytes_eq(a: &Vec<u8>, b: &Vec<u8>) -> (r: bool)
    ensures
        r == (a@ == b@),
{
    if a.len() != b.len() {
        return false;
    }
    let mut i: usize = 0;
    while i < a.len()
        invariant
            a@.len() == b@.len(),
            i <= a@.len(),
            forall|j: int| 0 <= j < i ==> a@[j] == b@[j],
        decreases a@.len() - i,
    {
        if a[i] != b[i] {
            return false;
        }
        i = i + 1;
    }
    assert(a@ =~= b@);
    true
}

/// The clients waiting for their match, each under the identifier it sent.
pub struct MatchMap {
    entries: Vec<(Vec<u8>, PeerAddr)>,
}

impl View for MatchMap {
    type V = Map<Seq<u8>, PeerAddr>;

    closed spec fn view(&self) -> Map<Seq<u8>, PeerAddr> {
        assoc(entry_views(self.entries@))
    }
}

impl MatchMap {
    /// No identifier is waited under twice.
    pub closed spec fn wf(&self) -> bool {
        keys_distinct(entry_views(self.entries@))
    }

    /// An empty waiting room.
    pub fn new() -> (m: MatchMap)
        ensures
            m.wf(),
            m@ == Map::<Seq<u8>, PeerAddr>::empty(),
    {
        MatchMap { entries: Vec::new() }
    }

    /// A client at `sender` names `ident`. First every waiting client from the
    /// IP address of `sender` leaves; then, if a client waits under `ident`, it
    /// leaves and is returned (the two are to be matched); otherwise `sender`
    /// waits under `ident`.
    pub fn step(&mut self, ident: &Vec<u8>, sender: PeerAddr) -> (r: Option<PeerAddr>)
        requires
            old(self).wf(),
        ensures
            final(self).wf(),
            kept(old(self)@, sender).dom().contains(ident@) ==> r == Some(
                kept(old(self)@, sender)[ident@],
            ) && final(self)@ == kept(old(self)@, sender).remove(ident@),
            !kept(old(self)@, sender).dom().contains(ident@) ==> r is None && final(self)@
                == kept(old(self)@, sender).insert(ident@, sender),
    {
        let ghost s = entry_views(self.entries@);
        let ghost m = old(self)@;
        let mut kv: Vec<(Vec<u8>, PeerAddr)> = Vec::new();
        let n = self.entries.len();
        let mut i: usize = 0;
        proof {
            lemma_assoc_dom(s);
        }
        assert(s.take(0) =~= seq![]);
        assert(kept(assoc(s.take(0)), sender) =~= Map::empty());
        while i < n
            invariant
                s == entry_views(self.entries@),
                keys_distinct(s),
                n == s.len(),
                i <= n,
                keys_distinct(entry_views(kv@)),
                assoc(entry_views(kv@)) == kept(assoc(s.take(i as int)), sender),
            decreases n - i,
        {
            let e = &self.entries[i];
            if e.1.ip != sender.ip {
                let ghost kb = entry_views(kv@);
                proof {
                    lemma_assoc_dom(s.take(i as int));
                    lemma_assoc_dom(kb);
                    if exists|j: int| 0 <= j < kb.len() && #[trigger] kb[j].0 == s[i as int].0 {
                        assert(assoc(kb).dom().contains(s[i as int].0));
                        let l = choose|l: int|
                            0 <= l < s.take(i as int).len() && #[trigger] s.take(i as int)[l].0
                                == s[i as int].0;
                        assert(s[l].0 == s[i as int].0);
                    }
                }
                kv.push((e.0.clone(), e.1));
                proof {
                    assert(entry_views(kv@) =~= kb.push((s[i as int].0, s[i as int].1)));
                    assert(s.take(i + 1) =~= s.take(i as int).push(s[i as int]));
                    lemma_assoc_push(kb, (s[i as int].0, s[i as int].1));
                    lemma_assoc_push(s.take(i as int), s[i as int]);
                    assert(kept(assoc(s.take(i + 1)), sender) =~= kept(
                        assoc(s.take(i as int)),
                        sender,
                    ).insert(s[i as int].0, s[i as int].1));
                }
            } else {
                proof {
                    assert(s.take(i + 1) =~= s.take(i as int).push(s[i as int]));
                    lemma_assoc_push(s.take(i as int), s[i as int]);
                    lemma_assoc_dom(s.take(i as int));
                    if assoc(s.take(i as int)).dom().contains(s[i as int].0) {
                        let l = choose|l: int|
                            0 <= l < s.take(i as int).len() && #[trigger] s.take(i as int)[l].0
                                == s[i as int].0;
                        assert(s[l].0 == s[i as int].0);
                    }
                    assert(kept(assoc(s.take(i + 1)), sender) =~= kept(
                        assoc(s.take(i as int)),
                        sender,
                    ));
                }
            }
            i = i + 1;
        }
        assert(s.take(n as int) =~= s);
        let ghost k = kept(m, sender);
        let ghost kb = entry_views(kv@);
        let mut p: usize = 0;
        let mut found = false;
        while !found && p < kv.len()
            invariant
                kb == entry_views(kv@),
                p <= kv@.len(),
                found ==> p < kv@.len() && kb[p as int].0 == ident@,
                forall|j: int| 0 <= j < p ==> #[trigger] kb[j].0 != ident@,
            decreases kv@.len() - p, if found { 0int } else { 1int },
        {
            if bytes_eq(&kv[p].0, ident) {
                found = true;
            } else {
                p = p + 1;
            }
        }
        proof {
            lemma_assoc_dom(kb);
        }
        if found {
            let (_, other) = kv.remove(p);
            proof {
                lemma_assoc(kb);
                lemma_assoc_remove(kb, p as int);
                assert(entry_views(kv@) =~= kb.remove(p as int));
            }
            self.entries = kv;
            Some(other)
        } else {
            kv.push((ident.clone(), sender));
            proof {
                assert(entry_views(kv@) =~= kb.push((ident@, sender)));
                lemma_assoc_push(kb, (ident@, sender));
                assert(!k.dom().contains(ident@));
            }
            self.entries = kv;
            None
        }
    }
}

/// Law: a client that waits under an identifier (from an address other than
/// the next one) is matched with the next client that names that identifier
/// from another IP address.
pub proof fn lemma_waiting_client_is_matched(
    m: Map<Seq<u8>, PeerAddr>,
    ident: Seq<u8>,
    a: PeerAddr,
    b: PeerAddr,
)
    requires
        !kept(m, a).dom().contains(ident),
        a.ip != b.ip,
    ensures
        kept(kept(m, a).insert(ident, a), b).dom().contains(ident),
        kept(kept(m, a).insert(ident, a), b)[ident] == a,
{
}

/// Law: no client is ever matched with a client from its own IP address.
pub proof fn lemma_no_match_with_own_ip(m: Map<Seq<u8>, PeerAddr>, sender: PeerAddr, k: Seq<u8>)
    requires
        kept(m, sender).dom().contains(k),
    ensures
        kept(m, sender)[k].ip != sender.ip,
{
}

} // verus!
