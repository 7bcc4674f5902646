//! Association lists: a sequence of (key, value) pairs standing for a map.
use vstd::prelude::*;

verus! {

/// The map a list of pairs stands for (a later pair wins).
pub open spec fn assoc<K, V>(s: Seq<(K, V)>) -> Map<K, V>
    decreases s.len(),
{
    if s.len() == 0 {
        Map::empty()
    } else {
        assoc(s.drop_last()).insert(s.last().0, s.last().1)
    }
}

/// No key occurs twice.
pub open spec fn keys_distinct<K, V>(s: Seq<(K, V)>) -> bool {
    forall|i: int, j: int| 0 <= i < j < s.len() ==> s[i].0 != s[j].0
}

/// The keys of the map are those of the pairs.
pub proof fn lemma_assoc_dom<K, V>(s: Seq<(K, V)>)
    ensures
        forall|k: K| #[trigger] assoc(s).dom().contains(k) <==> exists|i: int| 0 <= i < s.len() && s[i].0 == k,
    decreases s.len(),
{
    if s.len() > 0 {
        let t = s.drop_last();
        lemma_assoc_dom(t);
        assert forall|k: K| #[trigger] assoc(s).dom().contains(k) implies exists|i: int| 0 <= i < s.len() && s[i].0 == k by {
            if k != s.last().0 {
                assert(assoc(t).dom().contains(k));
                let i = choose|i: int| 0 <= i < t.len() && t[i].0 == k;
                assert(s[i] == t[i]);
            } else {
                assert(s[s.len() - 1].0 == k);
            }
        }
        assert forall|k: K| (exists|i: int| 0 <= i < s.len() && s[i].0 == k) implies #[trigger] assoc(s).dom().contains(k) by {
            let i = choose|i: int| 0 <= i < s.len() && s[i].0 == k;
            if i < s.len() - 1 {
                assert(t[i] == s[i]);
                assert(assoc(t).dom().contains(k));
            }
        }
    }
}

/// With distinct keys, each pair's value is the map's value at its key.
pub proof fn lemma_assoc_at<K, V>(s: Seq<(K, V)>)
    requires
        keys_distinct(s),
    ensures
        forall|i: int| 0 <= i < s.len() ==> #[trigger] assoc(s)[s[i].0] == s[i].1,
    decreases s.len(),
{
    if s.len() > 0 {
        let t = s.drop_last();
        assert(keys_distinct(t));
        lemma_assoc_at(t);
        assert forall|i: int| 0 <= i < s.len() implies #[trigger] assoc(s)[s[i].0] == s[i].1 by {
            if i < s.len() - 1 {
                assert(t[i] == s[i]);
                assert(s[i].0 != s.last().0);
                assert(assoc(t)[t[i].0] == t[i].1);
            }
        }
    }
}

/// Both of the above.
pub proof fn lemma_assoc<K, V>(s: Seq<(K, V)>)
    requires
        keys_distinct(s),
    ensures
        forall|k: K| #[trigger] assoc(s).dom().contains(k) <==> exists|i: int| 0 <= i < s.len() && s[i].0 == k,
        forall|i: int| 0 <= i < s.len() ==> #[trigger] assoc(s)[s[i].0] == s[i].1,
{
    lemma_assoc_dom(s);
    lemma_assoc_at(s);
}

/// Adding a pair at the end sets its key.
pub proof fn lemma_assoc_push<K, V>(s: Seq<(K, V)>, e: (K, V))
    ensures
        assoc(s.push(e)) == assoc(s).insert(e.0, e.1),
{
    assert(s.push(e).drop_last() =~= s);
}

/// With distinct keys, dropping a pair drops its key from the map.
pub proof fn lemma_assoc_remove<K, V>(s: Seq<(K, V)>, p: int)
    requires
        keys_distinct(s),
        0 <= p < s.len(),
    ensures
        keys_distinct(s.remove(p)),
        assoc(s.remove(p)) == assoc(s).remove(s[p].0),
{
    let r = s.remove(p);
    assert forall|i: int, j: int| 0 <= i < j < r.len() implies r[i].0 != r[j].0 by {
        let si = if i < p { i } else { i + 1 };
        let sj = if j < p { j } else { j + 1 };
        assert(r[i] == s[si]);
        assert(r[j] == s[sj]);
    }
    lemma_assoc(s);
    lemma_assoc(r);
    assert forall|k: K| #[trigger] assoc(r).dom().contains(k) <==> assoc(s).remove(s[p].0).dom().contains(k) by {
        if assoc(r).dom().contains(k) {
            let i = choose|i: int| 0 <= i < r.len() && r[i].0 == k;
            let si = if i < p { i } else { i + 1 };
            assert(r[i] == s[si]);
        }
        if assoc(s).remove(s[p].0).dom().contains(k) {
            let i = choose|i: int| 0 <= i < s.len() && s[i].0 == k;
            assert(i != p);
            let ri = if i < p { i } else { i - 1 };
            assert(r[ri] == s[i]);
        }
    }
    assert forall|k: K| #[trigger] assoc(r).dom().contains(k) implies assoc(r)[k] == assoc(s)[k] by {
        let i = choose|i: int| 0 <= i < r.len() && r[i].0 == k;
        let si = if i < p { i } else { i + 1 };
        assert(r[i] == s[si]);
        assert(assoc(r)[r[i].0] == r[i].1);
        assert(assoc(s)[s[si].0] == s[si].1);
    }
    assert(assoc(r) =~= assoc(s).remove(s[p].0));
}

} // verus!
