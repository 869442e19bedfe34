//! Association sequences: key-value pairs kept in order, with distinct
//! keys, and the finite map they denote. The container types of this crate
//! all store their entries this way.

use vstd::prelude::*;

verus! {

/// The map an association sequence denotes; a later entry for the same key
/// wins, though well-formed sequences never repeat a key.
pub open spec fn assoc_map_of<T>(s: Seq<(Seq<char>, T)>) -> Map<Seq<char>, T>
    decreases s.len(),
{
    if s.len() == 0 {
        Map::empty()
    } else {
        assoc_map_of(s.drop_last()).insert(s.last().0, s.last().1)
    }
}

/// No key occurs twice.
pub open spec fn distinct_keys<T>(s: Seq<(Seq<char>, T)>) -> bool {
    forall|i: int, j: int| 0 <= i < j < s.len() ==> (#[trigger] s[i]).0 != (#[trigger] s[j]).0
}

/// The index of the first entry with key `k`, or -1 when there is none.
pub open spec fn key_index<T>(s: Seq<(Seq<char>, T)>, k: Seq<char>) -> int
    decreases s.len(),
{
    if s.len() == 0 {
        -1
    } else if s[0].0 == k {
        0
    } else if key_index(s.skip(1), k) < 0 {
        -1
    } else {
        key_index(s.skip(1), k) + 1
    }
}

pub proof fn lemma_key_index<T>(s: Seq<(Seq<char>, T)>, k: Seq<char>)
    ensures
        key_index(s, k) >= 0 ==> {
            &&& key_index(s, k) < s.len()
            &&& s[key_index(s, k)].0 == k
            &&& forall|j: int| 0 <= j < key_index(s, k) ==> (#[trigger] s[j]).0 != k
        },
        key_index(s, k) < 0 ==> forall|j: int| 0 <= j < s.len() ==> (#[trigger] s[j]).0 != k,
    decreases s.len(),
{
    if s.len() == 0 {
    } else if s[0].0 == k {
    } else {
        lemma_key_index(s.skip(1), k);
        let ps = key_index(s.skip(1), k);
        if ps >= 0 {
            assert(s[ps + 1] == s.skip(1)[ps]);
            assert forall|j: int| 0 <= j < ps + 1 implies (#[trigger] s[j]).0 != k by {
                if j > 0 {
                    assert(s[j] == s.skip(1)[j - 1]);
                }
            }
        } else {
            assert forall|j: int| 0 <= j < s.len() implies (#[trigger] s[j]).0 != k by {
                if j > 0 {
                    assert(s[j] == s.skip(1)[j - 1]);
                }
            }
        }
    }
}

/// A key is in the denoted map exactly when some entry carries it.
pub proof fn lemma_assoc_contains<T>(s: Seq<(Seq<char>, T)>, k: Seq<char>)
    ensures
        assoc_map_of(s).dom().contains(k) == exists|i: int|
            0 <= i < s.len() && (#[trigger] s[i]).0 == k,
    decreases s.len(),
{
    if s.len() == 0 {
        assert(!assoc_map_of(s).dom().contains(k));
    } else {
        lemma_assoc_contains(s.drop_last(), k);
        if assoc_map_of(s).dom().contains(k) {
            if k == s.last().0 {
                assert(s[s.len() - 1].0 == k);
            } else {
                assert(assoc_map_of(s.drop_last()).dom().contains(k));
                let dl = s.drop_last();
                let i = choose|i: int| 0 <= i < dl.len() && (#[trigger] dl[i]).0 == k;
                assert(s[i].0 == k);
            }
        }
        if exists|i: int| 0 <= i < s.len() && (#[trigger] s[i]).0 == k {
            let i = choose|i: int| 0 <= i < s.len() && (#[trigger] s[i]).0 == k;
            if i == s.len() - 1 {
                assert(assoc_map_of(s).dom().contains(k));
            } else {
                assert(s.drop_last()[i].0 == k);
                assert(assoc_map_of(s.drop_last()).dom().contains(k));
            }
        }
    }
}

/// What the map holds for a present key is some entry's value for it.
pub proof fn lemma_assoc_value_from_entry<T>(s: Seq<(Seq<char>, T)>, k: Seq<char>)
    requires
        assoc_map_of(s).dom().contains(k),
    ensures
        exists|i: int|
            0 <= i < s.len() && (#[trigger] s[i]).0 == k && assoc_map_of(s)[k] == s[i].1,
    decreases s.len(),
{
    assert(s.len() > 0) by {
        if s.len() == 0 {
            assert(!assoc_map_of(s).dom().contains(k));
        }
    }
    if s.last().0 == k {
        assert(s[s.len() - 1].0 == k && assoc_map_of(s)[k] == s[s.len() - 1].1);
    } else {
        lemma_assoc_value_from_entry(s.drop_last(), k);
        let i = choose|i: int|
            0 <= i < s.drop_last().len() && (#[trigger] s.drop_last()[i]).0 == k && assoc_map_of(
                s.drop_last(),
            )[k] == s.drop_last()[i].1;
        assert(s[i].0 == k && assoc_map_of(s)[k] == s[i].1);
    }
}

/// With distinct keys, the entry at any index is what the map holds for
/// its key.
pub proof fn lemma_assoc_index<T>(s: Seq<(Seq<char>, T)>, i: int)
    requires
        distinct_keys(s),
        0 <= i < s.len(),
    ensures
        assoc_map_of(s).dom().contains(s[i].0),
        assoc_map_of(s)[s[i].0] == s[i].1,
    decreases s.len(),
{
    assert(s[i].0 == s[i].0);
    lemma_assoc_contains(s, s[i].0);
    if i == s.len() - 1 {
    } else {
        assert(distinct_keys(s.drop_last())) by {
            assert(forall|a: int, b: int|
                0 <= a < b < s.drop_last().len() ==> (#[trigger] s.drop_last()[a]).0 != (
                #[trigger] s.drop_last()[b]).0) by {
                assert(forall|a: int|
                    0 <= a < s.drop_last().len() ==> #[trigger] s.drop_last()[a] == s[a]);
            }
        }
        assert(s.drop_last()[i] == s[i]);
        lemma_assoc_index(s.drop_last(), i);
        assert(s[i].0 != s.last().0);
    }
}

/// Replacing the entry at `i` by one with the same key updates the map at
/// that key alone.
pub proof fn lemma_assoc_update<T>(s: Seq<(Seq<char>, T)>, i: int, x: (Seq<char>, T))
    requires
        distinct_keys(s),
        0 <= i < s.len(),
        x.0 == s[i].0,
    ensures
        distinct_keys(s.update(i, x)),
        assoc_map_of(s.update(i, x)) == assoc_map_of(s).insert(x.0, x.1),
    decreases s.len(),
{
    let u = s.update(i, x);
    assert(distinct_keys(u)) by {
        assert(forall|a: int| 0 <= a < s.len() ==> (#[trigger] u[a]).0 == s[a].0);
    }
    if i == s.len() - 1 {
        assert(u.drop_last() =~= s.drop_last());
        assert(u.last() == x);
        assert(assoc_map_of(u) =~= assoc_map_of(s).insert(x.0, x.1));
    } else {
        assert(distinct_keys(s.drop_last())) by {
            assert(forall|a: int|
                0 <= a < s.drop_last().len() ==> #[trigger] s.drop_last()[a] == s[a]);
        }
        assert(s.drop_last()[i] == s[i]);
        lemma_assoc_update(s.drop_last(), i, x);
        assert(u.drop_last() =~= s.drop_last().update(i, x));
        assert(u.last() == s.last());
        assert(x.0 != s.last().0);
        assert(assoc_map_of(u) =~= assoc_map_of(s).insert(x.0, x.1));
    }
}

/// Appending an entry with a fresh key inserts it into the map.
pub proof fn lemma_assoc_push<T>(s: Seq<(Seq<char>, T)>, x: (Seq<char>, T))
    requires
        distinct_keys(s),
        forall|i: int| 0 <= i < s.len() ==> (#[trigger] s[i]).0 != x.0,
    ensures
        distinct_keys(s.push(x)),
        assoc_map_of(s.push(x)) == assoc_map_of(s).insert(x.0, x.1),
{
    let u = s.push(x);
    assert(distinct_keys(u)) by {
        assert(forall|a: int| 0 <= a < s.len() ==> #[trigger] u[a] == s[a]);
        assert(u[u.len() - 1] == x);
    }
    assert(u.drop_last() =~= s);
    assert(u.last() == x);
}

/// With distinct keys, the map has exactly one entry per element.
pub proof fn lemma_assoc_len<T>(s: Seq<(Seq<char>, T)>)
    requires
        distinct_keys(s),
    ensures
        assoc_map_of(s).dom().finite(),
        assoc_map_of(s).dom().len() == s.len(),
    decreases s.len(),
{
    if s.len() == 0 {
        assert(assoc_map_of(s).dom() =~= Set::<Seq<char>>::empty());
    } else {
        assert(distinct_keys(s.drop_last())) by {
            assert(forall|a: int|
                0 <= a < s.drop_last().len() ==> #[trigger] s.drop_last()[a] == s[a]);
        }
        lemma_assoc_len(s.drop_last());
        lemma_assoc_contains(s.drop_last(), s.last().0);
        assert(!assoc_map_of(s.drop_last()).dom().contains(s.last().0)) by {
            assert(forall|a: int|
                0 <= a < s.drop_last().len() ==> (#[trigger] s.drop_last()[a]).0 == s[a].0);
            assert(forall|a: int| 0 <= a < s.len() - 1 ==> (#[trigger] s[a]).0 != s[s.len() - 1].0);
        }
    }
}

} // verus!
