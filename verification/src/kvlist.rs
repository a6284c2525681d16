//! Ordered maps of raw keys to values, held as lists of pairs with
//! unique keys. A page's key-value map and the in-memory blockstore are
//! both of this shape; their abstract content is the `Map` folded from
//! the list, and the operations here mirror insert, remove and lookup
//! on that map.

use crate::bytes::{bytes_eq, copy_bytes};
use vstd::prelude::*;

verus! {

/// The map folded from a list of key-value pairs; a later pair with the
/// same key would shadow an earlier one, so lists are kept unique.
pub open spec fn kvs_map(s: Seq<(Seq<u8>, Seq<u8>)>) -> Map<Seq<u8>, Seq<u8>>
    decreases s.len(),
{
    if s.len() == 0 {
        Map::empty()
    } else {
        kvs_map(s.drop_last()).insert(s.last().0, s.last().1)
    }
}

/// No two pairs share a key.
pub open spec fn keys_unique(s: Seq<(Seq<u8>, Seq<u8>)>) -> bool {
    forall|i: int, j: int| 0 <= i < j < s.len() ==> (#[trigger] s[i]).0 != (#[trigger] s[j]).0
}

/// A key is in the folded map exactly when some pair carries it.
pub proof fn lemma_kvs_map_contains(s: Seq<(Seq<u8>, Seq<u8>)>, k: Seq<u8>)
    ensures
        kvs_map(s).contains_key(k) <==> exists|i: int| 0 <= i < s.len() && (#[trigger] s[i]).0 == k,
    decreases s.len(),
{
    if s.len() == 0 {
    } else {
        lemma_kvs_map_contains(s.drop_last(), k);
        if kvs_map(s).contains_key(k) {
            if s.last().0 == k {
                assert(s[s.len() - 1].0 == k);
            } else {
                let i = choose|i: int| 0 <= i < s.drop_last().len() && (#[trigger] s.drop_last()[i]).0 == k;
                assert(s[i].0 == k);
            }
        }
        if exists|i: int| 0 <= i < s.len() && (#[trigger] s[i]).0 == k {
            let i = choose|i: int| 0 <= i < s.len() && (#[trigger] s[i]).0 == k;
            if i < s.len() - 1 {
                assert(s.drop_last()[i].0 == k);
            }
        }
    }
}

/// Under unique keys, the folded map sends each pair's key to its value.
pub proof fn lemma_kvs_map_value(s: Seq<(Seq<u8>, Seq<u8>)>, i: int)
    requires
        keys_unique(s),
        0 <= i < s.len(),
    ensures
        kvs_map(s).contains_key(s[i].0),
        kvs_map(s)[s[i].0] == s[i].1,
    decreases s.len(),
{
    if i == s.len() - 1 {
    } else {
        assert(keys_unique(s.drop_last())) by {
            assert(forall|a: int, b: int|
                0 <= a < b < s.drop_last().len() ==> (#[trigger] s.drop_last()[a]) == s[a]
                    && (#[trigger] s.drop_last()[b]) == s[b]);
        }
        assert(s.drop_last()[i] == s[i]);
        lemma_kvs_map_value(s.drop_last(), i);
        assert(s[i].0 != s.last().0);
    }
}

/// Removing the pair at `i` removes exactly its key from the folded map.
pub proof fn lemma_kvs_map_remove(s: Seq<(Seq<u8>, Seq<u8>)>, i: int)
    requires
        keys_unique(s),
        0 <= i < s.len(),
    ensures
        kvs_map(s.remove(i)) == kvs_map(s).remove(s[i].0),
    decreases s.len(),
{
    assert(keys_unique(s.drop_last())) by {
        assert(forall|a: int, b: int|
            0 <= a < b < s.drop_last().len() ==> (#[trigger] s.drop_last()[a]) == s[a]
                && (#[trigger] s.drop_last()[b]) == s[b]);
    }
    if i == s.len() - 1 {
        assert(s.remove(i) =~= s.drop_last());
        lemma_kvs_map_contains(s.drop_last(), s[i].0);
        assert(forall|j: int| 0 <= j < s.drop_last().len() ==> (#[trigger] s.drop_last()[j]).0 != s[i].0);
        assert(!kvs_map(s.drop_last()).contains_key(s[i].0));
        assert(kvs_map(s.drop_last()) =~= kvs_map(s.drop_last()).insert(s.last().0, s.last().1).remove(
            s[i].0,
        ));
    } else {
        assert(s.remove(i).drop_last() =~= s.drop_last().remove(i));
        assert(s.remove(i).last() == s.last());
        lemma_kvs_map_remove(s.drop_last(), i);
        assert(s.drop_last()[i] == s[i]);
        assert(s[i].0 != s.last().0);
        assert(kvs_map(s.remove(i)) == kvs_map(s.drop_last()).remove(s[i].0).insert(
            s.last().0,
            s.last().1,
        ));
        assert(kvs_map(s.drop_last()).remove(s[i].0).insert(s.last().0, s.last().1)
            =~= kvs_map(s.drop_last()).insert(s.last().0, s.last().1).remove(s[i].0));
    }
}

/// The index of the pair carrying `k`, if one does.
pub fn kv_find(s: &Vec<(Vec<u8>, Vec<u8>)>, k: &Vec<u8>) -> (r: Option<usize>)
    ensures
        r matches Some(i) ==> i < s@.len() && s@[i as int].0@ == k@,
        r is None ==> forall|i: int| 0 <= i < s@.len() ==> (#[trigger] s@[i]).0@ != k@,
{
    let mut i: usize = 0;
    while i < s.len()
        invariant
            i <= s@.len(),
            forall|j: int| 0 <= j < i ==> (#[trigger] s@[j]).0@ != k@,
        decreases s@.len() - i,
    {
        let hit = bytes_eq(&s[i].0, k);
        if hit {
            return Some(i);
        }
        i = i + 1;
    }
    None
}

/// The view of a pair list.
pub open spec fn kvs_view(s: Seq<(Vec<u8>, Vec<u8>)>) -> Seq<(Seq<u8>, Seq<u8>)> {
    s.map_values(|e: (Vec<u8>, Vec<u8>)| (e.0@, e.1@))
}

/// Looks `k` up in the folded map.
pub fn kv_get(s: &Vec<(Vec<u8>, Vec<u8>)>, k: &Vec<u8>) -> (r: Option<Vec<u8>>)
    requires
        keys_unique(kvs_view(s@)),
    ensures
        r matches Some(v) ==> kvs_map(kvs_view(s@)).contains_key(k@) && v@ == kvs_map(
            kvs_view(s@),
        )[k@],
        r is None ==> !kvs_map(kvs_view(s@)).contains_key(k@),
{
    proof {
        lemma_kvs_map_contains(kvs_view(s@), k@);
    }
    match kv_find(s, k) {
        Some(i) => {
            proof {
                assert(kvs_view(s@)[i as int].0 == k@);
                lemma_kvs_map_value(kvs_view(s@), i as int);
            }
            Some(copy_bytes(&s[i].1))
        }
        None => {
            proof {
                assert(forall|i: int|
                    0 <= i < kvs_view(s@).len() ==> (#[trigger] kvs_view(s@)[i]).0 != k@) by {
                    assert(forall|i: int|
                        0 <= i < s@.len() ==> (#[trigger] kvs_view(s@)[i]).0 == s@[i].0@);
                }
            }
            None
        }
    }
}

/// Inserts or replaces the pair for `k`, handing back the value it
/// replaced; the folded map gains exactly `k -> v`.
pub fn kv_put(s: &mut Vec<(Vec<u8>, Vec<u8>)>, k: Vec<u8>, v: Vec<u8>) -> (prev: Option<Vec<u8>>)
    requires
        keys_unique(kvs_view(old(s)@)),
    ensures
        keys_unique(kvs_view(final(s)@)),
        kvs_map(kvs_view(final(s)@)) == kvs_map(kvs_view(old(s)@)).insert(k@, v@),
        prev matches Some(pv) ==> kvs_map(kvs_view(old(s)@)).contains_key(k@) && pv@ == kvs_map(
            kvs_view(old(s)@),
        )[k@],
        prev is None ==> !kvs_map(kvs_view(old(s)@)).contains_key(k@),
        forall|j: int|
            0 <= j < final(s)@.len() ==> (#[trigger] kvs_view(final(s)@)[j]) == (k@, v@) || exists|j2: int|
                0 <= j2 < old(s)@.len() && (#[trigger] kvs_view(old(s)@)[j2]) == kvs_view(
                    final(s)@,
                )[j],
{
    proof {
        lemma_kvs_map_contains(kvs_view(s@), k@);
    }
    let ghost s0 = kvs_view(s@);
    match kv_find(s, &k) {
        Some(i) => {
            proof {
                lemma_kvs_map_value(s0, i as int);
                lemma_kvs_map_remove(s0, i as int);
            }
            let e = s.remove(i);
            let ghost s1 = kvs_view(s@);
            proof {
                assert(s1 =~= s0.remove(i as int));
                assert(keys_unique(s1)) by {
                    assert(forall|a: int|
                        0 <= a < s1.len() ==> (#[trigger] s1[a]) == if a < i as int {
                            s0[a]
                        } else {
                            s0[a + 1]
                        });
                }
                assert(forall|a: int| 0 <= a < s1.len() ==> (#[trigger] s1[a]).0 != k@) by {
                    assert(forall|a: int|
                        0 <= a < s1.len() ==> (#[trigger] s1[a]) == if a < i as int {
                            s0[a]
                        } else {
                            s0[a + 1]
                        });
                }
            }
            s.push((k, v));
            proof {
                let s2 = kvs_view(s@);
                assert(s2.drop_last() =~= s1);
                assert(s2.last() == (k@, v@));
                assert(kvs_map(s2) == kvs_map(s1).insert(k@, v@));
                assert(kvs_map(s1) == kvs_map(s0).remove(k@));
                assert(kvs_map(s0).remove(k@).insert(k@, v@) =~= kvs_map(s0).insert(k@, v@));
                assert(keys_unique(s2)) by {
                    assert(forall|a: int|
                        0 <= a < s2.len() - 1 ==> (#[trigger] s2[a]) == s1[a]);
                }
                assert(forall|j: int|
                    0 <= j < s2.len() ==> (#[trigger] s2[j]) == (k@, v@) || exists|j2: int|
                        0 <= j2 < s0.len() && (#[trigger] s0[j2]) == s2[j]) by {
                    assert(forall|j: int|
                        0 <= j < s2.len() - 1 ==> (#[trigger] s2[j]) == if j < i as int {
                            s0[j]
                        } else {
                            s0[j + 1]
                        });
                }
            }
            Some(e.1)
        }
        None => {
            proof {
                assert(forall|a: int| 0 <= a < s0.len() ==> (#[trigger] s0[a]).0 != k@) by {
                    assert(forall|a: int|
                        0 <= a < s0.len() ==> (#[trigger] s0[a]).0 == s@[a].0@);
                }
            }
            s.push((k, v));
            proof {
                let s2 = kvs_view(s@);
                assert(s2.drop_last() =~= s0);
                assert(s2.last() == (k@, v@));
                assert(kvs_map(s2) == kvs_map(s0).insert(k@, v@));
                assert(keys_unique(s2)) by {
                    assert(forall|a: int|
                        0 <= a < s2.len() - 1 ==> (#[trigger] s2[a]) == s0[a]);
                }
                assert(forall|j: int|
                    0 <= j < s2.len() ==> (#[trigger] s2[j]) == (k@, v@) || exists|j2: int|
                        0 <= j2 < s0.len() && (#[trigger] s0[j2]) == s2[j]) by {
                    assert(forall|j: int|
                        0 <= j < s2.len() - 1 ==> (#[trigger] s2[j]) == s0[j]);
                }
            }
            None
        }
    }
}

/// Removes the pair for `k`, handing back its value; the folded map
/// loses exactly `k`.
pub fn kv_remove(s: &mut Vec<(Vec<u8>, Vec<u8>)>, k: &Vec<u8>) -> (prev: Option<Vec<u8>>)
    requires
        keys_unique(kvs_view(old(s)@)),
    ensures
        keys_unique(kvs_view(final(s)@)),
        kvs_map(kvs_view(final(s)@)) == kvs_map(kvs_view(old(s)@)).remove(k@),
        prev matches Some(pv) ==> kvs_map(kvs_view(old(s)@)).contains_key(k@) && pv@ == kvs_map(
            kvs_view(old(s)@),
        )[k@],
        prev is None ==> !kvs_map(kvs_view(old(s)@)).contains_key(k@),
        forall|j: int|
            0 <= j < final(s)@.len() ==> exists|j2: int|
                0 <= j2 < old(s)@.len() && (#[trigger] kvs_view(old(s)@)[j2]) == (
                #[trigger] kvs_view(final(s)@)[j]),
{
    proof {
        lemma_kvs_map_contains(kvs_view(s@), k@);
    }
    let ghost s0 = kvs_view(s@);
    match kv_find(s, k) {
        Some(i) => {
            proof {
                lemma_kvs_map_value(s0, i as int);
                lemma_kvs_map_remove(s0, i as int);
            }
            let e = s.remove(i);
            proof {
                let s1 = kvs_view(s@);
                assert(s1 =~= s0.remove(i as int));
                assert(keys_unique(s1)) by {
                    assert(forall|a: int|
                        0 <= a < s1.len() ==> (#[trigger] s1[a]) == if a < i as int {
                            s0[a]
                        } else {
                            s0[a + 1]
                        });
                }
                assert(forall|j: int|
                    0 <= j < s1.len() ==> exists|j2: int|
                        0 <= j2 < s0.len() && (#[trigger] s0[j2]) == (#[trigger] s1[j])) by {
                    assert(forall|a: int|
                        0 <= a < s1.len() ==> (#[trigger] s1[a]) == if a < i as int {
                            s0[a]
                        } else {
                            s0[a + 1]
                        });
                }
            }
            Some(e.1)
        }
        None => {
            proof {
                assert(forall|a: int| 0 <= a < s0.len() ==> (#[trigger] s0[a]).0 != k@) by {
                    assert(forall|a: int|
                        0 <= a < s0.len() ==> (#[trigger] s0[a]).0 == s@[a].0@);
                }
                assert(!kvs_map(s0).contains_key(k@));
                assert(kvs_map(s0) =~= kvs_map(s0).remove(k@));
            }
            None
        }
    }
}

} // verus!
