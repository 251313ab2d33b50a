//! Sorted vectors of distinct ids, the executable form of an id set.

use vstd::prelude::*;

verus! {

/// The elements are in strictly increasing order (so also distinct).
pub open spec fn strictly_sorted(s: Seq<i32>) -> bool {
    forall|k: int, l: int| 0 <= k < l < s.len() ==> s[k] < s[l]
}

/// The set of ids a sequence holds.
pub open spec fn ids_set(s: Seq<i32>) -> Set<int> {
    Set::new(|i: int| exists|k: int| 0 <= k < s.len() && s[k] == i)
}

pub proof fn lemma_ids_set_drop_last(s: Seq<i32>)
    requires
        s.len() > 0,
    ensures
        ids_set(s) == ids_set(s.drop_last()).insert(s.last() as int),
{
    assert forall|i: int| ids_set(s).contains(i) implies ids_set(s.drop_last()).insert(
        s.last() as int,
    ).contains(i) by {
        let k = choose|k: int| 0 <= k < s.len() && s[k] == i;
        if k < s.len() - 1 {
            assert(0 <= k < s.drop_last().len() && s.drop_last()[k] == i);
        }
    }
    assert forall|i: int|
        ids_set(s.drop_last()).insert(s.last() as int).contains(i) implies ids_set(s).contains(
        i,
    ) by {
        if i == s.last() as int {
            assert(s[s.len() - 1] == i);
        } else {
            let k = choose|k: int| 0 <= k < s.drop_last().len() && s.drop_last()[k] == i;
            assert(s[k] == i);
        }
    }
    assert(ids_set(s) =~= ids_set(s.drop_last()).insert(s.last() as int));
}

/// A strictly sorted sequence has as many elements as its id set.
pub proof fn lemma_sorted_ids_set_len(s: Seq<i32>)
    requires
        strictly_sorted(s),
    ensures
        ids_set(s).finite(),
        ids_set(s).len() == s.len(),
    decreases s.len(),
{
    if s.len() == 0 {
        assert(ids_set(s) =~= Set::empty());
    } else {
        lemma_sorted_ids_set_len(s.drop_last());
        lemma_ids_set_drop_last(s);
        assert(!ids_set(s.drop_last()).contains(s.last() as int)) by {
            if ids_set(s.drop_last()).contains(s.last() as int) {
                let k = choose|k: int| 0 <= k < s.drop_last().len() && s.drop_last()[k] == s.last();
                assert(s[k] == s.last());
            }
        }
    }
}

/// Two strictly sorted sequences with the same id set are the same
/// sequence: the sorted occupied sequence in the range finder's contract is
/// therefore unique, and its result is pinned.
pub proof fn lemma_sorted_unique(s1: Seq<i32>, s2: Seq<i32>)
    requires
        strictly_sorted(s1),
        strictly_sorted(s2),
        ids_set(s1) == ids_set(s2),
    ensures
        s1 == s2,
    decreases s1.len(),
{
    if s1.len() == 0 {
        if s2.len() > 0 {
            assert(ids_set(s2).contains(s2[0] as int));
            assert(ids_set(s1).contains(s2[0] as int));
        }
        assert(s1 =~= s2);
    } else if s2.len() == 0 {
        assert(ids_set(s1).contains(s1[0] as int));
        assert(ids_set(s2).contains(s1[0] as int));
    } else {
        // The largest element of each sequence is its last, so the last
        // elements agree; peel them off and recurse.
        let m1 = s1.last();
        let m2 = s2.last();
        assert(ids_set(s1).contains(m1 as int));
        assert(ids_set(s2).contains(m2 as int));
        assert(ids_set(s2).contains(m1 as int));
        assert(ids_set(s1).contains(m2 as int));
        assert(m1 <= m2) by {
            let k = choose|k: int| 0 <= k < s2.len() && s2[k] == m1;
            assert(s2[k] <= m2);
        }
        assert(m2 <= m1) by {
            let k = choose|k: int| 0 <= k < s1.len() && s1[k] == m2;
            assert(s1[k] <= m1);
        }
        assert(ids_set(s1.drop_last()) =~= ids_set(s2.drop_last())) by {
            assert forall|i: int| ids_set(s1.drop_last()).contains(i) implies ids_set(
                s2.drop_last(),
            ).contains(i) by {
                assert(ids_set(s1).contains(i));
                assert(i < m1 as int) by {
                    let j = choose|j: int| 0 <= j < s1.drop_last().len() && s1.drop_last()[j] == i;
                    assert(s1[j] == i);
                    assert(s1[j] < m1);
                }
                assert(ids_set(s2).contains(i));
                let k = choose|k: int| 0 <= k < s2.len() && s2[k] == i;
                assert(k < s2.len() - 1);
                assert(0 <= k < s2.drop_last().len() && s2.drop_last()[k] == i);
            }
            assert forall|i: int| ids_set(s2.drop_last()).contains(i) implies ids_set(
                s1.drop_last(),
            ).contains(i) by {
                assert(ids_set(s2).contains(i));
                assert(i < m2 as int) by {
                    let j = choose|j: int| 0 <= j < s2.drop_last().len() && s2.drop_last()[j] == i;
                    assert(s2[j] == i);
                    assert(s2[j] < m2);
                }
                assert(ids_set(s1).contains(i));
                let k = choose|k: int| 0 <= k < s1.len() && s1[k] == i;
                assert(k < s1.len() - 1);
                assert(0 <= k < s1.drop_last().len() && s1.drop_last()[k] == i);
            }
        }
        lemma_sorted_unique(s1.drop_last(), s2.drop_last());
        assert(s1.len() == s2.len());
        assert forall|j: int| 0 <= j < s1.len() implies s1[j] == s2[j] by {
            if j < s1.len() - 1 {
                assert(s1.drop_last()[j] == s2.drop_last()[j]);
            }
        }
        assert(s1 =~= s2);
    }
}

/// Whether `v` holds `id`.
pub fn contains_id(v: &Vec<i32>, id: i32) -> (r: bool)
    ensures
        r == ids_set(v@).contains(id as int),
{
    let mut k: usize = 0;
    while k < v.len()
        invariant
            0 <= k <= v@.len(),
            forall|j: int| 0 <= j < k ==> v@[j] != id,
        decreases v@.len() - k,
    {
        if v[k] == id {
            return true;
        }
        k = k + 1;
    }
    false
}

/// Inserts `id` into the sorted set `v`, keeping it sorted; a duplicate
/// leaves the set unchanged.
pub fn insert_id(v: &mut Vec<i32>, id: i32)
    requires
        strictly_sorted(old(v)@),
    ensures
        strictly_sorted(final(v)@),
        ids_set(final(v)@) == ids_set(old(v)@).insert(id as int),
{
    let mut k: usize = 0;
    while k < v.len()
        invariant
            0 <= k <= v@.len(),
            strictly_sorted(v@),
            v@ == old(v)@,
            forall|j: int| 0 <= j < k ==> v@[j] < id,
        decreases v@.len() - k,
    {
        if v[k] == id {
            assert(ids_set(v@).contains(id as int));
            assert(ids_set(v@) =~= ids_set(old(v)@).insert(id as int));
            return;
        }
        if v[k] > id {
            v.insert(k, id);
            assert(forall|j: int|
                0 <= j < v@.len() && j != k ==> v@[j] == if j < k {
                    old(v)@[j]
                } else {
                    old(v)@[j - 1]
                });
            assert(strictly_sorted(v@));
            assert(ids_set(v@) =~= ids_set(old(v)@).insert(id as int)) by {
                assert forall|i: int| ids_set(old(v)@).insert(id as int).contains(i) implies ids_set(
                    v@,
                ).contains(i) by {
                    if i == id as int {
                        assert(v@[k as int] == id);
                    } else {
                        let j = choose|j: int| 0 <= j < old(v)@.len() && old(v)@[j] == i;
                        if j < k {
                            assert(v@[j] == i);
                        } else {
                            assert(v@[j + 1] == i);
                        }
                    }
                }
            }
            return;
        }
        k = k + 1;
    }
    v.push(id);
    assert(forall|j: int| 0 <= j < v@.len() - 1 ==> v@[j] == old(v)@[j]);
    assert(strictly_sorted(v@));
    assert(ids_set(v@) =~= ids_set(old(v)@).insert(id as int)) by {
        assert forall|i: int| ids_set(old(v)@).insert(id as int).contains(i) implies ids_set(
            v@,
        ).contains(i) by {
            if i == id as int {
                assert(v@[v@.len() - 1] == id);
            } else {
                let j = choose|j: int| 0 <= j < old(v)@.len() && old(v)@[j] == i;
                assert(v@[j] == i);
            }
        }
    }
}

} // verus!
