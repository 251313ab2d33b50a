//! First-fit search for an available aligned gap of a requested length.
//!
//! The search walks the occupied ids — everything published in the namespace
//! plus everything reserved there, by anyone — in ascending order, and takes
//! the first aligned candidate after an occupied id that leaves room before
//! the next occupied id. First-fit, not best-fit: low ids and a predictable
//! allocation order are preferred. If no internal gap fits, the result lies
//! past the last occupied id; the sentinel `-1` reports a degenerate or
//! over-quota request, or an id space exhausted up to `i32::MAX`.

use vstd::prelude::*;
use crate::align::{alignment_for, spec_alignment};
use crate::idset::{ids_set, insert_id, strictly_sorted};
use crate::quota::{get_user_max_reservations, spec_max_reservations};
use crate::store::{row_covers, ContentIndex, ReservationStore};
use crate::types::ReservationType;

verus! {

/// The smallest multiple of `a` that is at least `x`.
pub open spec fn round_up(x: int, a: int) -> int {
    ((x + a - 1) / a) * a
}

pub proof fn lemma_round_up(x: int, a: int)
    requires
        x >= 0,
        a >= 1,
    ensures
        round_up(x, a) % a == 0,
        x <= round_up(x, a) < x + a,
{
    let q = (x + a - 1) / a;
    vstd::arithmetic::div_mod::lemma_fundamental_div_mod(x + a - 1, a);
    vstd::arithmetic::div_mod::lemma_mod_division_less_than_divisor(x + a - 1, a);
    vstd::arithmetic::div_mod::lemma_mod_multiples_basic(q, a);
}

/// The first-fit scan over the sorted occupied ids: the candidate after each
/// occupied id is taken if it leaves room before the next; with no internal
/// fit the result lies past the last occupied id, and an empty namespace
/// yields the first aligned id at or after 1. A candidate past `i32::MAX`
/// ends the scan with the sentinel.
pub open spec fn find_spec(occ: Seq<i32>, length: int, a: int) -> int
    decreases occ.len(),
{
    if occ.len() == 0 {
        a
    } else if occ.len() == 1 {
        if round_up(occ[0] + 1, a) <= i32::MAX {
            round_up(occ[0] + 1, a)
        } else {
            -1
        }
    } else {
        let c = round_up(occ[0] + 1, a);
        if c > i32::MAX {
            -1
        } else if c + length <= occ[1] {
            c
        } else {
            find_spec(occ.drop_first(), length, a)
        }
    }
}

/// What the first-fit result guarantees: it is aligned, usable, and no
/// occupied id falls inside the window it opens.
pub proof fn lemma_find_spec_props(occ: Seq<i32>, length: int, a: int)
    requires
        strictly_sorted(occ),
        forall|k: int| 0 <= k < occ.len() ==> 1 <= #[trigger] occ[k] < i32::MAX,
        length >= 1,
        a >= 1,
        a <= i32::MAX,
    ensures
        find_spec(occ, length, a) == -1 || (find_spec(occ, length, a) % a == 0 && 1 <= find_spec(
            occ,
            length,
            a,
        ) <= i32::MAX),
        find_spec(occ, length, a) != -1 ==> forall|k: int|
            0 <= k < occ.len() ==> (#[trigger] occ[k] < find_spec(occ, length, a) || occ[k]
                >= find_spec(occ, length, a) + length),
        find_spec(occ, length, a) != -1 && occ.len() > 0 ==> find_spec(occ, length, a) > occ[0],
    decreases occ.len(),
{
    let r = find_spec(occ, length, a);
    if occ.len() == 0 {
        lemma_round_up(1, a);
        assert(a % a == 0) by {
            vstd::arithmetic::div_mod::lemma_mod_multiples_basic(1, a);
        }
    } else if occ.len() == 1 {
        lemma_round_up(occ[0] + 1, a);
    } else {
        let c = round_up(occ[0] + 1, a);
        lemma_round_up(occ[0] + 1, a);
        if c > i32::MAX {
        } else if c + length <= occ[1] {
            assert forall|k: int| 0 <= k < occ.len() implies (#[trigger] occ[k] < r || occ[k] >= r
                + length) by {
                if k > 0 {
                    assert(occ[1] <= occ[k]);
                }
            }
        } else {
            let tail = occ.drop_first();
            assert(forall|k: int| 0 <= k < tail.len() ==> #[trigger] tail[k] == occ[k + 1]);
            lemma_find_spec_props(tail, length, a);
            if r != -1 {
                assert(r > tail[0]);
                assert forall|k: int| 0 <= k < occ.len() implies (#[trigger] occ[k] < r || occ[k]
                    >= r + length) by {
                    if k == 0 {
                        assert(occ[0] < occ[1]);
                    } else {
                        assert(tail[k - 1] == occ[k]);
                    }
                }
            }
        }
    }
}

/// The published ids of the namespace among the first `n` records.
spec fn published_upto(index: ContentIndex, rt: ReservationType, n: int) -> Set<int> {
    Set::new(
        |i: int|
            exists|k: int|
                0 <= k < n && (#[trigger] index.records@[k]).reservation_type == rt
                    && index.records@[k].id == i,
    )
}

/// The reserved ids of the namespace among the first `n` rows, any owner.
spec fn reserved_upto(store: ReservationStore, rt: ReservationType, n: int) -> Set<int> {
    Set::new(
        |i: int|
            exists|k: int|
                0 <= k < n && (#[trigger] store.rows@[k]).reservation_type == rt && row_covers(
                    store.rows@[k],
                    i,
                ),
    )
}

/// Everything standing in the way of a new grant in the namespace.
pub open spec fn spec_occupied(
    store: ReservationStore,
    index: ContentIndex,
    rt: ReservationType,
) -> Set<int> {
    index.published_ids(rt).union(store.reserved_ids(rt))
}

/// Finds the first-fit aligned start for a new range of `length` ids in
/// namespace `rt`, or `-1` when the request is degenerate, over the user's
/// quota, or no representable start remains.
pub fn find_reservable_range(
    rt: ReservationType,
    length: i32,
    user: i64,
    store: &ReservationStore,
    index: &ContentIndex,
) -> (r: i32)
    requires
        store.wf(),
        index.wf(),
    ensures
        (length < 1 || length as int > spec_max_reservations(*store, *index, rt, user as int))
            ==> r == -1,
        (length >= 1 && length as int <= spec_max_reservations(*store, *index, rt, user as int))
            ==> exists|occ: Seq<i32>|
            strictly_sorted(occ) && ids_set(occ) == spec_occupied(*store, *index, rt) && r as int
                == find_spec(occ, length as int, spec_alignment(length as int)),
        r != -1 ==> {
            &&& (r as int) % spec_alignment(length as int) == 0
            &&& 1 <= r
            &&& forall|i: int| r <= i < r + length ==> !spec_occupied(*store, *index, rt).contains(i)
        },
{
    if length < 1 {
        return -1;
    }
    let max = get_user_max_reservations(store, index, rt, user);
    if max < length as usize {
        return -1;
    }

    let mut occ: Vec<i32> = Vec::new();
    let mut k: usize = 0;
    while k < index.records.len()
        invariant
            index.wf(),
            0 <= k <= index.records@.len(),
            strictly_sorted(occ@),
            ids_set(occ@) == published_upto(*index, rt, k as int),
        decreases index.records@.len() - k,
    {
        let rec = index.records[k];
        if rec.reservation_type == rt {
            insert_id(&mut occ, rec.id);
            proof {
                assert(ids_set(occ@) =~= published_upto(*index, rt, k + 1));
            }
        } else {
            proof {
                assert(ids_set(occ@) =~= published_upto(*index, rt, k + 1));
            }
        }
        k = k + 1;
    }
    proof {
        assert(published_upto(*index, rt, index.records@.len() as int) =~= index.published_ids(
            rt,
        ));
    }
    let mut k: usize = 0;
    while k < store.rows.len()
        invariant
            store.wf(),
            0 <= k <= store.rows@.len(),
            strictly_sorted(occ@),
            ids_set(occ@) == index.published_ids(rt).union(reserved_upto(*store, rt, k as int)),
        decreases store.rows@.len() - k,
    {
        let row = store.rows[k];
        if row.reservation_type == rt {
            proof {
                assert(crate::store::row_wf(store.rows@[k as int]));
            }
            let mut id: i32 = row.range_start;
            let stop: i32 = row.range_start + row.length;
            while id < stop
                invariant
                    0 <= k < store.rows@.len(),
                    row == store.rows@[k as int],
                    row.reservation_type == rt,
                    row.range_start <= id <= stop,
                    stop == row.range_start + row.length,
                    strictly_sorted(occ@),
                    ids_set(occ@) == index.published_ids(rt).union(
                        reserved_upto(*store, rt, k as int),
                    ).union(Set::new(|i: int| row.range_start <= i < id)),
                decreases stop - id,
            {
                insert_id(&mut occ, id);
                proof {
                    assert(ids_set(occ@) =~= index.published_ids(rt).union(
                        reserved_upto(*store, rt, k as int),
                    ).union(Set::new(|i: int| row.range_start <= i < id + 1)));
                }
                id = id + 1;
            }
            proof {
                assert(ids_set(occ@) =~= index.published_ids(rt).union(
                    reserved_upto(*store, rt, k + 1),
                )) by {
                    assert(forall|i: int|
                        row_covers(store.rows@[k as int], i) <==> row.range_start <= i < stop);
                }
            }
        } else {
            proof {
                assert(ids_set(occ@) =~= index.published_ids(rt).union(
                    reserved_upto(*store, rt, k + 1),
                ));
            }
        }
        k = k + 1;
    }
    proof {
        assert(reserved_upto(*store, rt, store.rows@.len() as int) =~= store.reserved_ids(rt));
        assert(ids_set(occ@) =~= spec_occupied(*store, *index, rt));
        assert forall|k: int| 0 <= k < occ@.len() implies 1 <= #[trigger] occ@[k] < i32::MAX by {
            assert(ids_set(occ@).contains(occ@[k] as int));
        }
    }

    let alignment = alignment_for(length);
    let ghost len_i = length as int;
    let ghost a_i = spec_alignment(length as int);
    proof {
        assert(occ@.skip(0) =~= occ@);
    }

    if occ.len() == 0 {
        proof {
            lemma_find_spec_props(occ@, len_i, a_i);
            assert(find_spec(occ@, len_i, a_i) == a_i);
        }
        return alignment;
    }

    let mut i: usize = 0;
    while i < occ.len() - 1
        invariant
            strictly_sorted(occ@),
            forall|k: int| 0 <= k < occ@.len() ==> 1 <= #[trigger] occ@[k] < i32::MAX,
            ids_set(occ@) == spec_occupied(*store, *index, rt),
            1 <= occ@.len(),
            0 <= i < occ@.len(),
            1 <= length,
            length as int <= spec_max_reservations(*store, *index, rt, user as int),
            alignment as int == a_i,
            len_i == length as int,
            a_i == spec_alignment(len_i),
            1 <= alignment <= length,
            find_spec(occ@, len_i, a_i) == find_spec(occ@.skip(i as int), len_i, a_i),
        decreases occ@.len() - i,
    {
        let x: u64 = occ[i] as u64 + 1;
        let a64: u64 = alignment as u64;
        let q: u64 = (x + a64 - 1) / a64;
        proof {
            vstd::arithmetic::div_mod::lemma_fundamental_div_mod(
                x as int + a64 as int - 1,
                a64 as int,
            );
            vstd::arithmetic::div_mod::lemma_mod_division_less_than_divisor(
                x as int + a64 as int - 1,
                a64 as int,
            );
            assert(q as int * a64 as int == a64 as int * (q as int)) by (nonlinear_arith);
            assert(q as int * a64 as int <= x as int + a64 as int - 1);
        }
        let c: u64 = q * a64;
        proof {
            assert(c as int == round_up(occ@[i as int] + 1, a_i));
            assert(occ@.skip(i as int).len() >= 2);
            assert(occ@.skip(i as int)[0] == occ@[i as int]);
            assert(occ@.skip(i as int)[1] == occ@[i as int + 1]);
        }
        if c > i32::MAX as u64 {
            proof {
                assert(find_spec(occ@.skip(i as int), len_i, a_i) == -1);
                lemma_find_spec_props(occ@, len_i, a_i);
                assert(strictly_sorted(occ@) && ids_set(occ@) == spec_occupied(*store, *index, rt)
                    && -1int == find_spec(occ@, length as int, spec_alignment(length as int)));
            }
            return -1;
        }
        if c + length as u64 <= occ[i + 1] as u64 {
            proof {
                assert(find_spec(occ@.skip(i as int), len_i, a_i) == c as int);
                lemma_find_spec_props(occ@, len_i, a_i);
                assert(strictly_sorted(occ@) && ids_set(occ@) == spec_occupied(*store, *index, rt)
                    && c as int == find_spec(occ@, length as int, spec_alignment(length as int)));
            }
            return c as i32;
        }
        proof {
            assert(occ@.skip(i as int).drop_first() =~= occ@.skip(i as int + 1));
        }
        i = i + 1;
    }
    proof {
        assert(i == occ@.len() - 1);
        assert(occ@.skip(i as int).len() == 1);
        assert(occ@.skip(i as int)[0] == occ@[i as int]);
    }
    let x: u64 = occ[i] as u64 + 1;
    let a64: u64 = alignment as u64;
    let q: u64 = (x + a64 - 1) / a64;
    proof {
        vstd::arithmetic::div_mod::lemma_fundamental_div_mod(x as int + a64 as int - 1, a64 as int);
        vstd::arithmetic::div_mod::lemma_mod_division_less_than_divisor(
            x as int + a64 as int - 1,
            a64 as int,
        );
        assert(q as int * a64 as int == a64 as int * (q as int)) by (nonlinear_arith);
        assert(q as int * a64 as int <= x as int + a64 as int - 1);
    }
    let c: u64 = q * a64;
    proof {
        assert(c as int == round_up(occ@[i as int] + 1, a_i));
        lemma_find_spec_props(occ@, len_i, a_i);
    }
    if c > i32::MAX as u64 {
        proof {
            assert(find_spec(occ@.skip(i as int), len_i, a_i) == -1);
            assert(strictly_sorted(occ@) && ids_set(occ@) == spec_occupied(*store, *index, rt)
                && -1int == find_spec(occ@, length as int, spec_alignment(length as int)));
        }
        return -1;
    }
    proof {
        assert(find_spec(occ@.skip(i as int), len_i, a_i) == c as int);
        assert(strictly_sorted(occ@) && ids_set(occ@) == spec_occupied(*store, *index, rt)
            && c as int == find_spec(occ@, length as int, spec_alignment(length as int)));
    }
    c as i32
}

} // verus!
