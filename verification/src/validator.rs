//! The conflict-resolution decision procedure for a requested range.
//!
//! A request is rejected outright when it is degenerate, over quota, or
//! misaligned. Otherwise any id in the range that is published under someone
//! else's post (or under no attributable post), or reserved by someone else,
//! rejects the whole request: the grant is all-or-nothing with respect to
//! third parties. Only the requester's own prior claims may be re-granted,
//! as a partial result listing exactly those ids.

use vstd::prelude::*;
use crate::align::{alignment_for, spec_alignment};
use crate::decision::ReserveRangeResult;
use crate::idset::{ids_set, insert_id, lemma_sorted_ids_set_len, strictly_sorted};
use crate::quota::{get_user_max_reservations, spec_max_reservations};
use crate::store::{
    range_set, row_covers, row_overlaps, ContentIndex, ReservationStore, UNCLAIMED,
};
use crate::types::ReservationType;

verus! {

/// Some row of the namespace belonging to another user overlaps the request.
pub open spec fn spec_row_conflict(
    store: ReservationStore,
    rt: ReservationType,
    user: int,
    start: int,
    length: int,
) -> bool {
    exists|k: int|
        0 <= k < store.rows@.len() && (#[trigger] store.rows@[k]).reservation_type == rt
            && store.rows@[k].user != user && row_overlaps(store.rows@[k], start, length)
}

/// The request touches a third party: a published id inside the range that
/// the user cannot claim, or another user's reservation row.
pub open spec fn spec_blocked(
    store: ReservationStore,
    index: ContentIndex,
    rt: ReservationType,
    user: int,
    start: int,
    length: int,
) -> bool {
    (exists|i: int| start <= i < start + length && index.blocks(rt, user, i)) || spec_row_conflict(
        store,
        rt,
        user,
        start,
        length,
    )
}

/// The ids inside the range the user already has a legitimate claim to,
/// through an authored publication or a prior reservation of their own.
pub open spec fn spec_claimed_set(
    store: ReservationStore,
    index: ContentIndex,
    rt: ReservationType,
    user: int,
    start: int,
    length: int,
) -> Set<int> {
    range_set(start, length).intersect(
        index.uploads(rt, user).union(store.held_ids(rt, user)),
    )
}

/// What the decision for a request must be. This relation pins the result
/// for every input: each rejection comes exactly on its stated condition,
/// in the stated order, and a partial grant lists exactly the claimed ids,
/// in ascending order.
pub open spec fn check_matches(
    r: ReserveRangeResult,
    store: ReservationStore,
    index: ContentIndex,
    rt: ReservationType,
    user: int,
    start: int,
    length: int,
) -> bool {
    if start < 1 || length < 1 || start + length > i32::MAX {
        r == ReserveRangeResult::InvalidRange
    } else if length > spec_max_reservations(store, index, rt, user) {
        r matches ReserveRangeResult::InvalidLength(m) && m as int == spec_max_reservations(
            store,
            index,
            rt,
            user,
        )
    } else if start % spec_alignment(length) != 0 {
        r matches ReserveRangeResult::InvalidAlignment(a) && a as int == spec_alignment(length)
    } else if spec_blocked(store, index, rt, user, start, length) {
        r == ReserveRangeResult::InvalidRange
    } else if spec_claimed_set(store, index, rt, user, start, length) == range_set(start, length) {
        r == ReserveRangeResult::InvalidRange
    } else if spec_claimed_set(store, index, rt, user, start, length) != Set::<int>::empty() {
        r matches ReserveRangeResult::PartialValidRange(v) && strictly_sorted(v@) && ids_set(v@)
            == spec_claimed_set(store, index, rt, user, start, length)
    } else {
        r == ReserveRangeResult::ValidRange
    }
}

/// Ownership exclusivity: if any id inside the requested range is published
/// under a post whose known authors do not include the user — or under no
/// attributable post at all — the request is never granted, whatever the
/// status of the other ids; once it passes the degeneracy, quota and
/// alignment screens, the decision is exactly `InvalidRange`.
pub proof fn lemma_ownership_exclusivity(
    r: ReserveRangeResult,
    store: ReservationStore,
    index: ContentIndex,
    rt: ReservationType,
    user: int,
    start: int,
    length: int,
    i: int,
)
    requires
        check_matches(r, store, index, rt, user, start, length),
        start <= i < start + length,
        index.blocks(rt, user, i),
    ensures
        !(r is ValidRange),
        !(r is PartialValidRange),
        (1 <= start && 1 <= length && start + length <= i32::MAX && length
            <= spec_max_reservations(store, index, rt, user) && start % spec_alignment(length)
            == 0) ==> r == ReserveRangeResult::InvalidRange,
{
    assert(spec_blocked(store, index, rt, user, start, length));
}

/// The published ids inside the range claimed by the user among the first
/// `n` index records.
spec fn pub_claimed_upto(
    index: ContentIndex,
    rt: ReservationType,
    user: int,
    start: int,
    length: int,
    n: int,
) -> Set<int> {
    Set::new(
        |i: int|
            start <= i < start + length && exists|k: int|
                0 <= k < n && (#[trigger] index.records@[k]).reservation_type == rt
                    && index.records@[k].id == i && index.owns(user, index.records@[k].post as int),
    )
}

/// The user's own reserved ids inside the range among the first `n` rows.
spec fn row_claimed_upto(
    store: ReservationStore,
    rt: ReservationType,
    user: int,
    start: int,
    length: int,
    n: int,
) -> Set<int> {
    Set::new(
        |i: int|
            start <= i < start + length && exists|k: int|
                0 <= k < n && (#[trigger] store.rows@[k]).reservation_type == rt
                    && store.rows@[k].user == user && row_covers(store.rows@[k], i),
    )
}

/// Classifies the requested range `[start, start + length)` for `user` in
/// namespace `rt`, against snapshots of the reservation store and of the
/// published-content index.
pub fn check_reserve_range(
    rt: ReservationType,
    start: i32,
    length: i32,
    user: i64,
    store: &ReservationStore,
    index: &ContentIndex,
) -> (r: ReserveRangeResult)
    requires
        store.wf(),
        index.wf(),
    ensures
        check_matches(r, *store, *index, rt, user as int, start as int, length as int),
{
    if start < 1 || length < 1 || start > i32::MAX - length {
        return ReserveRangeResult::InvalidRange;
    }
    let max = get_user_max_reservations(store, index, rt, user);
    if max < length as usize {
        return ReserveRangeResult::InvalidLength(max);
    }
    let alignment = alignment_for(length);
    if start % alignment != 0 {
        return ReserveRangeResult::InvalidAlignment(alignment);
    }
    let stop: i32 = start + length;

    let mut partial: Vec<i32> = Vec::new();
    let mut k: usize = 0;
    while k < index.records.len()
        invariant
            index.wf(),
            store.wf(),
            0 <= k <= index.records@.len(),
            1 <= start,
            1 <= length,
            stop == start + length,
            stop <= i32::MAX,
            length as int <= spec_max_reservations(*store, *index, rt, user as int),
            (start as int) % spec_alignment(length as int) == 0,
            strictly_sorted(partial@),
            ids_set(partial@) == pub_claimed_upto(
                *index,
                rt,
                user as int,
                start as int,
                length as int,
                k as int,
            ),
            forall|j: int|
                0 <= j < k ==> !((#[trigger] index.records@[j]).reservation_type == rt && start
                    <= index.records@[j].id < stop && (index.records@[j].post == UNCLAIMED
                    || !index.owns(user as int, index.records@[j].post as int))),
        decreases index.records@.len() - k,
    {
        let rec = index.records[k];
        if rec.reservation_type == rt && rec.id >= start && rec.id < stop {
            if rec.post == UNCLAIMED {
                proof {
                    assert(index.blocks(rt, user as int, rec.id as int));
                }
                return ReserveRangeResult::InvalidRange;
            }
            if crate::store::post_owned_by(index, user, rec.post) {
                insert_id(&mut partial, rec.id);
                proof {
                    assert(ids_set(partial@) =~= pub_claimed_upto(
                        *index,
                        rt,
                        user as int,
                        start as int,
                        length as int,
                        k + 1,
                    ));
                }
            } else {
                proof {
                    assert(index.blocks(rt, user as int, rec.id as int));
                }
                return ReserveRangeResult::InvalidRange;
            }
        } else {
            proof {
                assert(ids_set(partial@) =~= pub_claimed_upto(
                    *index,
                    rt,
                    user as int,
                    start as int,
                    length as int,
                    k + 1,
                ));
            }
        }
        k = k + 1;
    }
    let ghost pub_claimed = pub_claimed_upto(
        *index,
        rt,
        user as int,
        start as int,
        length as int,
        index.records@.len() as int,
    );
    proof {
        // No record in the range blocks the user.
        assert(!(exists|i: int|
            start <= i < start + length && index.blocks(rt, user as int, i)));
    }

    let mut k: usize = 0;
    while k < store.rows.len()
        invariant
            store.wf(),
            index.wf(),
            0 <= k <= store.rows@.len(),
            1 <= start,
            1 <= length,
            stop == start + length,
            stop <= i32::MAX,
            length as int <= spec_max_reservations(*store, *index, rt, user as int),
            (start as int) % spec_alignment(length as int) == 0,
            strictly_sorted(partial@),
            ids_set(partial@) == pub_claimed.union(
                row_claimed_upto(*store, rt, user as int, start as int, length as int, k as int),
            ),
            forall|j: int|
                0 <= j < k ==> !((#[trigger] store.rows@[j]).reservation_type == rt
                    && store.rows@[j].user != user && row_overlaps(
                    store.rows@[j],
                    start as int,
                    length as int,
                )),
        decreases store.rows@.len() - k,
    {
        let row = store.rows[k];
        proof {
            assert(crate::store::row_wf(store.rows@[k as int]));
        }
        if row.reservation_type == rt && row.range_start < stop && start < row.range_start
            + row.length {
            if row.user != user {
                return ReserveRangeResult::InvalidRange;
            }
            let lo: i32 = if row.range_start > start {
                row.range_start
            } else {
                start
            };
            let row_end: i32 = row.range_start + row.length;
            let hi: i32 = if row_end < stop {
                row_end
            } else {
                stop
            };
            let mut id: i32 = lo;
            while id < hi
                invariant
                    0 <= k < store.rows@.len(),
                    row == store.rows@[k as int],
                    row.reservation_type == rt,
                    row.user == user,
                    lo <= id <= hi,
                    start <= lo,
                    hi <= stop,
                    stop == start + length,
                    lo == if row.range_start > start {
                        row.range_start as int
                    } else {
                        start as int
                    },
                    hi == if row.range_start + row.length < stop {
                        row.range_start + row.length
                    } else {
                        stop as int
                    },
                    strictly_sorted(partial@),
                    ids_set(partial@) == pub_claimed.union(
                        row_claimed_upto(
                            *store,
                            rt,
                            user as int,
                            start as int,
                            length as int,
                            k as int,
                        ),
                    ).union(Set::new(|i: int| lo <= i < id)),
                decreases hi - id,
            {
                insert_id(&mut partial, id);
                proof {
                    assert(ids_set(partial@) =~= pub_claimed.union(
                        row_claimed_upto(
                            *store,
                            rt,
                            user as int,
                            start as int,
                            length as int,
                            k as int,
                        ),
                    ).union(Set::new(|i: int| lo <= i < id + 1)));
                }
                id = id + 1;
            }
            proof {
                assert(ids_set(partial@) =~= pub_claimed.union(
                    row_claimed_upto(
                        *store,
                        rt,
                        user as int,
                        start as int,
                        length as int,
                        k + 1,
                    ),
                )) by {
                    assert(forall|i: int|
                        (start <= i < start + length && row_covers(store.rows@[k as int], i)) <==> (
                        lo <= i < hi));
                }
            }
        } else {
            proof {
                assert(ids_set(partial@) =~= pub_claimed.union(
                    row_claimed_upto(
                        *store,
                        rt,
                        user as int,
                        start as int,
                        length as int,
                        k + 1,
                    ),
                ));
            }
        }
        k = k + 1;
    }
    let ghost claimed = spec_claimed_set(
        *store,
        *index,
        rt,
        user as int,
        start as int,
        length as int,
    );
    proof {
        assert(!spec_row_conflict(*store, rt, user as int, start as int, length as int));
        assert(!spec_blocked(*store, *index, rt, user as int, start as int, length as int));
        assert(ids_set(partial@) =~= claimed);
        lemma_sorted_ids_set_len(partial@);
        vstd::set_lib::lemma_int_range(start as int, start as int + length as int);
        assert(range_set(start as int, length as int) =~= vstd::set_lib::set_int_range(
            start as int,
            start as int + length as int,
        ));
        vstd::set_lib::lemma_len_subset(claimed, range_set(start as int, length as int));
    }
    if partial.len() == length as usize {
        proof {
            vstd::set_lib::lemma_subset_equality(
                claimed,
                range_set(start as int, length as int),
            );
        }
        return ReserveRangeResult::InvalidRange;
    }
    proof {
        if claimed == range_set(start as int, length as int) {
            assert(partial@.len() == length as int);
        }
    }
    if partial.len() > 0 {
        proof {
            assert(ids_set(partial@).contains(partial@[0] as int));
            assert(claimed != Set::<int>::empty());
        }
        return ReserveRangeResult::PartialValidRange(partial);
    }
    proof {
        assert(claimed =~= Set::<int>::empty()) by {
            if claimed != Set::<int>::empty() {
                assert(exists|i: int| claimed.contains(i)) by {
                    assert(!claimed.is_empty());
                }
            }
        }
    }
    ReserveRangeResult::ValidRange
}

} // verus!
