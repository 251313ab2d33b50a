//! Granting a validated reservation request.
//!
//! The request is classified first; only a grant writes. A fully free range
//! becomes one new row stamped with the caller's clock. A partial grant
//! inserts rows for just the newly reserved ids — the requester's prior
//! claims are not duplicated — and then compacts the namespace, since a
//! grant changes which previously reserved ids are worth keeping, for the
//! requester and for everyone else.

use vstd::prelude::*;
use crate::compact::{compacted, optimise_reservations};
use crate::decision::ReserveRangeResult;
use crate::idset::{contains_id, ids_set};
use crate::runs::{merge_to_runs, runs_of, stamp_ids, stamps_sorted, IdStamp};
use crate::rowset::{rows_from_runs, rows_of_runs};
use crate::store::{
    range_set, row_covers, row_wf, rows_disjoint, ContentIndex, ReservationRange,
    ReservationStore,
};
use crate::types::ReservationType;
use crate::validator::{
    check_matches, check_reserve_range, spec_blocked, spec_claimed_set, spec_row_conflict,
};

verus! {

/// A granted range is occupied from then on: every id of the row a fully
/// valid grant inserts is reserved in its namespace, so a later first-fit
/// search — whose result window avoids every occupied id — never offers one
/// of these ids again.
pub proof fn lemma_grant_occupies(
    pre: ReservationStore,
    post: ReservationStore,
    user: i64,
    rt: ReservationType,
    start: i32,
    length: i32,
    now: i64,
)
    requires
        post.rows@ == pre.rows@.push(
            (ReservationRange {
                user,
                reservation_type: rt,
                range_start: start,
                length,
                time: now,
            }),
        ),
    ensures
        forall|i: int| start <= i < start + length ==> post.reserved_ids(rt).contains(i),
{
    let row = ReservationRange { user, reservation_type: rt, range_start: start, length, time: now };
    assert forall|i: int| start <= i < start + length implies post.reserved_ids(rt).contains(
        i,
    ) by {
        assert(post.rows@[post.rows@.len() - 1] == row);
        assert(row_covers(row, i));
    }
}

/// No double grant: once the row of a fully valid grant is in the store,
/// the same well-formed request is never again answered with a grant — the
/// whole range is now the requester's own claim, so there is nothing left
/// to give out (and the new holding may also have exhausted the quota).
pub proof fn lemma_no_double_grant(
    pre: ReservationStore,
    post: ReservationStore,
    index: ContentIndex,
    rt: ReservationType,
    user: i64,
    start: i32,
    length: i32,
    now: i64,
    r2: ReserveRangeResult,
)
    requires
        post.rows@ == pre.rows@.push(
            (ReservationRange {
                user,
                reservation_type: rt,
                range_start: start,
                length,
                time: now,
            }),
        ),
        1 <= start,
        1 <= length,
        start + length <= i32::MAX,
        (start as int) % crate::align::spec_alignment(length as int) == 0,
        check_matches(r2, post, index, rt, user as int, start as int, length as int),
    ensures
        !(r2 is ValidRange),
        !(r2 is PartialValidRange),
{
    let row = ReservationRange { user, reservation_type: rt, range_start: start, length, time: now };
    let claimed = spec_claimed_set(post, index, rt, user as int, start as int, length as int);
    assert(claimed =~= range_set(start as int, length as int)) by {
        assert forall|i: int|
            range_set(start as int, length as int).contains(i) implies claimed.contains(i) by {
            assert(post.rows@[post.rows@.len() - 1] == row);
            assert(row_covers(row, i));
            assert(post.held_ids(rt, user as int).contains(i));
        }
    }
    assert(claimed.contains(start as int));
}

/// Validates and, when the decision allows it, grants the range
/// `[start, start + length)` to `user` in namespace `rt`, stamping the new
/// rows with the caller's clock reading `now`. The decision is returned
/// unchanged; on any rejection the store is untouched.
#[verifier::rlimit(60)]
pub fn create_reservation(
    user: i64,
    rt: ReservationType,
    start: i32,
    length: i32,
    now: i64,
    store: &mut ReservationStore,
    index: &ContentIndex,
) -> (r: ReserveRangeResult)
    requires
        old(store).wf(),
        index.wf(),
    ensures
        final(store).wf(),
        check_matches(r, *old(store), *index, rt, user as int, start as int, length as int),
        r == ReserveRangeResult::ValidRange ==> final(store).labels@ == old(store).labels@
            && final(store).rows@ == old(store).rows@.push(
            (ReservationRange {
                user,
                reservation_type: rt,
                range_start: start,
                length,
                time: now,
            }),
        ),
        (r == ReserveRangeResult::InvalidRange || r is InvalidLength || r is InvalidAlignment)
            ==> *final(store) == *old(store),
        r is PartialValidRange ==> exists|stamps: Seq<IdStamp>, mid: ReservationStore|
            {
                &&& stamps_sorted(stamps)
                &&& stamp_ids(stamps) == range_set(start as int, length as int).difference(
                    spec_claimed_set(
                        *old(store),
                        *index,
                        rt,
                        user as int,
                        start as int,
                        length as int,
                    ),
                )
                &&& (forall|j: int| 0 <= j < stamps.len() ==> (#[trigger] stamps[j]).time == now)
                &&& mid.labels@ == old(store).labels@
                &&& mid.rows@ == old(store).rows@ + rows_of_runs(user, rt, runs_of(stamps))
                &&& mid.wf()
                &&& compacted(mid, *final(store), *index, rt)
            },
{
    let r = check_reserve_range(rt, start, length, user, store, index);
    let ghost claimed = spec_claimed_set(
        *old(store),
        *index,
        rt,
        user as int,
        start as int,
        length as int,
    );
    match &r {
        ReserveRangeResult::ValidRange => {
            proof {
                assert(1 <= start && 1 <= length && start + length <= i32::MAX);
                assert(!spec_blocked(
                    *old(store),
                    *index,
                    rt,
                    user as int,
                    start as int,
                    length as int,
                ));
                assert(claimed == Set::<int>::empty());
            }
            let row = ReservationRange {
                user,
                reservation_type: rt,
                range_start: start,
                length,
                time: now,
            };
            let ghost pre = store.rows@;
            store.rows.push(row);
            proof {
                assert(store.rows@ == pre.push(row));
                assert(forall|k: int| 0 <= k < pre.len() ==> store.rows@[k] == pre[k]);
                assert(store.rows@[pre.len() as int] == row);
                assert(row_wf(row));
                assert forall|k: int| 0 <= k < pre.len() implies rows_disjoint(
                    #[trigger] pre[k],
                    row,
                ) by {
                    if pre[k].reservation_type == rt {
                        assert forall|i2: int| !(row_covers(pre[k], i2) && row_covers(
                            row,
                            i2,
                        )) by {
                            if row_covers(pre[k], i2) && row_covers(row, i2) {
                                if pre[k].user != user {
                                    assert(crate::store::row_overlaps(
                                        pre[k],
                                        start as int,
                                        length as int,
                                    ));
                                    assert(spec_row_conflict(
                                        *old(store),
                                        rt,
                                        user as int,
                                        start as int,
                                        length as int,
                                    ));
                                } else {
                                    assert(old(store).held_ids(rt, user as int).contains(i2));
                                    assert(claimed.contains(i2));
                                }
                                assert(false);
                            }
                        }
                        crate::store::lemma_no_common_id_disjoint(pre[k], row);
                    }
                }
                assert(final(store).wf());
            }
        },
        ReserveRangeResult::PartialValidRange(partial) => {
            proof {
                assert(1 <= start && 1 <= length && start + length <= i32::MAX);
                assert(!spec_blocked(
                    *old(store),
                    *index,
                    rt,
                    user as int,
                    start as int,
                    length as int,
                ));
                assert(claimed != range_set(start as int, length as int));
                assert(crate::idset::strictly_sorted(partial@));
                assert(ids_set(partial@) == claimed);
            }
            let stop: i32 = start + length;
            let mut stamps: Vec<IdStamp> = Vec::new();
            let mut id: i32 = start;
            while id < stop
                invariant
                    1 <= start,
                    start <= id <= stop,
                    stop <= i32::MAX,
                    ids_set(partial@) == claimed,
                    stamps_sorted(stamps@),
                    crate::runs::stamps_in_bounds(stamps@),
                    forall|j: int| 0 <= j < stamps@.len() ==> (#[trigger] stamps@[j]).id < id,
                    forall|j: int| 0 <= j < stamps@.len() ==> (#[trigger] stamps@[j]).time == now,
                    stamp_ids(stamps@) == Set::new(
                        |i: int| start <= i < id && !claimed.contains(i),
                    ),
                decreases stop - id,
            {
                if !contains_id(partial, id) {
                    let ghost pre = stamps@;
                    stamps.push(IdStamp { id, time: now });
                    proof {
                        assert(stamps@ == pre.push(IdStamp { id, time: now }));
                        assert(forall|j: int| 0 <= j < pre.len() ==> stamps@[j] == pre[j]);
                        crate::runs::lemma_stamp_ids_drop_last(stamps@);
                        assert(stamps@.drop_last() =~= pre);
                        assert(stamp_ids(stamps@) =~= Set::new(
                            |i: int| start <= i < id + 1 && !claimed.contains(i),
                        ));
                    }
                } else {
                    proof {
                        assert(stamp_ids(stamps@) =~= Set::new(
                            |i: int| start <= i < id + 1 && !claimed.contains(i),
                        ));
                    }
                }
                id = id + 1;
            }
            proof {
                assert(stamp_ids(stamps@) =~= range_set(start as int, length as int).difference(
                    claimed,
                ));
                crate::runs::lemma_runs_of_props(stamps@);
            }
            let ghost stampsv = stamps@;
            let runs = merge_to_runs(&stamps);
            let mut fresh = rows_from_runs(user, rt, &runs);
            let ghost freshv = fresh@;
            let ghost pre = store.rows@;
            store.rows.append(&mut fresh);
            proof {
                assert(store.rows@ == pre + freshv);
                assert(forall|k: int| 0 <= k < pre.len() ==> store.rows@[k] == pre[k]);
                assert(forall|k: int|
                    pre.len() <= k < store.rows@.len() ==> store.rows@[k] == freshv[k
                        - pre.len()]);
                assert(forall|k: int|
                    0 <= k < freshv.len() ==> freshv[k] == crate::rowset::row_of_run(
                        user,
                        rt,
                        runs@[k],
                    ));
                assert forall|k: int, l: int| 0 <= k < l < store.rows@.len() implies rows_disjoint(
                    #[trigger] store.rows@[k],
                    #[trigger] store.rows@[l],
                ) by {
                    if l < pre.len() {
                    } else if k >= pre.len() {
                        assert(crate::runs::runs_separated(runs@));
                        assert(runs@[k - pre.len()].start + runs@[k - pre.len()].length < runs@[l
                            - pre.len()].start);
                    } else {
                        let a = pre[k];
                        let b = freshv[l - pre.len()];
                        assert(crate::runs::run_wf(runs@[l - pre.len()]));
                        assert(row_wf(b));
                        if a.reservation_type == rt {
                            assert forall|i2: int| !(row_covers(a, i2) && row_covers(b, i2)) by {
                                if row_covers(a, i2) && row_covers(b, i2) {
                                    assert(crate::runs::run_covers(runs@[l - pre.len()], i2));
                                    assert(crate::runs::runs_ids(runs@).contains(i2));
                                    assert(stamp_ids(stampsv).contains(i2));
                                    assert(start <= i2 < start + length && !claimed.contains(i2));
                                    if a.user != user {
                                        assert(crate::store::row_overlaps(
                                            a,
                                            start as int,
                                            length as int,
                                        ));
                                        assert(spec_row_conflict(
                                            *old(store),
                                            rt,
                                            user as int,
                                            start as int,
                                            length as int,
                                        ));
                                    } else {
                                        assert(old(store).held_ids(rt, user as int).contains(i2));
                                        assert(claimed.contains(i2));
                                    }
                                    assert(false);
                                }
                            }
                            crate::store::lemma_no_common_id_disjoint(a, b);
                        }
                    }
                }
                assert(store.wf());
            }
            let ghost mid = *store;
            optimise_reservations(rt, store, index);
            proof {
                assert(mid.rows@ == old(store).rows@ + rows_of_runs(user, rt, runs_of(stampsv)));
                assert({
                    &&& stamps_sorted(stampsv)
                    &&& stamp_ids(stampsv) == range_set(start as int, length as int).difference(
                        claimed,
                    )
                    &&& (forall|j: int|
                        0 <= j < stampsv.len() ==> (#[trigger] stampsv[j]).time == now)
                    &&& mid.labels@ == old(store).labels@
                    &&& mid.wf()
                    &&& compacted(mid, *final(store), *index, rt)
                });
            }
        },
        _ => {
        },
    }
    r
}

} // verus!
