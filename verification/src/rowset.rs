//! Bridging reservation rows and stamped id sequences.
//!
//! The mutating operations load the affected rows into a sorted sequence of
//! (id, timestamp) stamps, drop the released or published ids, merge what
//! remains back into canonical runs, and turn those runs into fresh rows.

use vstd::prelude::*;
use crate::runs::{stamp_ids, stamps_in_bounds, stamps_sorted, IdStamp, Run};
use crate::store::{row_covers, row_overlaps, row_wf, ReservationRange, ReservationStore};
use crate::types::ReservationType;

verus! {

/// The row a run becomes for a given owner and namespace.
pub open spec fn row_of_run(user: i64, rt: ReservationType, run: Run) -> ReservationRange {
    ReservationRange {
        user,
        reservation_type: rt,
        range_start: run.start,
        length: run.length,
        time: run.time,
    }
}

/// The rows a run sequence becomes.
pub open spec fn rows_of_runs(user: i64, rt: ReservationType, runs: Seq<Run>) -> Seq<
    ReservationRange,
> {
    runs.map_values(|run: Run| row_of_run(user, rt, run))
}

/// Inserts a stamp into a sorted stamp sequence whose ids do not include it.
pub fn insert_stamp(v: &mut Vec<IdStamp>, id: i32, time: i64)
    requires
        stamps_sorted(old(v)@),
        !stamp_ids(old(v)@).contains(id as int),
    ensures
        stamps_sorted(final(v)@),
        stamp_ids(final(v)@) == stamp_ids(old(v)@).insert(id as int),
        forall|j: int|
            0 <= j < final(v)@.len() ==> (old(v)@.contains(#[trigger] final(v)@[j])
                || final(v)@[j] == (IdStamp { id, time })),
        forall|j: int| 0 <= j < old(v)@.len() ==> final(v)@.contains(#[trigger] old(v)@[j]),
{
    let mut k: usize = 0;
    while k < v.len()
        invariant
            0 <= k <= v@.len(),
            stamps_sorted(v@),
            v@ == old(v)@,
            !stamp_ids(old(v)@).contains(id as int),
            forall|j: int| 0 <= j < k ==> v@[j].id < id,
        decreases v@.len() - k,
    {
        if v[k].id >= id {
            proof {
                if v@[k as int].id == id {
                    assert(stamp_ids(v@).contains(id as int));
                }
            }
            v.insert(k, IdStamp { id, time });
            proof {
                assert(forall|j: int|
                    0 <= j < v@.len() && j != k ==> v@[j] == if j < k {
                        old(v)@[j]
                    } else {
                        old(v)@[j - 1]
                    });
                assert(v@[k as int] == (IdStamp { id, time }));
                assert(stamps_sorted(v@));
                assert(stamp_ids(v@) =~= stamp_ids(old(v)@).insert(id as int)) by {
                    assert forall|i: int|
                        stamp_ids(old(v)@).insert(id as int).contains(i) implies stamp_ids(
                        v@,
                    ).contains(i) by {
                        if i == id as int {
                            assert(v@[k as int].id == id);
                        } else {
                            let j = choose|j: int|
                                0 <= j < old(v)@.len() && old(v)@[j].id == i;
                            if j < k {
                                assert(v@[j].id == i);
                            } else {
                                assert(v@[j + 1].id == i);
                            }
                        }
                    }
                    assert forall|i: int| stamp_ids(v@).contains(i) implies stamp_ids(
                        old(v)@,
                    ).insert(id as int).contains(i) by {
                        let j = choose|j: int| 0 <= j < v@.len() && v@[j].id == i;
                        if j < k {
                            assert(old(v)@[j].id == i);
                        } else if j > k {
                            assert(old(v)@[j - 1].id == i);
                        }
                    }
                }
                assert forall|j: int| 0 <= j < old(v)@.len() implies v@.contains(
                    #[trigger] old(v)@[j],
                ) by {
                    if j < k {
                        assert(v@[j] == old(v)@[j]);
                    } else {
                        assert(v@[j + 1] == old(v)@[j]);
                    }
                }
                assert forall|j: int|
                    0 <= j < v@.len() implies (old(v)@.contains(#[trigger] v@[j]) || v@[j] == (
                    IdStamp { id, time })) by {
                    if j < k {
                        assert(v@[j] == old(v)@[j]);
                    } else if j > k {
                        assert(v@[j] == old(v)@[j - 1]);
                    }
                }
            }
            return;
        }
        k = k + 1;
    }
    v.push(IdStamp { id, time });
    proof {
        assert(forall|j: int| 0 <= j < v@.len() - 1 ==> v@[j] == old(v)@[j]);
        assert(v@[v@.len() - 1] == (IdStamp { id, time }));
        assert(stamps_sorted(v@));
        assert(stamp_ids(v@) =~= stamp_ids(old(v)@).insert(id as int)) by {
            assert forall|i: int|
                stamp_ids(old(v)@).insert(id as int).contains(i) implies stamp_ids(v@).contains(
                i,
            ) by {
                if i == id as int {
                    assert(v@[v@.len() - 1].id == id);
                } else {
                    let j = choose|j: int| 0 <= j < old(v)@.len() && old(v)@[j].id == i;
                    assert(v@[j].id == i);
                }
            }
            assert forall|i: int| stamp_ids(v@).contains(i) implies stamp_ids(old(v)@).insert(
                id as int,
            ).contains(i) by {
                let j = choose|j: int| 0 <= j < v@.len() && v@[j].id == i;
                if j < v@.len() - 1 {
                    assert(old(v)@[j].id == i);
                }
            }
        }
        assert forall|j: int| 0 <= j < old(v)@.len() implies v@.contains(
            #[trigger] old(v)@[j],
        ) by {
            assert(v@[j] == old(v)@[j]);
        }
    }
}

/// Whether the sorted stamp sequence holds `id`.
pub fn stamps_contain(v: &Vec<IdStamp>, id: i32) -> (r: bool)
    ensures
        r == stamp_ids(v@).contains(id as int),
{
    let mut k: usize = 0;
    while k < v.len()
        invariant
            0 <= k <= v@.len(),
            forall|j: int| 0 <= j < k ==> v@[j].id != id,
        decreases v@.len() - k,
    {
        if v[k].id == id {
            return true;
        }
        k = k + 1;
    }
    false
}

/// The ids held by `user` within the first `n` rows, restricted to rows that
/// overlap `[start, start + length)`.
pub open spec fn overlap_held_upto(
    store: ReservationStore,
    rt: ReservationType,
    user: int,
    start: int,
    length: int,
    n: int,
) -> Set<int> {
    Set::new(
        |i: int|
            exists|k: int|
                0 <= k < n && (#[trigger] store.rows@[k]).reservation_type == rt
                    && store.rows@[k].user == user && row_covers(store.rows@[k], i)
                    && row_overlaps(store.rows@[k], start, length),
    )
}

/// Loads the stamps of the rows of `(rt, user)` that overlap
/// `[start, start + length)`: every id those rows cover, each with its row's
/// timestamp, in ascending id order.
pub fn collect_overlapping_stamps(
    store: &ReservationStore,
    rt: ReservationType,
    user: i64,
    start: i32,
    length: i32,
) -> (r: Vec<IdStamp>)
    requires
        store.wf(),
        1 <= start,
        1 <= length,
        start + length <= i32::MAX,
    ensures
        stamps_sorted(r@),
        stamps_in_bounds(r@),
        stamp_ids(r@) == store.held_overlapping(rt, user as int, start as int, length as int),
        forall|j: int|
            0 <= j < r@.len() ==> store.covers_at(
                rt,
                user as int,
                (#[trigger] r@[j]).id as int,
                r@[j].time as int,
            ),
{
    let mut v: Vec<IdStamp> = Vec::new();
    let mut k: usize = 0;
    while k < store.rows.len()
        invariant
            store.wf(),
            1 <= start,
            1 <= length,
            start + length <= i32::MAX,
            0 <= k <= store.rows@.len(),
            stamps_sorted(v@),
            stamps_in_bounds(v@),
            stamp_ids(v@) == overlap_held_upto(
                *store,
                rt,
                user as int,
                start as int,
                length as int,
                k as int,
            ),
            forall|j: int|
                0 <= j < v@.len() ==> store.covers_at(
                    rt,
                    user as int,
                    (#[trigger] v@[j]).id as int,
                    v@[j].time as int,
                ),
        decreases store.rows@.len() - k,
    {
        let row = store.rows[k];
        proof {
            assert(row_wf(store.rows@[k as int]));
        }
        if row.reservation_type == rt && row.user == user && row.range_start < start + length
            && start < row.range_start + row.length {
            let mut id: i32 = row.range_start;
            let stop: i32 = row.range_start + row.length;
            while id < stop
                invariant
                    store.wf(),
                    0 <= k < store.rows@.len(),
                    row == store.rows@[k as int],
                    row.reservation_type == rt,
                    row.user == user,
                    row_overlaps(store.rows@[k as int], start as int, length as int),
                    row.range_start <= id <= stop,
                    stop == row.range_start + row.length,
                    stamps_sorted(v@),
                    stamps_in_bounds(v@),
                    stamp_ids(v@) == overlap_held_upto(
                        *store,
                        rt,
                        user as int,
                        start as int,
                        length as int,
                        k as int,
                    ).union(Set::new(|i: int| row.range_start <= i < id)),
                    forall|j: int|
                        0 <= j < v@.len() ==> store.covers_at(
                            rt,
                            user as int,
                            (#[trigger] v@[j]).id as int,
                            v@[j].time as int,
                        ),
                decreases stop - id,
            {
                proof {
                    assert(row_wf(store.rows@[k as int]));
                    // ids of distinct rows of one namespace never collide,
                    // so the new id is not yet stamped
                    if stamp_ids(v@).contains(id as int) {
                        if overlap_held_upto(
                            *store,
                            rt,
                            user as int,
                            start as int,
                            length as int,
                            k as int,
                        ).contains(id as int) {
                            let l = choose|l: int|
                                0 <= l < k && (#[trigger] store.rows@[l]).reservation_type == rt
                                    && store.rows@[l].user == user as int && row_covers(
                                    store.rows@[l],
                                    id as int,
                                ) && row_overlaps(store.rows@[l], start as int, length as int);
                            assert(crate::store::rows_disjoint(
                                store.rows@[l],
                                store.rows@[k as int],
                            ));
                            assert(false);
                        }
                    }
                }
                let ghost before = v@;
                insert_stamp(&mut v, id, row.time);
                proof {
                    assert(stamp_ids(v@) =~= overlap_held_upto(
                        *store,
                        rt,
                        user as int,
                        start as int,
                        length as int,
                        k as int,
                    ).union(Set::new(|i: int| row.range_start <= i < id + 1)));
                    assert forall|j: int| 0 <= j < v@.len() implies store.covers_at(
                        rt,
                        user as int,
                        (#[trigger] v@[j]).id as int,
                        v@[j].time as int,
                    ) by {
                        if before.contains(v@[j]) {
                            let l = choose|l: int| 0 <= l < before.len() && before[l] == v@[j];
                        } else {
                            assert(v@[j] == (IdStamp { id, time: row.time }));
                            assert(row_covers(store.rows@[k as int], id as int));
                        }
                    }
                }
                id = id + 1;
            }
            proof {
                assert(stamp_ids(v@) =~= overlap_held_upto(
                    *store,
                    rt,
                    user as int,
                    start as int,
                    length as int,
                    k + 1,
                )) by {
                    assert(forall|i: int|
                        row_covers(store.rows@[k as int], i) <==> row.range_start <= i < stop);
                }
            }
        } else {
            proof {
                assert(stamp_ids(v@) =~= overlap_held_upto(
                    *store,
                    rt,
                    user as int,
                    start as int,
                    length as int,
                    k + 1,
                )) by {
                    if store.rows@[k as int].reservation_type == rt && store.rows@[k as int].user
                        == user as int {
                        assert(row_wf(store.rows@[k as int]));
                    }
                }
            }
        }
        k = k + 1;
    }
    proof {
        assert(overlap_held_upto(
            *store,
            rt,
            user as int,
            start as int,
            length as int,
            store.rows@.len() as int,
        ) =~= store.held_overlapping(rt, user as int, start as int, length as int));
    }
    v
}

/// Keeps the stamps whose ids fall outside `[start, stop)`, in order.
pub fn remove_stamps_in_range(v: &Vec<IdStamp>, start: i32, stop: i32) -> (r: Vec<IdStamp>)
    requires
        stamps_sorted(v@),
        stamps_in_bounds(v@),
    ensures
        stamps_sorted(r@),
        stamps_in_bounds(r@),
        stamp_ids(r@) == stamp_ids(v@).difference(Set::new(|i: int| start <= i < stop)),
        forall|j: int| 0 <= j < r@.len() ==> v@.contains(#[trigger] r@[j]),
{
    let mut r: Vec<IdStamp> = Vec::new();
    let mut k: usize = 0;
    while k < v.len()
        invariant
            stamps_sorted(v@),
            stamps_in_bounds(v@),
            0 <= k <= v@.len(),
            stamps_sorted(r@),
            stamps_in_bounds(r@),
            forall|j: int|
                0 <= j < r@.len() ==> exists|l: int| 0 <= l < k && v@[l] == #[trigger] r@[j],
            stamp_ids(r@) == stamp_ids(v@.take(k as int)).difference(
                Set::new(|i: int| start <= i < stop),
            ),
        decreases v@.len() - k,
    {
        let s = v[k];
        let ghost pre = r@;
        if s.id < start || s.id >= stop {
            proof {
                if pre.len() > 0 {
                    let j = pre.len() - 1;
                    let l = choose|l: int| 0 <= l < k && v@[l] == pre[j];
                    assert(v@[l].id < v@[k as int].id);
                }
            }
            r.push(s);
            proof {
                assert(r@ == pre.push(s));
                assert(forall|j: int| 0 <= j < pre.len() ==> r@[j] == pre[j]);
                assert(stamps_sorted(r@));
                assert(stamp_ids(r@) =~= stamp_ids(v@.take(k + 1)).difference(
                    Set::new(|i: int| start <= i < stop),
                )) by {
                    crate::runs::lemma_stamp_ids_drop_last(r@);
                    assert(r@.drop_last() =~= pre);
                    crate::runs::lemma_stamp_ids_drop_last(v@.take(k + 1));
                    assert(v@.take(k + 1).drop_last() =~= v@.take(k as int));
                    assert(v@.take(k + 1).last() == v@[k as int]);
                }
            }
        } else {
            proof {
                assert(stamp_ids(r@) =~= stamp_ids(v@.take(k + 1)).difference(
                    Set::new(|i: int| start <= i < stop),
                )) by {
                    crate::runs::lemma_stamp_ids_drop_last(v@.take(k + 1));
                    assert(v@.take(k + 1).drop_last() =~= v@.take(k as int));
                    assert(v@.take(k + 1).last() == v@[k as int]);
                }
            }
        }
        k = k + 1;
    }
    proof {
        assert(v@.take(v@.len() as int) =~= v@);
    }
    r
}

/// Keeps the stamps whose ids are not in the sorted id set `drop`, in order.
pub fn remove_stamps_in(v: &Vec<IdStamp>, drop: &Vec<i32>) -> (r: Vec<IdStamp>)
    requires
        stamps_sorted(v@),
        stamps_in_bounds(v@),
    ensures
        stamps_sorted(r@),
        stamps_in_bounds(r@),
        stamp_ids(r@) == stamp_ids(v@).difference(crate::idset::ids_set(drop@)),
        forall|j: int| 0 <= j < r@.len() ==> v@.contains(#[trigger] r@[j]),
{
    let mut r: Vec<IdStamp> = Vec::new();
    let mut k: usize = 0;
    while k < v.len()
        invariant
            stamps_sorted(v@),
            stamps_in_bounds(v@),
            0 <= k <= v@.len(),
            stamps_sorted(r@),
            stamps_in_bounds(r@),
            forall|j: int|
                0 <= j < r@.len() ==> exists|l: int| 0 <= l < k && v@[l] == #[trigger] r@[j],
            stamp_ids(r@) == stamp_ids(v@.take(k as int)).difference(
                crate::idset::ids_set(drop@),
            ),
        decreases v@.len() - k,
    {
        let s = v[k];
        let ghost pre = r@;
        if !crate::idset::contains_id(drop, s.id) {
            proof {
                if pre.len() > 0 {
                    let j = pre.len() - 1;
                    let l = choose|l: int| 0 <= l < k && v@[l] == pre[j];
                    assert(v@[l].id < v@[k as int].id);
                }
            }
            r.push(s);
            proof {
                assert(r@ == pre.push(s));
                assert(forall|j: int| 0 <= j < pre.len() ==> r@[j] == pre[j]);
                assert(stamps_sorted(r@));
                assert(stamp_ids(r@) =~= stamp_ids(v@.take(k + 1)).difference(
                    crate::idset::ids_set(drop@),
                )) by {
                    crate::runs::lemma_stamp_ids_drop_last(r@);
                    assert(r@.drop_last() =~= pre);
                    crate::runs::lemma_stamp_ids_drop_last(v@.take(k + 1));
                    assert(v@.take(k + 1).drop_last() =~= v@.take(k as int));
                    assert(v@.take(k + 1).last() == v@[k as int]);
                }
            }
        } else {
            proof {
                assert(stamp_ids(r@) =~= stamp_ids(v@.take(k + 1)).difference(
                    crate::idset::ids_set(drop@),
                )) by {
                    crate::runs::lemma_stamp_ids_drop_last(v@.take(k + 1));
                    assert(v@.take(k + 1).drop_last() =~= v@.take(k as int));
                    assert(v@.take(k + 1).last() == v@[k as int]);
                }
            }
        }
        k = k + 1;
    }
    proof {
        assert(v@.take(v@.len() as int) =~= v@);
    }
    r
}

/// Turns canonical runs into fresh rows for `(user, rt)`.
pub fn rows_from_runs(user: i64, rt: ReservationType, runs: &Vec<Run>) -> (r: Vec<
    ReservationRange,
>)
    ensures
        r@ == rows_of_runs(user, rt, runs@),
{
    let mut r: Vec<ReservationRange> = Vec::new();
    let mut k: usize = 0;
    while k < runs.len()
        invariant
            0 <= k <= runs@.len(),
            r@ == rows_of_runs(user, rt, runs@.take(k as int)),
        decreases runs@.len() - k,
    {
        let run = runs[k];
        r.push(
            ReservationRange {
                user,
                reservation_type: rt,
                range_start: run.start,
                length: run.length,
                time: run.time,
            },
        );
        proof {
            assert(r@ =~= rows_of_runs(user, rt, runs@.take(k + 1)));
        }
        k = k + 1;
    }
    proof {
        assert(runs@.take(runs@.len() as int) =~= runs@);
    }
    r
}

} // verus!
