//! Releasing reservations and annotating reserved ids.
//!
//! Deleting a range is a range-splitting operation: the rows overlapping the
//! request are replaced by the minimal runs covering their remaining ids, so
//! releasing the middle of a held range leaves two independent rows. A user
//! can only release ids they actually hold; otherwise the rows stay as they
//! were. Labels covering the released ids are removed in either case.

use vstd::prelude::*;
use crate::runs::{merge_to_runs, runs_of, stamp_ids, stamps_sorted, IdStamp};
use crate::rowset::{
    collect_overlapping_stamps, remove_stamps_in_range, rows_from_runs, rows_of_runs,
    stamps_contain,
};
use crate::store::{
    range_set, row_covers, row_overlaps, row_wf, rows_disjoint, ReservationLabel,
    ReservationRange, ReservationStore,
};
use crate::types::ReservationType;

verus! {

/// Whether a label annotates one of the ids `[start, stop)` of `(user, rt)`.
pub open spec fn label_in_range(
    l: ReservationLabel,
    rt: ReservationType,
    user: int,
    start: int,
    stop: int,
) -> bool {
    l.user == user && l.reservation_type == rt && start <= l.id < stop
}

/// The labels surviving the removal of `[start, stop)` for `(user, rt)`,
/// in their original order.
pub open spec fn labels_kept(
    labels: Seq<ReservationLabel>,
    rt: ReservationType,
    user: int,
    start: int,
    stop: int,
) -> Seq<ReservationLabel>
    decreases labels.len(),
{
    if labels.len() == 0 {
        Seq::empty()
    } else {
        let prev = labels_kept(labels.drop_last(), rt, user, start, stop);
        if label_in_range(labels.last(), rt, user, start, stop) {
            prev
        } else {
            prev.push(labels.last())
        }
    }
}

/// A row of `(user, rt)` overlapping the requested range: the rows a delete
/// rewrites.
pub open spec fn row_affected(
    r: ReservationRange,
    rt: ReservationType,
    user: int,
    start: int,
    length: int,
) -> bool {
    r.reservation_type == rt && r.user == user && row_overlaps(r, start, length)
}

/// The rows surviving a delete of `[start, start + length)` for `(user,
/// rt)`, in their original order.
pub open spec fn rows_kept(
    rows: Seq<ReservationRange>,
    rt: ReservationType,
    user: int,
    start: int,
    length: int,
) -> Seq<ReservationRange>
    decreases rows.len(),
{
    if rows.len() == 0 {
        Seq::empty()
    } else {
        let prev = rows_kept(rows.drop_last(), rt, user, start, length);
        if row_affected(rows.last(), rt, user, start, length) {
            prev
        } else {
            prev.push(rows.last())
        }
    }
}

/// Attaches or replaces the free-text annotation on one reserved id. The id
/// must be positive and covered by one of the user's active rows of the
/// namespace; otherwise nothing changes and the request is rejected.
pub fn label_reservation(
    id: i32,
    user: i64,
    rt: ReservationType,
    text: String,
    store: &mut ReservationStore,
) -> (r: bool)
    requires
        old(store).wf(),
    ensures
        final(store).wf(),
        final(store).rows@ == old(store).rows@,
        r == (id >= 1 && old(store).held_ids(rt, user as int).contains(id as int)),
        !r ==> final(store).labels@ == old(store).labels@,
        r && !old(store).has_label(rt, user as int, id as int) ==> final(store).labels@ == old(
            store,
        ).labels@.push((ReservationLabel { user, reservation_type: rt, id, text })),
        r && old(store).has_label(rt, user as int, id as int) ==> exists|k: int|
            0 <= k < old(store).labels@.len() && (#[trigger] old(store).labels@[k]).user == user
                && old(store).labels@[k].reservation_type == rt && old(store).labels@[k].id == id
                && final(store).labels@ == old(store).labels@.update(
                k,
                (ReservationLabel { user, reservation_type: rt, id, text }),
            ),
{
    if id < 1 {
        proof {
            assert(!(id >= 1 && old(store).held_ids(rt, user as int).contains(id as int)));
        }
        return false;
    }
    let mut covered = false;
    let mut k: usize = 0;
    while k < store.rows.len()
        invariant
            store.wf(),
            *store == *old(store),
            0 <= k <= store.rows@.len(),
            covered ==> store.held_ids(rt, user as int).contains(id as int),
            !covered ==> forall|j: int|
                0 <= j < k ==> !((#[trigger] store.rows@[j]).reservation_type == rt
                    && store.rows@[j].user == user && row_covers(store.rows@[j], id as int)),
        decreases store.rows@.len() - k,
    {
        let row = store.rows[k];
        proof {
            assert(row_wf(store.rows@[k as int]));
        }
        if !covered && row.reservation_type == rt && row.user == user && row.range_start <= id
            && id - row.range_start < row.length {
            covered = true;
        }
        k = k + 1;
    }
    if !covered {
        proof {
            if store.held_ids(rt, user as int).contains(id as int) {
                let k = choose|k: int|
                    0 <= k < store.rows@.len() && (#[trigger] store.rows@[k]).reservation_type
                        == rt && store.rows@[k].user == user as int && row_covers(
                        store.rows@[k],
                        id as int,
                    );
            }
        }
        return false;
    }
    let mut found: usize = 0;
    let mut present: bool = false;
    let mut k: usize = 0;
    while k < store.labels.len()
        invariant
            *store == *old(store),
            0 <= k <= store.labels@.len(),
            present ==> 0 <= found < k && (#[trigger] store.labels@[found as int]).user == user
                && store.labels@[found as int].reservation_type == rt
                && store.labels@[found as int].id == id,
            !present ==> forall|j: int|
                0 <= j < k ==> !((#[trigger] store.labels@[j]).user == user
                    && store.labels@[j].reservation_type == rt && store.labels@[j].id == id),
        decreases store.labels@.len() - k,
    {
        if !present {
            let l = &store.labels[k];
            if l.user == user && l.id == id && l.reservation_type == rt {
                present = true;
                found = k;
            }
        }
        k = k + 1;
    }
    let lab = ReservationLabel { user, reservation_type: rt, id, text };
    if present {
        proof {
            assert(store.has_label(rt, user as int, id as int));
        }
        let ghost pre = store.labels@;
        store.labels.remove(found);
        store.labels.insert(found, lab);
        proof {
            assert(store.labels@ =~= pre.update(found as int, lab));
        }
    } else {
        proof {
            assert(!store.has_label(rt, user as int, id as int)) by {
                if store.has_label(rt, user as int, id as int) {
                    let j = choose|j: int|
                        0 <= j < store.labels@.len()
                            && (#[trigger] store.labels@[j]).reservation_type == rt
                            && store.labels@[j].user == user as int && store.labels@[j].id
                            == id as int;
                }
            }
        }
        store.labels.push(lab);
    }
    true
}

/// Releases the ids `[start, start + length)` held by `user` in namespace
/// `rt`. Labels on the released ids are removed. The rows change only when
/// the user holds every requested id: the rows overlapping the request are
/// replaced by the minimal runs covering their remaining ids, each keeping
/// the newest timestamp among its ids; releasing the middle of a held range
/// leaves two independent rows. On a request for ids the user does not
/// hold, or on a degenerate range, the rows stay as they were; the labels in
/// the requested range are removed either way.
#[verifier::rlimit(60)]
pub fn delete_reservation(
    user: i64,
    rt: ReservationType,
    start: i32,
    length: i32,
    store: &mut ReservationStore,
)
    requires
        old(store).wf(),
    ensures
        final(store).wf(),
        (start < 1 || length < 1 || start + length > i32::MAX) ==> *final(store) == *old(store),
        !(start < 1 || length < 1 || start + length > i32::MAX) ==> {
            &&& final(store).labels@ == labels_kept(
                old(store).labels@,
                rt,
                user as int,
                start as int,
                start + length,
            )
            &&& (!range_set(start as int, length as int).subset_of(
                old(store).held_ids(rt, user as int),
            ) ==> final(store).rows@ == old(store).rows@)
            &&& (range_set(start as int, length as int).subset_of(
                old(store).held_ids(rt, user as int),
            ) ==> exists|stamps: Seq<IdStamp>|
                {
                    &&& stamps_sorted(stamps)
                    &&& stamp_ids(stamps) == old(store).held_overlapping(
                        rt,
                        user as int,
                        start as int,
                        length as int,
                    ).difference(range_set(start as int, length as int))
                    &&& (forall|j: int|
                        0 <= j < stamps.len() ==> old(store).covers_at(
                            rt,
                            user as int,
                            (#[trigger] stamps[j]).id as int,
                            stamps[j].time as int,
                        ))
                    &&& final(store).rows@ == rows_kept(
                        old(store).rows@,
                        rt,
                        user as int,
                        start as int,
                        length as int,
                    ) + rows_of_runs(user, rt, runs_of(stamps))
                })
        },
{
    if start < 1 || length < 1 || start > i32::MAX - length {
        return ;
    }
    let stop: i32 = start + length;

    // drop the labels on the released ids, whatever happens to the rows
    let ghost pre_labels = store.labels@;
    let mut i: usize = 0;
    let ghost mut p: int = 0int;
    proof {
        assert(pre_labels.take(0) =~= Seq::<ReservationLabel>::empty());
        assert(pre_labels.skip(0) =~= pre_labels);
    }
    while i < store.labels.len()
        invariant
            store.wf(),
            store.rows@ == old(store).rows@,
            pre_labels == old(store).labels@,
            0 <= p <= pre_labels.len(),
            1 <= start,
            1 <= length,
            stop == start + length,
            i as int == labels_kept(pre_labels.take(p), rt, user as int, start as int, stop as int).len(),
            store.labels@ == labels_kept(
                pre_labels.take(p),
                rt,
                user as int,
                start as int,
                stop as int,
            ) + pre_labels.skip(p),
        decreases pre_labels.len() - p,
    {
        proof {
            assert(pre_labels.skip(p).len() > 0);
            assert(store.labels@[i as int] == pre_labels.skip(p)[0]);
            assert(pre_labels.skip(p)[0] == pre_labels[p]);
            assert(pre_labels.take(p + 1).drop_last() =~= pre_labels.take(p));
            assert(pre_labels.take(p + 1).last() == pre_labels[p]);
            assert(pre_labels.skip(p).drop_first() =~= pre_labels.skip(p + 1));
        }
        let matched = {
            let l = &store.labels[i];
            l.user == user && l.reservation_type == rt && l.id >= start && l.id < stop
        };
        if matched {
            store.labels.remove(i);
            proof {
                assert(store.labels@ =~= labels_kept(
                    pre_labels.take(p + 1),
                    rt,
                    user as int,
                    start as int,
                    stop as int,
                ) + pre_labels.skip(p + 1));
                p = p + 1;
            }
        } else {
            proof {
                assert(labels_kept(pre_labels.take(p + 1), rt, user as int, start as int, stop as int)
                    =~= labels_kept(
                    pre_labels.take(p),
                    rt,
                    user as int,
                    start as int,
                    stop as int,
                ).push(pre_labels[p]));
                assert(store.labels@ =~= labels_kept(
                    pre_labels.take(p + 1),
                    rt,
                    user as int,
                    start as int,
                    stop as int,
                ) + pre_labels.skip(p + 1));
                p = p + 1;
            }
            i = i + 1;
        }
    }
    proof {
        assert(pre_labels.skip(p).len() == 0);
        assert(p == pre_labels.len());
        assert(pre_labels.take(p) =~= pre_labels);
        assert(store.labels@ =~= labels_kept(
            pre_labels,
            rt,
            user as int,
            start as int,
            stop as int,
        ));
    }

    // the affected rows' stamps; abort unless every requested id is held
    let stamps = collect_overlapping_stamps(store, rt, user, start, length);
    let mut id: i32 = start;
    while id < stop
        invariant
            store.wf(),
            store.rows@ == old(store).rows@,
            store.labels@ == labels_kept(
                old(store).labels@,
                rt,
                user as int,
                start as int,
                stop as int,
            ),
            1 <= start,
            1 <= length,
            stop == start + length,
            stop <= i32::MAX,
            start <= id <= stop,
            stamp_ids(stamps@) == store.held_overlapping(
                rt,
                user as int,
                start as int,
                (stop - start) as int,
            ),
            forall|i2: int| start <= i2 < id ==> stamp_ids(stamps@).contains(i2),
        decreases stop - id,
    {
        if !stamps_contain(&stamps, id) {
            proof {
                assert(!store.held_ids(rt, user as int).contains(id as int)) by {
                    if store.held_ids(rt, user as int).contains(id as int) {
                        let k = choose|k: int|
                            0 <= k < store.rows@.len()
                                && (#[trigger] store.rows@[k]).reservation_type == rt
                                && store.rows@[k].user == user as int && row_covers(
                                store.rows@[k],
                                id as int,
                            );
                        assert(row_overlaps(store.rows@[k], start as int, (stop - start) as int));
                        assert(store.held_overlapping(
                            rt,
                            user as int,
                            start as int,
                            (stop - start) as int,
                        ).contains(id as int));
                    }
                }
                assert(range_set(start as int, length as int).contains(id as int));
            }
            return ;
        }
        id = id + 1;
    }
    proof {
        assert(range_set(start as int, length as int).subset_of(
            store.held_ids(rt, user as int),
        )) by {
            assert forall|i2: int|
                range_set(start as int, length as int).contains(i2) implies store.held_ids(
                rt,
                user as int,
            ).contains(i2) by {
                assert(stamp_ids(stamps@).contains(i2));
                let k = choose|k: int|
                    0 <= k < store.rows@.len() && (#[trigger] store.rows@[k]).reservation_type == rt
                        && store.rows@[k].user == user as int && row_covers(store.rows@[k], i2)
                        && row_overlaps(store.rows@[k], start as int, (stop - start) as int);
            }
        }
    }

    proof {
        // the stamps' facts, restated against the original store: only the
        // labels have changed so far, and these predicates read the rows
        assert(stamp_ids(stamps@) =~= old(store).held_overlapping(
            rt,
            user as int,
            start as int,
            length as int,
        )) by {
            assert(store.rows@ == old(store).rows@);
        }
        assert forall|j: int| 0 <= j < stamps@.len() implies old(store).covers_at(
            rt,
            user as int,
            (#[trigger] stamps@[j]).id as int,
            stamps@[j].time as int,
        ) by {
            let k = choose|k: int|
                0 <= k < store.rows@.len() && (#[trigger] store.rows@[k]).reservation_type == rt
                    && store.rows@[k].user == user as int && row_covers(
                    store.rows@[k],
                    stamps@[j].id as int,
                ) && store.rows@[k].time == stamps@[j].time as int;
            assert(old(store).rows@[k] == store.rows@[k]);
        }
        assert(range_set(start as int, length as int).subset_of(
            old(store).held_ids(rt, user as int),
        )) by {
            assert forall|i2: int|
                range_set(start as int, length as int).contains(i2) implies old(store).held_ids(
                rt,
                user as int,
            ).contains(i2) by {
                assert(store.held_ids(rt, user as int).contains(i2));
                let k = choose|k: int|
                    0 <= k < store.rows@.len() && (#[trigger] store.rows@[k]).reservation_type == rt
                        && store.rows@[k].user == user as int && row_covers(store.rows@[k], i2);
                assert(old(store).rows@[k] == store.rows@[k]);
            }
        }
    }
    let remaining = remove_stamps_in_range(&stamps, start, stop);
    proof {
        crate::runs::lemma_runs_of_props(remaining@);
    }
    let runs = merge_to_runs(&remaining);
    let fresh = rows_from_runs(user, rt, &runs);
    let ghost freshv = fresh@;
    let ghost remv = remaining@;

    // replace the affected rows
    let ghost pre_rows = store.rows@;
    let mut i: usize = 0;
    let ghost mut p: int = 0int;
    proof {
        assert(pre_rows.take(0) =~= Seq::<ReservationRange>::empty());
        assert(pre_rows.skip(0) =~= pre_rows);
    }
    while i < store.rows.len()
        invariant
            pre_rows == old(store).rows@,
            store.wf(),
            store.labels@ == labels_kept(
                old(store).labels@,
                rt,
                user as int,
                start as int,
                stop as int,
            ),
            1 <= start,
            1 <= length,
            stop == start + length,
            0 <= p <= pre_rows.len(),
            i as int == rows_kept(pre_rows.take(p), rt, user as int, start as int, length as int).len(),
            store.rows@ == rows_kept(pre_rows.take(p), rt, user as int, start as int, length as int)
                + pre_rows.skip(p),
            forall|j: int|
                0 <= j < i ==> !row_affected(
                    #[trigger] store.rows@[j],
                    rt,
                    user as int,
                    start as int,
                    length as int,
                ),
            forall|j: int| 0 <= j < store.rows@.len() ==> pre_rows.contains(#[trigger] store.rows@[j]),
        decreases pre_rows.len() - p,
    {
        proof {
            assert(pre_rows.skip(p).len() > 0);
            assert(store.rows@[i as int] == pre_rows.skip(p)[0]);
            assert(pre_rows.skip(p)[0] == pre_rows[p]);
            assert(pre_rows.take(p + 1).drop_last() =~= pre_rows.take(p));
            assert(pre_rows.take(p + 1).last() == pre_rows[p]);
            assert(pre_rows.skip(p).drop_first() =~= pre_rows.skip(p + 1));
        }
        let row = store.rows[i];
        proof {
            assert(row_wf(store.rows@[i as int]));
        }
        if row.reservation_type == rt && row.user == user && row.range_start < stop && start
            < row.range_start + row.length {
            let ghost before = store.rows@;
            store.rows.remove(i);
            proof {
                assert(forall|j: int|
                    0 <= j < store.rows@.len() ==> store.rows@[j] == if j < i {
                        before[j]
                    } else {
                        before[j + 1]
                    });
                assert(store.rows@ =~= rows_kept(
                    pre_rows.take(p + 1),
                    rt,
                    user as int,
                    start as int,
                    length as int,
                ) + pre_rows.skip(p + 1));
                assert(store.wf());
                p = p + 1;
            }
        } else {
            proof {
                assert(rows_kept(pre_rows.take(p + 1), rt, user as int, start as int, length as int)
                    =~= rows_kept(
                    pre_rows.take(p),
                    rt,
                    user as int,
                    start as int,
                    length as int,
                ).push(pre_rows[p]));
                assert(store.rows@ =~= rows_kept(
                    pre_rows.take(p + 1),
                    rt,
                    user as int,
                    start as int,
                    length as int,
                ) + pre_rows.skip(p + 1));
                p = p + 1;
            }
            i = i + 1;
        }
    }
    proof {
        assert(pre_rows.skip(p).len() == 0);
        assert(p == pre_rows.len());
        assert(pre_rows.take(p) =~= pre_rows);
        assert(store.rows@ =~= rows_kept(pre_rows, rt, user as int, start as int, length as int));
    }
    let ghost kept = store.rows@;
    let mut fresh_rows = fresh;
    store.rows.append(&mut fresh_rows);
    proof {
        assert(store.rows@ == kept + freshv);
        assert(forall|k: int| 0 <= k < kept.len() ==> store.rows@[k] == kept[k]);
        assert(forall|k: int|
            kept.len() <= k < store.rows@.len() ==> store.rows@[k] == freshv[k - kept.len()]);
        assert(forall|k: int|
            0 <= k < freshv.len() ==> freshv[k] == crate::rowset::row_of_run(user, rt, runs@[k]));
        assert(final(store).wf()) by {
            assert forall|k: int, l: int| 0 <= k < l < store.rows@.len() implies rows_disjoint(
                #[trigger] store.rows@[k],
                #[trigger] store.rows@[l],
            ) by {
                if l < kept.len() {
                } else if k >= kept.len() {
                    let a = freshv[k - kept.len()];
                    let b = freshv[l - kept.len()];
                    assert(crate::runs::runs_separated(runs@));
                    assert(runs@[k - kept.len()].start + runs@[k - kept.len()].length
                        < runs@[l - kept.len()].start);
                } else {
                    let a = kept[k];
                    let b = freshv[l - kept.len()];
                    assert(crate::runs::run_wf(runs@[l - kept.len()]));
                    assert(row_wf(b));
                    assert(!row_affected(a, rt, user as int, start as int, length as int));
                    if a.reservation_type != rt {
                        assert(rows_disjoint(a, b));
                    } else {
                    assert forall|i2: int| !(row_covers(a, i2) && row_covers(b, i2)) by {
                        if row_covers(a, i2) && row_covers(b, i2) {
                            assert(crate::runs::run_covers(runs@[l - kept.len()], i2));
                            assert(crate::runs::runs_ids(runs@).contains(i2));
                            assert(stamp_ids(remv).contains(i2));
                            assert(old(store).held_overlapping(
                                rt,
                                user as int,
                                start as int,
                                length as int,
                            ).contains(i2));
                            let kc = choose|kc: int|
                                0 <= kc < old(store).rows@.len() && (#[trigger] old(
                                    store,
                                ).rows@[kc]).reservation_type == rt && old(store).rows@[kc].user
                                    == user as int && row_covers(old(store).rows@[kc], i2)
                                    && row_overlaps(
                                    old(store).rows@[kc],
                                    start as int,
                                    length as int,
                                );
                            assert(pre_rows.contains(a));
                            let ka = choose|ka: int| 0 <= ka < pre_rows.len() && pre_rows[ka] == a;
                            assert(ka != kc) by {
                                if ka == kc {
                                    assert(row_affected(
                                        a,
                                        rt,
                                        user as int,
                                        start as int,
                                        length as int,
                                    ));
                                }
                            }
                            if ka < kc {
                                assert(rows_disjoint(pre_rows[ka], pre_rows[kc]));
                            } else {
                                assert(rows_disjoint(pre_rows[kc], pre_rows[ka]));
                            }
                            assert(false);
                        }
                    }
                    crate::store::lemma_no_common_id_disjoint(a, b);
                    }
                }
            }
        }
        assert(stamp_ids(remv) =~= old(store).held_overlapping(
            rt,
            user as int,
            start as int,
            length as int,
        ).difference(range_set(start as int, length as int))) by {
            assert(forall|i2: int|
                (start <= i2 < stop) <==> range_set(start as int, length as int).contains(i2));
        }
        assert forall|j: int| 0 <= j < remv.len() implies old(store).covers_at(
            rt,
            user as int,
            (#[trigger] remv[j]).id as int,
            remv[j].time as int,
        ) by {
            assert(stamps@.contains(remv[j]));
            let j2 = choose|j2: int| 0 <= j2 < stamps@.len() && stamps@[j2] == remv[j];
        }
        assert(final(store).rows@ == rows_kept(
            old(store).rows@,
            rt,
            user as int,
            start as int,
            length as int,
        ) + rows_of_runs(user, rt, runs_of(remv)));
    }
}

} // verus!
