//! The quota calculator: how many ids a user may hold reserved at once.
//!
//! Every user gets a floor of 50 reservations per namespace, plus half of
//! what they have already published there rounded up to the nearest ten,
//! minus the ids they currently hold reserved but have not yet published.

use vstd::prelude::*;
use crate::idset::{contains_id, ids_set, insert_id, lemma_sorted_ids_set_len, strictly_sorted};
use crate::store::{row_covers, ContentIndex, ReservationStore};
use crate::types::ReservationType;

verus! {

/// The smallest multiple of ten that is at least `n`.
pub open spec fn spec_round_up10(n: int) -> int {
    if n % 10 == 0 {
        n
    } else {
        n + 10 - n % 10
    }
}

/// The quota formula over the published count and the count of ids held but
/// not yet published. A user squatting more than the formula allows has no
/// remaining quota.
pub open spec fn spec_quota(published: int, held_unpublished: int) -> int {
    if 50 + spec_round_up10(published / 2) >= held_unpublished {
        50 + spec_round_up10(published / 2) - held_unpublished
    } else {
        0
    }
}

/// The user's maximum remaining reservations in namespace `rt`.
pub open spec fn spec_max_reservations(
    store: ReservationStore,
    index: ContentIndex,
    rt: ReservationType,
    user: int,
) -> int {
    spec_quota(
        index.uploads(rt, user).len() as int,
        store.held_ids(rt, user).difference(index.uploads(rt, user)).len() as int,
    )
}

/// A user with no published content and no reservation of a namespace has
/// exactly the plain quota floor of fifty there.
pub proof fn lemma_fresh_user_quota(
    store: ReservationStore,
    index: ContentIndex,
    rt: ReservationType,
    user: int,
)
    requires
        index.uploads(rt, user) == Set::<int>::empty(),
        store.held_ids(rt, user) == Set::<int>::empty(),
    ensures
        spec_max_reservations(store, index, rt, user) == 50,
{
    assert(store.held_ids(rt, user).difference(index.uploads(rt, user)) =~= Set::<int>::empty());
}

/// The user's uploads seen by the first `n` index records.
spec fn uploads_upto(index: ContentIndex, rt: ReservationType, user: int, n: int) -> Set<int> {
    Set::new(
        |i: int|
            exists|k: int|
                0 <= k < n && (#[trigger] index.records@[k]).reservation_type == rt
                    && index.records@[k].id == i && index.owns(user, index.records@[k].post as int),
    )
}

/// The ids held by `user` within the first `n` store rows.
spec fn held_upto(store: ReservationStore, rt: ReservationType, user: int, n: int) -> Set<int> {
    Set::new(
        |i: int|
            exists|k: int|
                0 <= k < n && (#[trigger] store.rows@[k]).reservation_type == rt
                    && store.rows@[k].user == user && row_covers(store.rows@[k], i),
    )
}

/// The distinct ids of namespace `rt` published under posts `user` authors,
/// in ascending order.
pub fn get_user_uploads(index: &ContentIndex, rt: ReservationType, user: i64) -> (r: Vec<i32>)
    ensures
        strictly_sorted(r@),
        ids_set(r@) == index.uploads(rt, user as int),
{
    let mut v: Vec<i32> = Vec::new();
    let mut k: usize = 0;
    while k < index.records.len()
        invariant
            0 <= k <= index.records@.len(),
            strictly_sorted(v@),
            ids_set(v@) == uploads_upto(*index, rt, user as int, k as int),
        decreases index.records@.len() - k,
    {
        let rec = index.records[k];
        if rec.reservation_type == rt && crate::store::post_owned_by(index, user, rec.post) {
            insert_id(&mut v, rec.id);
            proof {
                assert(ids_set(v@) =~= uploads_upto(*index, rt, user as int, k + 1)) by {
                    assert(index.records@[k as int].reservation_type == rt
                        && index.records@[k as int].id == rec.id);
                }
            }
        } else {
            proof {
                assert(ids_set(v@) =~= uploads_upto(*index, rt, user as int, k + 1));
            }
        }
        k = k + 1;
    }
    proof {
        assert(uploads_upto(*index, rt, user as int, index.records@.len() as int) =~= index.uploads(
            rt,
            user as int,
        ));
    }
    v
}

/// The ids `user` currently holds reserved in namespace `rt` and has not yet
/// published, in ascending order. Published ids no longer count against the
/// quota.
pub fn get_user_reservations(
    store: &ReservationStore,
    index: &ContentIndex,
    rt: ReservationType,
    user: i64,
) -> (r: Vec<i32>)
    requires
        store.wf(),
    ensures
        strictly_sorted(r@),
        ids_set(r@) == store.held_ids(rt, user as int).difference(index.uploads(rt, user as int)),
{
    let uploads = get_user_uploads(index, rt, user);
    let mut held: Vec<i32> = Vec::new();
    let mut k: usize = 0;
    while k < store.rows.len()
        invariant
            store.wf(),
            0 <= k <= store.rows@.len(),
            strictly_sorted(held@),
            ids_set(held@) == held_upto(*store, rt, user as int, k as int),
        decreases store.rows@.len() - k,
    {
        let row = store.rows[k];
        if row.reservation_type == rt && row.user == user {
            proof {
                assert(crate::store::row_wf(store.rows@[k as int]));
            }
            let mut id: i32 = row.range_start;
            let stop: i32 = row.range_start + row.length;
            while id < stop
                invariant
                    row == store.rows@[k as int],
                    0 <= k < store.rows@.len(),
                    row.reservation_type == rt && row.user == user,
                    row.range_start <= id <= stop,
                    stop == row.range_start + row.length,
                    strictly_sorted(held@),
                    ids_set(held@) == held_upto(*store, rt, user as int, k as int).union(
                        Set::new(|i: int| row.range_start <= i < id),
                    ),
                decreases stop - id,
            {
                insert_id(&mut held, id);
                proof {
                    assert(ids_set(held@) =~= held_upto(*store, rt, user as int, k as int).union(
                        Set::new(|i: int| row.range_start <= i < id + 1),
                    ));
                }
                id = id + 1;
            }
            proof {
                assert(ids_set(held@) =~= held_upto(*store, rt, user as int, k + 1)) by {
                    assert(forall|i: int|
                        row_covers(store.rows@[k as int], i) <==> row.range_start <= i < stop);
                }
            }
        } else {
            proof {
                assert(ids_set(held@) =~= held_upto(*store, rt, user as int, k + 1));
            }
        }
        k = k + 1;
    }
    proof {
        assert(held_upto(*store, rt, user as int, store.rows@.len() as int) =~= store.held_ids(
            rt,
            user as int,
        ));
    }
    let mut r: Vec<i32> = Vec::new();
    let mut k: usize = 0;
    while k < held.len()
        invariant
            0 <= k <= held@.len(),
            strictly_sorted(held@),
            ids_set(held@) == store.held_ids(rt, user as int),
            strictly_sorted(uploads@),
            ids_set(uploads@) == index.uploads(rt, user as int),
            strictly_sorted(r@),
            forall|j: int|
                0 <= j < r@.len() ==> exists|l: int| 0 <= l < k && held@[l] == #[trigger] r@[j],
            ids_set(r@) == ids_set(held@.take(k as int)).difference(
                index.uploads(rt, user as int),
            ),
        decreases held@.len() - k,
    {
        let id = held[k];
        let ghost pre = r@;
        if !contains_id(&uploads, id) {
            proof {
                if pre.len() > 0 {
                    let j = pre.len() - 1;
                    let l = choose|l: int| 0 <= l < k && held@[l] == pre[j];
                    assert(held@[l] < held@[k as int]);
                }
            }
            r.push(id);
            proof {
                assert(r@ == pre.push(id));
                assert(strictly_sorted(r@)) by {
                    assert(forall|j: int| 0 <= j < pre.len() ==> r@[j] == pre[j]);
                }
                assert(forall|j: int|
                    0 <= j < r@.len() ==> exists|l: int|
                        0 <= l < k + 1 && held@[l] == #[trigger] r@[j]) by {
                    assert(r@[r@.len() - 1] == held@[k as int]);
                }
                assert(ids_set(r@) =~= ids_set(held@.take(k + 1)).difference(
                    index.uploads(rt, user as int),
                )) by {
                    crate::idset::lemma_ids_set_drop_last(r@);
                    assert(r@.drop_last() =~= pre);
                    crate::idset::lemma_ids_set_drop_last(held@.take(k + 1));
                    assert(held@.take(k + 1).drop_last() =~= held@.take(k as int));
                    assert(held@.take(k + 1).last() == held@[k as int]);
                }
            }
        } else {
            proof {
                assert(ids_set(r@) =~= ids_set(held@.take(k + 1)).difference(
                    index.uploads(rt, user as int),
                )) by {
                    crate::idset::lemma_ids_set_drop_last(held@.take(k + 1));
                    assert(held@.take(k + 1).drop_last() =~= held@.take(k as int));
                    assert(held@.take(k + 1).last() == held@[k as int]);
                }
            }
        }
        k = k + 1;
    }
    proof {
        assert(held@.take(held@.len() as int) =~= held@);
    }
    r
}

/// The maximum number of ids `user` may newly reserve in namespace `rt`:
/// a floor of 50, plus half the published count rounded up to the nearest
/// ten, minus the ids currently held but unpublished.
pub fn get_user_max_reservations(
    store: &ReservationStore,
    index: &ContentIndex,
    rt: ReservationType,
    user: i64,
) -> (r: usize)
    requires
        store.wf(),
    ensures
        r == spec_max_reservations(*store, *index, rt, user as int),
{
    let uploads = get_user_uploads(index, rt, user);
    let reservations = get_user_reservations(store, index, rt, user);
    proof {
        lemma_sorted_ids_set_len(uploads@);
        lemma_sorted_ids_set_len(reservations@);
    }
    let published: usize = uploads.len();
    let active: usize = reservations.len();
    let half: usize = published / 2;
    let rem: usize = half % 10;
    let rounded: usize = if rem == 0 {
        half
    } else {
        half - rem + 10
    };
    if 50 + rounded >= active {
        50 + rounded - active
    } else {
        0
    }
}

} // verus!
