//! The compactor: batch maintenance of one namespace.
//!
//! For every user holding a reservation row of the namespace, the compactor
//! drops the ids that have since been published under the user's own posts
//! (freeing their quota) and merges what remains into the minimal set of
//! rows, each keeping the newest timestamp among its ids. Rows of other
//! namespaces are left exactly as they were.

use vstd::prelude::*;
use crate::store::{
    row_covers, row_wf, rows_disjoint, ContentIndex, ReservationRange, ReservationStore,
};
use crate::types::ReservationType;

verus! {

/// The rows of every namespace but `rt`, in their original order.
pub open spec fn rows_other_ns(rows: Seq<ReservationRange>, rt: ReservationType) -> Seq<
    ReservationRange,
>
    decreases rows.len(),
{
    if rows.len() == 0 {
        Seq::empty()
    } else {
        let prev = rows_other_ns(rows.drop_last(), rt);
        if rows.last().reservation_type == rt {
            prev
        } else {
            prev.push(rows.last())
        }
    }
}

/// The distinct holders of `rt` rows, in order of first appearance.
pub open spec fn distinct_users(rows: Seq<ReservationRange>, rt: ReservationType) -> Seq<i64>
    decreases rows.len(),
{
    if rows.len() == 0 {
        Seq::empty()
    } else {
        let prev = distinct_users(rows.drop_last(), rt);
        if rows.last().reservation_type == rt && !prev.contains(rows.last().user) {
            prev.push(rows.last().user)
        } else {
            prev
        }
    }
}

/// The ids a user holds within a row sequence, namespace `rt`.
pub open spec fn seq_user_ids(rows: Seq<ReservationRange>, rt: ReservationType, user: int) -> Set<
    int,
> {
    Set::new(
        |i: int|
            exists|k: int|
                0 <= k < rows.len() && (#[trigger] rows[k]).reservation_type == rt && rows[k].user
                    == user && row_covers(rows[k], i),
    )
}

pub proof fn lemma_distinct_users_props(rows: Seq<ReservationRange>, rt: ReservationType)
    ensures
        distinct_users(rows, rt).no_duplicates(),
        forall|u: i64|
            distinct_users(rows, rt).contains(u) <==> exists|k: int|
                0 <= k < rows.len() && (#[trigger] rows[k]).reservation_type == rt && rows[k].user
                    == u,
    decreases rows.len(),
{
    if rows.len() > 0 {
        lemma_distinct_users_props(rows.drop_last(), rt);
        let prev = distinct_users(rows.drop_last(), rt);
        let cur = distinct_users(rows, rt);
        assert forall|u: i64| cur.contains(u) implies exists|k: int|
            0 <= k < rows.len() && (#[trigger] rows[k]).reservation_type == rt && rows[k].user
                == u by {
            if prev.contains(u) {
                let k = choose|k: int|
                    0 <= k < rows.drop_last().len() && (#[trigger] rows.drop_last()[k]).reservation_type
                        == rt && rows.drop_last()[k].user == u;
                assert(rows[k].reservation_type == rt && rows[k].user == u);
            } else {
                assert(cur == prev.push(rows.last().user));
                assert(u == rows.last().user);
                assert(rows[rows.len() - 1].reservation_type == rt && rows[rows.len() - 1].user
                    == u);
            }
        }
        assert forall|u: i64|
            (exists|k: int|
                0 <= k < rows.len() && (#[trigger] rows[k]).reservation_type == rt && rows[k].user
                    == u) implies cur.contains(u) by {
            let k = choose|k: int|
                0 <= k < rows.len() && (#[trigger] rows[k]).reservation_type == rt && rows[k].user
                    == u;
            if k < rows.len() - 1 {
                assert(rows.drop_last()[k].reservation_type == rt && rows.drop_last()[k].user
                    == u);
                assert(prev.contains(u));
                if rows.last().reservation_type == rt && !prev.contains(rows.last().user) {
                    assert(cur == prev.push(rows.last().user));
                    let j = choose|j: int| 0 <= j < prev.len() && prev[j] == u;
                    assert(cur[j] == u);
                } else {
                    assert(cur == prev);
                }
            } else {
                if !prev.contains(u) {
                    assert(cur == prev.push(u));
                    assert(cur[cur.len() - 1] == u);
                } else {
                    let j = choose|j: int| 0 <= j < prev.len() && prev[j] == u;
                    if rows.last().reservation_type == rt && !prev.contains(rows.last().user) {
                        assert(cur == prev.push(rows.last().user));
                        assert(cur[j] == u);
                    } else {
                        assert(cur == prev);
                    }
                }
            }
        }
    }
}

pub proof fn lemma_rows_other_ns_concat(
    s: Seq<ReservationRange>,
    t: Seq<ReservationRange>,
    rt: ReservationType,
)
    ensures
        rows_other_ns(s + t, rt) == rows_other_ns(s, rt) + rows_other_ns(t, rt),
    decreases t.len(),
{
    if t.len() == 0 {
        assert(s + t =~= s);
        assert(rows_other_ns(s, rt) + rows_other_ns(t, rt) =~= rows_other_ns(s, rt));
    } else {
        lemma_rows_other_ns_concat(s, t.drop_last(), rt);
        assert((s + t).drop_last() =~= s + t.drop_last());
        assert((s + t).last() == t.last());
        if t.last().reservation_type == rt {
        } else {
            assert(rows_other_ns(s, rt) + rows_other_ns(t.drop_last(), rt).push(t.last()) =~= (
            rows_other_ns(s, rt) + rows_other_ns(t.drop_last(), rt)).push(t.last()));
        }
    }
}

/// A sequence holding only `rt` rows contributes nothing.
pub proof fn lemma_rows_other_ns_all_rt(t: Seq<ReservationRange>, rt: ReservationType)
    requires
        forall|k: int| 0 <= k < t.len() ==> (#[trigger] t[k]).reservation_type == rt,
    ensures
        rows_other_ns(t, rt) == Seq::<ReservationRange>::empty(),
    decreases t.len(),
{
    if t.len() > 0 {
        assert(forall|k: int|
            0 <= k < t.drop_last().len() ==> (#[trigger] t.drop_last()[k]).reservation_type == rt);
        lemma_rows_other_ns_all_rt(t.drop_last(), rt);
        assert(t[t.len() - 1].reservation_type == rt);
    }
}

/// A sequence without `rt` rows passes through unchanged.
pub proof fn lemma_rows_other_ns_none_rt(s: Seq<ReservationRange>, rt: ReservationType)
    requires
        forall|k: int| 0 <= k < s.len() ==> (#[trigger] s[k]).reservation_type != rt,
    ensures
        rows_other_ns(s, rt) == s,
    decreases s.len(),
{
    if s.len() > 0 {
        assert(forall|k: int|
            0 <= k < s.drop_last().len() ==> (#[trigger] s.drop_last()[k]).reservation_type != rt);
        lemma_rows_other_ns_none_rt(s.drop_last(), rt);
        assert(s[s.len() - 1].reservation_type != rt);
        assert(s.drop_last().push(s.last()) =~= s);
    }
}

/// The row's timestamp is the newest timestamp any of its ids carried in
/// `pre`, and every one of its ids was held there.
pub open spec fn row_time_ok(
    pre: ReservationStore,
    rt: ReservationType,
    r: ReservationRange,
) -> bool {
    &&& (forall|i: int, t: int|
        row_covers(r, i) && pre.covers_at(rt, r.user as int, i, t) ==> t <= r.time)
    &&& (exists|i: int| row_covers(r, i) && pre.covers_at(rt, r.user as int, i, r.time as int))
}

/// Two rows of one user stand strictly apart: neither overlapping nor
/// adjacent, so their decomposition is minimal.
pub open spec fn rows_strictly_apart(a: ReservationRange, b: ReservationRange) -> bool {
    a.range_start + a.length < b.range_start || b.range_start + b.length < a.range_start
}

/// What compaction of namespace `rt` does to the store, relative to the
/// state it read: labels and other namespaces untouched; each user is left
/// holding exactly their old ids minus their own published ids; the rows of
/// the namespace are minimal (per user: sorted apart, never adjacent), and
/// each row carries the newest timestamp its ids had before.
pub open spec fn compacted(
    pre: ReservationStore,
    post: ReservationStore,
    index: ContentIndex,
    rt: ReservationType,
) -> bool {
    &&& post.labels@ == pre.labels@
    &&& rows_other_ns(post.rows@, rt) == rows_other_ns(pre.rows@, rt)
    &&& (forall|u: int| #[trigger]
        post.held_ids(rt, u) == pre.held_ids(rt, u).difference(index.uploads(rt, u)))
    &&& (forall|k: int|
        0 <= k < post.rows@.len() && (#[trigger] post.rows@[k]).reservation_type == rt
            ==> row_time_ok(pre, rt, post.rows@[k]))
    &&& (forall|k: int, l: int|
        0 <= k < post.rows@.len() && 0 <= l < post.rows@.len() && k != l
            && (#[trigger] post.rows@[k]).reservation_type == rt
            && (#[trigger] post.rows@[l]).reservation_type == rt && post.rows@[k].user
            == post.rows@[l].user ==> rows_strictly_apart(post.rows@[k], post.rows@[l]))
}

/// The user's rows of namespace `rt` stand pairwise strictly apart: the
/// shape compaction leaves behind.
pub open spec fn user_rows_apart(st: ReservationStore, rt: ReservationType) -> bool {
    forall|k1: int, k2: int|
        0 <= k1 < st.rows@.len() && 0 <= k2 < st.rows@.len() && k1 != k2
            && (#[trigger] st.rows@[k1]).reservation_type == rt
            && (#[trigger] st.rows@[k2]).reservation_type == rt && st.rows@[k1].user
            == st.rows@[k2].user ==> rows_strictly_apart(st.rows@[k1], st.rows@[k2])
}

/// When a user's rows of a namespace stand strictly apart, a contiguous
/// block of held ids lies entirely within a single row: were a block to end
/// mid-row-boundary, the next id's row would have to adjoin the first.
proof fn lemma_contiguous_cover(
    st: ReservationStore,
    rt: ReservationType,
    user: int,
    s: int,
    e: int,
) -> (k: int)
    requires
        s < e,
        user_rows_apart(st, rt),
        forall|i: int| s <= i < e ==> st.held_ids(rt, user).contains(i),
    ensures
        0 <= k < st.rows@.len(),
        st.rows@[k].reservation_type == rt && st.rows@[k].user == user,
        st.rows@[k].range_start <= s && e <= st.rows@[k].range_start + st.rows@[k].length,
{
    assert(st.held_ids(rt, user).contains(s));
    let k = choose|k: int|
        0 <= k < st.rows@.len() && (#[trigger] st.rows@[k]).reservation_type == rt
            && st.rows@[k].user == user && row_covers(st.rows@[k], s);
    if st.rows@[k].range_start + st.rows@[k].length < e {
        let i = st.rows@[k].range_start + st.rows@[k].length;
        assert(s <= i < e);
        assert(st.held_ids(rt, user).contains(i));
        let k2 = choose|k2: int|
            0 <= k2 < st.rows@.len() && (#[trigger] st.rows@[k2]).reservation_type == rt
                && st.rows@[k2].user == user && row_covers(st.rows@[k2], i);
        assert(k2 != k);
        assert(rows_strictly_apart(st.rows@[k], st.rows@[k2]));
        assert(false);
    }
    k
}

/// A store whose namespace is already in compacted shape — the user rows
/// stand strictly apart and no held id is published under its holder's own
/// posts — is a fixed point of compaction: the namespace's rows come out
/// exactly as they went in.
pub proof fn lemma_compacted_fixed_point(
    pre: ReservationStore,
    post: ReservationStore,
    index: ContentIndex,
    rt: ReservationType,
)
    requires
        pre.wf(),
        compacted(pre, post, index, rt),
        user_rows_apart(pre, rt),
        forall|u: int| #[trigger] pre.held_ids(rt, u).disjoint(index.uploads(rt, u)),
    ensures
        forall|r: ReservationRange|
            #[trigger] post.rows@.contains(r) && r.reservation_type == rt ==> pre.rows@.contains(
                r,
            ),
        forall|r: ReservationRange|
            #[trigger] pre.rows@.contains(r) && r.reservation_type == rt ==> post.rows@.contains(
                r,
            ),
{
    assert forall|u: int| #[trigger] post.held_ids(rt, u) == pre.held_ids(rt, u) by {
        assert(pre.held_ids(rt, u).disjoint(index.uploads(rt, u)));
        assert(pre.held_ids(rt, u).difference(index.uploads(rt, u)) =~= pre.held_ids(rt, u));
    }
    assert(user_rows_apart(post, rt));
    assert forall|r: ReservationRange|
        #[trigger] post.rows@.contains(r) && r.reservation_type == rt implies pre.rows@.contains(
        r,
    ) by {
        let kr = choose|kr: int| 0 <= kr < post.rows@.len() && post.rows@[kr] == r;
        let u = r.user as int;
        assert(row_time_ok(pre, rt, r));
        let iw = choose|iw: int|
            row_covers(r, iw) && pre.covers_at(rt, u, iw, r.time as int);
        let s = r.range_start as int;
        let e = r.range_start + r.length;
        assert(s < e) by {
            assert(row_covers(r, iw));
        }
        assert forall|i: int| s <= i < e implies pre.held_ids(rt, u).contains(i) by {
            assert(row_covers(r, i));
            assert(post.held_ids(rt, u).contains(i));
        }
        let kp = lemma_contiguous_cover(pre, rt, u, s, e);
        let p = pre.rows@[kp];
        assert forall|i: int|
            p.range_start <= i < p.range_start + p.length implies post.held_ids(rt, u).contains(
            i,
        ) by {
            assert(row_covers(p, i));
            assert(pre.held_ids(rt, u).contains(i));
        }
        let k2 = lemma_contiguous_cover(
            post,
            rt,
            u,
            p.range_start as int,
            p.range_start + p.length,
        );
        // the post row covering p's range overlaps r, so it is r, and the
        // two ranges coincide
        assert(k2 == kr) by {
            if k2 != kr {
                assert(rows_strictly_apart(post.rows@[k2], post.rows@[kr]));
                assert(row_covers(post.rows@[k2], iw));
                assert(row_covers(post.rows@[kr], iw));
            }
        }
        assert(p.range_start == r.range_start && p.length == r.length);
        assert(p.user == r.user && p.reservation_type == r.reservation_type);
        assert(p.time == r.time) by {
            assert(row_covers(p, iw));
            assert(pre.covers_at(rt, u, iw, p.time as int));
            crate::store::lemma_covers_at_unique(pre, rt, u, iw, r.time as int, p.time as int);
        }
        assert(p == r);
        assert(pre.rows@.contains(r));
    }
    assert forall|r: ReservationRange|
        #[trigger] pre.rows@.contains(r) && r.reservation_type == rt implies post.rows@.contains(
        r,
    ) by {
        let kq = choose|kq: int| 0 <= kq < pre.rows@.len() && pre.rows@[kq] == r;
        let u = r.user as int;
        assert(row_wf(r));
        let s = r.range_start as int;
        let e = r.range_start + r.length;
        assert forall|i: int| s <= i < e implies post.held_ids(rt, u).contains(i) by {
            assert(row_covers(r, i));
            assert(pre.held_ids(rt, u).contains(i));
        }
        let kr = lemma_contiguous_cover(post, rt, u, s, e);
        let w = post.rows@[kr];
        assert forall|i: int|
            w.range_start <= i < w.range_start + w.length implies pre.held_ids(rt, u).contains(
            i,
        ) by {
            assert(row_covers(w, i));
            assert(post.held_ids(rt, u).contains(i));
        }
        let k2 = lemma_contiguous_cover(
            pre,
            rt,
            u,
            w.range_start as int,
            w.range_start + w.length,
        );
        assert(k2 == kq) by {
            if k2 != kq {
                assert(rows_strictly_apart(pre.rows@[k2], pre.rows@[kq]));
                assert(row_covers(pre.rows@[k2], s));
                assert(row_covers(pre.rows@[kq], s));
            }
        }
        assert(w.range_start == r.range_start && w.length == r.length);
        assert(w.user == r.user && w.reservation_type == r.reservation_type);
        assert(w.time == r.time) by {
            assert(row_time_ok(pre, rt, w));
            let iw = choose|iw: int|
                row_covers(w, iw) && pre.covers_at(rt, u, iw, w.time as int);
            assert(row_covers(r, iw));
            assert(pre.covers_at(rt, u, iw, r.time as int));
            crate::store::lemma_covers_at_unique(pre, rt, u, iw, r.time as int, w.time as int);
        }
        assert(w == r);
        assert(post.rows@.contains(r));
    }
}

/// Compaction is idempotent: a second pass over a namespace changes none of
/// its rows, and rows of other namespaces were never touched to begin with.
pub proof fn lemma_compaction_idempotent(
    pre: ReservationStore,
    mid: ReservationStore,
    post: ReservationStore,
    index: ContentIndex,
    rt: ReservationType,
)
    requires
        pre.wf(),
        mid.wf(),
        compacted(pre, mid, index, rt),
        compacted(mid, post, index, rt),
    ensures
        forall|r: ReservationRange|
            #[trigger] post.rows@.contains(r) && r.reservation_type == rt ==> mid.rows@.contains(
                r,
            ),
        forall|r: ReservationRange|
            #[trigger] mid.rows@.contains(r) && r.reservation_type == rt ==> post.rows@.contains(
                r,
            ),
        rows_other_ns(post.rows@, rt) == rows_other_ns(mid.rows@, rt),
{
    assert(user_rows_apart(mid, rt));
    assert forall|u: int| #[trigger] mid.held_ids(rt, u).disjoint(index.uploads(rt, u)) by {
        assert(mid.held_ids(rt, u) == pre.held_ids(rt, u).difference(index.uploads(rt, u)));
        assert(pre.held_ids(rt, u).difference(index.uploads(rt, u)).disjoint(
            index.uploads(rt, u),
        ));
    }
    lemma_compacted_fixed_point(mid, post, index, rt);
}

/// Compaction never takes anything from a user who has published none of
/// their held ids: their held set afterwards is exactly what it was.
pub proof fn lemma_compaction_preserves_unpublished(
    pre: ReservationStore,
    post: ReservationStore,
    index: ContentIndex,
    rt: ReservationType,
    user: int,
)
    requires
        compacted(pre, post, index, rt),
        pre.held_ids(rt, user).disjoint(index.uploads(rt, user)),
    ensures
        post.held_ids(rt, user) == pre.held_ids(rt, user),
{
    assert(pre.held_ids(rt, user).difference(index.uploads(rt, user)) =~= pre.held_ids(rt, user));
}

fn contains_user(v: &Vec<i64>, u: i64) -> (r: bool)
    ensures
        r == v@.contains(u),
{
    let mut k: usize = 0;
    while k < v.len()
        invariant
            0 <= k <= v@.len(),
            forall|j: int| 0 <= j < k ==> v@[j] != u,
        decreases v@.len() - k,
    {
        if v[k] == u {
            assert(v@.contains(u));
            return true;
        }
        k = k + 1;
    }
    false
}

/// The distinct holders of `rt` rows, in order of first appearance.
fn collect_rt_users(store: &ReservationStore, rt: ReservationType) -> (r: Vec<i64>)
    ensures
        r@ == distinct_users(store.rows@, rt),
{
    let mut users: Vec<i64> = Vec::new();
    let mut k: usize = 0;
    while k < store.rows.len()
        invariant
            0 <= k <= store.rows@.len(),
            users@ == distinct_users(store.rows@.take(k as int), rt),
        decreases store.rows@.len() - k,
    {
        proof {
            assert(store.rows@.take(k + 1).drop_last() =~= store.rows@.take(k as int));
            assert(store.rows@.take(k + 1).last() == store.rows@[k as int]);
        }
        let row = store.rows[k];
        if row.reservation_type == rt && !contains_user(&users, row.user) {
            users.push(row.user);
        }
        k = k + 1;
    }
    proof {
        assert(store.rows@.take(store.rows@.len() as int) =~= store.rows@);
    }
    users
}

/// Rebuilds one user's rows of namespace `rt`: their held ids minus their
/// published ids, merged into canonical runs.
fn rebuild_user_rows(
    store: &ReservationStore,
    index: &ContentIndex,
    rt: ReservationType,
    u: i64,
) -> (r: Vec<ReservationRange>)
    requires
        store.wf(),
        index.wf(),
    ensures
        forall|k: int|
            0 <= k < r@.len() ==> (#[trigger] r@[k]).reservation_type == rt && r@[k].user == u
                && row_wf(r@[k]),
        seq_user_ids(r@, rt, u as int) == store.held_ids(rt, u as int).difference(
            index.uploads(rt, u as int),
        ),
        forall|k: int, l: int|
            0 <= k < r@.len() && 0 <= l < r@.len() && k != l ==> rows_strictly_apart(
                #[trigger] r@[k],
                #[trigger] r@[l],
            ),
        forall|k: int| 0 <= k < r@.len() ==> row_time_ok(*store, rt, #[trigger] r@[k]),
{
    let stamps = crate::rowset::collect_overlapping_stamps(store, rt, u, 1, i32::MAX - 1);
    proof {
        assert(store.held_overlapping(rt, u as int, 1int, (i32::MAX - 1) as int)
            =~= store.held_ids(rt, u as int)) by {
            assert forall|i: int| store.held_ids(rt, u as int).contains(i) implies
                store.held_overlapping(rt, u as int, 1int, (i32::MAX - 1) as int).contains(i) by {
                let k = choose|k: int|
                    0 <= k < store.rows@.len() && (#[trigger] store.rows@[k]).reservation_type
                        == rt && store.rows@[k].user == u as int && row_covers(store.rows@[k], i);
                assert(row_wf(store.rows@[k]));
                assert(crate::store::row_overlaps(store.rows@[k], 1int, (i32::MAX - 1) as int));
            }
        }
    }
    let uploads = crate::quota::get_user_uploads(index, rt, u);
    let remaining = crate::rowset::remove_stamps_in(&stamps, &uploads);
    proof {
        crate::runs::lemma_runs_of_props(remaining@);
    }
    let runs = crate::runs::merge_to_runs(&remaining);
    let rows = crate::rowset::rows_from_runs(u, rt, &runs);
    proof {
        let rs = runs@;
        assert(forall|k: int|
            0 <= k < rows@.len() ==> rows@[k] == crate::rowset::row_of_run(u, rt, rs[k]));
        assert forall|k: int|
            0 <= k < rows@.len() implies (#[trigger] rows@[k]).reservation_type == rt
            && rows@[k].user == u && row_wf(rows@[k]) by {
            assert(crate::runs::run_wf(rs[k]));
        }
        assert(seq_user_ids(rows@, rt, u as int) =~= store.held_ids(rt, u as int).difference(
            index.uploads(rt, u as int),
        )) by {
            assert forall|i: int| seq_user_ids(rows@, rt, u as int).contains(i) implies
                crate::runs::stamp_ids(remaining@).contains(i) by {
                let k = choose|k: int|
                    0 <= k < rows@.len() && (#[trigger] rows@[k]).reservation_type == rt
                        && rows@[k].user == u as int && row_covers(rows@[k], i);
                assert(crate::runs::run_covers(rs[k], i));
                assert(crate::runs::runs_ids(rs).contains(i));
            }
            assert forall|i: int| crate::runs::stamp_ids(remaining@).contains(i) implies
                seq_user_ids(rows@, rt, u as int).contains(i) by {
                assert(crate::runs::runs_ids(rs).contains(i));
                let k = choose|k: int| 0 <= k < rs.len() && crate::runs::run_covers(rs[k], i);
                assert(row_covers(rows@[k], i));
            }
        }
        assert forall|k: int, l: int|
            0 <= k < rows@.len() && 0 <= l < rows@.len() && k != l implies rows_strictly_apart(
            #[trigger] rows@[k],
            #[trigger] rows@[l],
        ) by {
            if k < l {
                assert(rs[k].start + rs[k].length < rs[l].start);
            } else {
                assert(rs[l].start + rs[l].length < rs[k].start);
            }
        }
        assert forall|k: int| 0 <= k < rows@.len() implies row_time_ok(
            *store,
            rt,
            #[trigger] rows@[k],
        ) by {
            let r = rows@[k];
            assert(crate::runs::run_time_ok(remaining@, rs[k]));
            assert forall|i: int, t: int|
                row_covers(r, i) && store.covers_at(rt, u as int, i, t) implies t <= r.time by {
                assert(crate::runs::run_covers(rs[k], i));
                assert(crate::runs::runs_ids(rs).contains(i));
                assert(crate::runs::stamp_ids(remaining@).contains(i));
                let j = choose|j: int| 0 <= j < remaining@.len() && remaining@[j].id == i;
                assert(stamps@.contains(remaining@[j]));
                let j2 = choose|j2: int|
                    0 <= j2 < stamps@.len() && stamps@[j2] == remaining@[j];
                assert(store.covers_at(rt, u as int, i, remaining@[j].time as int));
                crate::store::lemma_covers_at_unique(
                    *store,
                    rt,
                    u as int,
                    i,
                    t,
                    remaining@[j].time as int,
                );
                assert(remaining@[j].time <= rs[k].time);
            }
            let j = choose|j: int|
                0 <= j < remaining@.len() && crate::runs::run_covers(
                    rs[k],
                    (#[trigger] remaining@[j]).id as int,
                ) && remaining@[j].time == rs[k].time;
            assert(stamps@.contains(remaining@[j]));
            let j2 = choose|j2: int| 0 <= j2 < stamps@.len() && stamps@[j2] == remaining@[j];
            assert(store.covers_at(rt, u as int, remaining@[j].id as int, r.time as int));
            assert(row_covers(r, remaining@[j].id as int));
        }
    }
    rows
}

/// Compacts namespace `rt`: for every user holding a reservation row there,
/// drops the ids published under the user's own posts and merges what
/// remains into the minimal set of rows. Labels and other namespaces are
/// left untouched.
pub fn optimise_reservations(
    rt: ReservationType,
    store: &mut ReservationStore,
    index: &ContentIndex,
)
    requires
        old(store).wf(),
        index.wf(),
    ensures
        final(store).wf(),
        compacted(*old(store), *final(store), *index, rt),
{
    let users = collect_rt_users(store, rt);
    proof {
        lemma_distinct_users_props(store.rows@, rt);
    }

    let mut new_rows: Vec<ReservationRange> = Vec::new();
    let mut m: usize = 0;
    while m < users.len()
        invariant
            *store == *old(store),
            store.wf(),
            index.wf(),
            users@ == distinct_users(store.rows@, rt),
            users@.no_duplicates(),
            forall|uu: i64|
                users@.contains(uu) <==> exists|k: int|
                    0 <= k < store.rows@.len() && (#[trigger] store.rows@[k]).reservation_type
                        == rt && store.rows@[k].user == uu,
            0 <= m <= users@.len(),
            forall|k: int|
                0 <= k < new_rows@.len() ==> (#[trigger] new_rows@[k]).reservation_type == rt
                    && users@.take(m as int).contains(new_rows@[k].user) && row_wf(new_rows@[k]),
            forall|m2: int|
                0 <= m2 < m ==> #[trigger] seq_user_ids(new_rows@, rt, users@[m2] as int)
                    == store.held_ids(rt, users@[m2] as int).difference(
                    index.uploads(rt, users@[m2] as int),
                ),
            forall|k: int, l: int|
                0 <= k < l < new_rows@.len() ==> rows_disjoint(
                    #[trigger] new_rows@[k],
                    #[trigger] new_rows@[l],
                ),
            forall|k: int, l: int|
                0 <= k < new_rows@.len() && 0 <= l < new_rows@.len() && k != l
                    && (#[trigger] new_rows@[k]).user == (#[trigger] new_rows@[l]).user
                    ==> rows_strictly_apart(new_rows@[k], new_rows@[l]),
            forall|k: int| 0 <= k < new_rows@.len() ==> row_time_ok(
                *store,
                rt,
                #[trigger] new_rows@[k],
            ),
        decreases users@.len() - m,
    {
        let u = users[m];
        let mut block = rebuild_user_rows(store, index, rt, u);
        let ghost prev = new_rows@;
        let ghost blockv = block@;
        new_rows.append(&mut block);
        proof {
            assert(new_rows@ == prev + blockv);
            assert(forall|k: int| 0 <= k < prev.len() ==> new_rows@[k] == prev[k]);
            assert(forall|k: int|
                prev.len() <= k < new_rows@.len() ==> new_rows@[k] == blockv[k - prev.len()]);
            assert(!users@.take(m as int).contains(u)) by {
                if users@.take(m as int).contains(u) {
                    let j = choose|j: int|
                        0 <= j < users@.take(m as int).len() && users@.take(m as int)[j] == u;
                    assert(users@[j] == u && users@[m as int] == u);
                }
            }
            assert forall|k: int|
                0 <= k < new_rows@.len() implies (#[trigger] new_rows@[k]).reservation_type == rt
                && users@.take(m + 1).contains(new_rows@[k].user) && row_wf(new_rows@[k]) by {
                if k < prev.len() {
                    let uu = prev[k].user;
                    assert(users@.take(m as int).contains(uu));
                    let j = choose|j: int|
                        0 <= j < users@.take(m as int).len() && users@.take(m as int)[j] == uu;
                    assert(users@.take(m + 1)[j] == uu);
                } else {
                    assert(new_rows@[k] == blockv[k - prev.len()]);
                    assert(new_rows@[k].user == u);
                    assert(users@.take(m + 1)[m as int] == u);
                }
            }
            assert forall|m2: int| 0 <= m2 < m + 1 implies #[trigger] seq_user_ids(
                new_rows@,
                rt,
                users@[m2] as int,
            ) == store.held_ids(rt, users@[m2] as int).difference(
                index.uploads(rt, users@[m2] as int),
            ) by {
                if m2 < m {
                    assert(users@[m2] != u);
                    assert(seq_user_ids(new_rows@, rt, users@[m2] as int) =~= seq_user_ids(
                        prev,
                        rt,
                        users@[m2] as int,
                    )) by {
                        assert forall|i: int|
                            seq_user_ids(new_rows@, rt, users@[m2] as int).contains(i) implies
                            seq_user_ids(prev, rt, users@[m2] as int).contains(i) by {
                            let k = choose|k: int|
                                0 <= k < new_rows@.len() && (#[trigger] new_rows@[k]).reservation_type
                                    == rt && new_rows@[k].user == users@[m2] as int && row_covers(
                                    new_rows@[k],
                                    i,
                                );
                            assert(k < prev.len());
                            assert(prev[k] == new_rows@[k]);
                        }
                        assert forall|i: int|
                            seq_user_ids(prev, rt, users@[m2] as int).contains(i) implies
                            seq_user_ids(new_rows@, rt, users@[m2] as int).contains(i) by {
                            let k = choose|k: int|
                                0 <= k < prev.len() && (#[trigger] prev[k]).reservation_type == rt
                                    && prev[k].user == users@[m2] as int && row_covers(prev[k], i);
                            assert(new_rows@[k] == prev[k]);
                        }
                    }
                } else {
                    assert(users@[m2] == u);
                    assert(seq_user_ids(new_rows@, rt, u as int) =~= seq_user_ids(
                        blockv,
                        rt,
                        u as int,
                    )) by {
                        assert forall|i: int|
                            seq_user_ids(new_rows@, rt, u as int).contains(i) implies seq_user_ids(
                            blockv,
                            rt,
                            u as int,
                        ).contains(i) by {
                            let k = choose|k: int|
                                0 <= k < new_rows@.len() && (#[trigger] new_rows@[k]).reservation_type
                                    == rt && new_rows@[k].user == u as int && row_covers(
                                    new_rows@[k],
                                    i,
                                );
                            assert(k >= prev.len());
                            assert(blockv[k - prev.len()] == new_rows@[k]);
                        }
                        assert forall|i: int|
                            seq_user_ids(blockv, rt, u as int).contains(i) implies seq_user_ids(
                            new_rows@,
                            rt,
                            u as int,
                        ).contains(i) by {
                            let k = choose|k: int|
                                0 <= k < blockv.len() && (#[trigger] blockv[k]).reservation_type
                                    == rt && blockv[k].user == u as int && row_covers(blockv[k], i);
                            assert(new_rows@[k + prev.len()] == blockv[k]);
                        }
                    }
                }
            }
            assert forall|k: int, l: int| 0 <= k < l < new_rows@.len() implies rows_disjoint(
                #[trigger] new_rows@[k],
                #[trigger] new_rows@[l],
            ) by {
                if l < prev.len() {
                    assert(rows_disjoint(prev[k], prev[l]));
                } else if k >= prev.len() {
                    let a = blockv[k - prev.len()];
                    let b = blockv[l - prev.len()];
                    assert(rows_strictly_apart(a, b));
                } else {
                    let a = prev[k];
                    let b = blockv[l - prev.len()];
                    assert(a.user != u) by {
                        assert(users@.take(m as int).contains(a.user));
                    }
                    assert forall|i: int| !(row_covers(a, i) && row_covers(b, i)) by {
                        if row_covers(a, i) && row_covers(b, i) {
                            let uu = a.user;
                            assert(users@.take(m as int).contains(uu));
                            let j = choose|j: int|
                                0 <= j < users@.take(m as int).len() && users@.take(m as int)[j]
                                    == uu;
                            assert(seq_user_ids(prev, rt, uu as int).contains(i));
                            assert(store.held_ids(rt, uu as int).contains(i));
                            assert(seq_user_ids(blockv, rt, u as int).contains(i));
                            assert(store.held_ids(rt, u as int).contains(i));
                            let k1 = choose|k1: int|
                                0 <= k1 < store.rows@.len() && (#[trigger] store.rows@[k1]).reservation_type
                                    == rt && store.rows@[k1].user == uu as int && row_covers(
                                    store.rows@[k1],
                                    i,
                                );
                            let k2 = choose|k2: int|
                                0 <= k2 < store.rows@.len() && (#[trigger] store.rows@[k2]).reservation_type
                                    == rt && store.rows@[k2].user == u as int && row_covers(
                                    store.rows@[k2],
                                    i,
                                );
                            assert(k1 != k2);
                            if k1 < k2 {
                                assert(rows_disjoint(store.rows@[k1], store.rows@[k2]));
                            } else {
                                assert(rows_disjoint(store.rows@[k2], store.rows@[k1]));
                            }
                            assert(false);
                        }
                    }
                    crate::store::lemma_no_common_id_disjoint(a, b);
                }
            }
            assert forall|k: int, l: int|
                0 <= k < new_rows@.len() && 0 <= l < new_rows@.len() && k != l
                    && (#[trigger] new_rows@[k]).user == (#[trigger] new_rows@[l]).user implies
                rows_strictly_apart(new_rows@[k], new_rows@[l]) by {
                if k < prev.len() && l < prev.len() {
                } else if k >= prev.len() && l >= prev.len() {
                    assert(new_rows@[k] == blockv[k - prev.len()]);
                    assert(new_rows@[l] == blockv[l - prev.len()]);
                } else {
                    let ka = if k < prev.len() {
                        k
                    } else {
                        l
                    };
                    let kb = if k < prev.len() {
                        l
                    } else {
                        k
                    };
                    assert(prev[ka].user != u) by {
                        assert(users@.take(m as int).contains(prev[ka].user));
                    }
                    assert(new_rows@[kb].user == u);
                    assert(false);
                }
            }
        }
        m = m + 1;
    }
    let ghost newv = new_rows@;
    proof {
        assert(users@.take(users@.len() as int) =~= users@);
    }

    let ghost pre_rows = store.rows@;
    let mut i: usize = 0;
    let ghost mut p: int = 0int;
    proof {
        assert(pre_rows.take(0) =~= Seq::<ReservationRange>::empty());
        assert(pre_rows.skip(0) =~= pre_rows);
    }
    while i < store.rows.len()
        invariant
            pre_rows == old(store).rows@,
            store.labels@ == old(store).labels@,
            store.wf(),
            0 <= p <= pre_rows.len(),
            i as int == rows_other_ns(pre_rows.take(p), rt).len(),
            store.rows@ == rows_other_ns(pre_rows.take(p), rt) + pre_rows.skip(p),
            forall|j: int| 0 <= j < i ==> (#[trigger] store.rows@[j]).reservation_type != rt,
        decreases pre_rows.len() - p,
    {
        proof {
            assert(pre_rows.skip(p).len() > 0);
            assert(p < pre_rows.len());
            assert(store.rows@[i as int] == pre_rows.skip(p)[0]);
            assert(pre_rows.skip(p)[0] == pre_rows[p]);
            assert(pre_rows.take(p + 1).drop_last() =~= pre_rows.take(p));
            assert(pre_rows.take(p + 1).last() == pre_rows[p]);
            assert(pre_rows.skip(p).drop_first() =~= pre_rows.skip(p + 1));
        }
        let row = store.rows[i];
        if row.reservation_type == rt {
            let ghost before = store.rows@;
            store.rows.remove(i);
            proof {
                assert(forall|j: int|
                    0 <= j < store.rows@.len() ==> store.rows@[j] == if j < i {
                        before[j]
                    } else {
                        before[j + 1]
                    });
                assert(store.rows@ =~= rows_other_ns(pre_rows.take(p + 1), rt) + pre_rows.skip(
                    p + 1,
                ));
                assert(store.wf());
                p = p + 1;
            }
        } else {
            proof {
                assert(rows_other_ns(pre_rows.take(p + 1), rt) =~= rows_other_ns(
                    pre_rows.take(p),
                    rt,
                ).push(pre_rows[p]));
                assert(store.rows@ =~= rows_other_ns(pre_rows.take(p + 1), rt) + pre_rows.skip(
                    p + 1,
                ));
                p = p + 1;
            }
            i = i + 1;
        }
    }
    proof {
        assert(pre_rows.skip(p).len() == 0);
        assert(p == pre_rows.len());
        assert(pre_rows.take(p) =~= pre_rows);
        assert(store.rows@ =~= rows_other_ns(pre_rows, rt));
    }
    let ghost kept = store.rows@;
    store.rows.append(&mut new_rows);
    proof {
        assert(store.rows@ == kept + newv);
        assert(forall|k: int| 0 <= k < kept.len() ==> store.rows@[k] == kept[k]);
        assert(forall|k: int|
            kept.len() <= k < store.rows@.len() ==> store.rows@[k] == newv[k - kept.len()]);
        assert(forall|k: int| 0 <= k < kept.len() ==> (#[trigger] kept[k]).reservation_type != rt);
        assert(forall|k: int|
            0 <= k < newv.len() ==> (#[trigger] newv[k]).reservation_type == rt && row_wf(
                newv[k],
            ));
        // the store is well-formed again
        assert forall|k: int, l: int| 0 <= k < l < store.rows@.len() implies rows_disjoint(
            #[trigger] store.rows@[k],
            #[trigger] store.rows@[l],
        ) by {
            if l < kept.len() {
            } else if k >= kept.len() {
                assert(rows_disjoint(newv[k - kept.len()], newv[l - kept.len()]));
            } else {
                assert(store.rows@[k].reservation_type != rt);
                assert(store.rows@[l].reservation_type == rt);
            }
        }
        assert(final(store).wf());
        // other namespaces pass through unchanged
        lemma_rows_other_ns_concat(kept, newv, rt);
        lemma_rows_other_ns_none_rt(kept, rt);
        lemma_rows_other_ns_all_rt(newv, rt);
        assert(rows_other_ns(store.rows@, rt) =~= rows_other_ns(old(store).rows@, rt));
        // each user now holds exactly their old ids minus their uploads
        assert forall|u: int| #[trigger] final(store).held_ids(rt, u) == old(store).held_ids(
            rt,
            u,
        ).difference(index.uploads(rt, u)) by {
            assert(final(store).held_ids(rt, u) =~= seq_user_ids(newv, rt, u)) by {
                assert forall|i2: int|
                    final(store).held_ids(rt, u).contains(i2) implies seq_user_ids(
                    newv,
                    rt,
                    u,
                ).contains(i2) by {
                    let k = choose|k: int|
                        0 <= k < store.rows@.len() && (#[trigger] store.rows@[k]).reservation_type
                            == rt && store.rows@[k].user == u && row_covers(store.rows@[k], i2);
                    assert(k >= kept.len());
                    assert(newv[k - kept.len()] == store.rows@[k]);
                }
                assert forall|i2: int|
                    seq_user_ids(newv, rt, u).contains(i2) implies final(store).held_ids(
                    rt,
                    u,
                ).contains(i2) by {
                    let k = choose|k: int|
                        0 <= k < newv.len() && (#[trigger] newv[k]).reservation_type == rt
                            && newv[k].user == u && row_covers(newv[k], i2);
                    assert(store.rows@[k + kept.len()] == newv[k]);
                }
            }
            if exists|j: int| 0 <= j < users@.len() && users@[j] as int == u {
                let j = choose|j: int| 0 <= j < users@.len() && users@[j] as int == u;
                assert(seq_user_ids(newv, rt, users@[j] as int) == old(store).held_ids(
                    rt,
                    users@[j] as int,
                ).difference(index.uploads(rt, users@[j] as int)));
            } else {
                assert(seq_user_ids(newv, rt, u) =~= Set::<int>::empty()) by {
                    if exists|i2: int| seq_user_ids(newv, rt, u).contains(i2) {
                        let i2 = choose|i2: int| seq_user_ids(newv, rt, u).contains(i2);
                        let k = choose|k: int|
                            0 <= k < newv.len() && (#[trigger] newv[k]).reservation_type == rt
                                && newv[k].user == u && row_covers(newv[k], i2);
                        assert(users@.contains(newv[k].user));
                        let j = choose|j: int| 0 <= j < users@.len() && users@[j] == newv[k].user;
                        assert(users@[j] as int == u);
                        assert(false);
                    }
                }
                assert(old(store).held_ids(rt, u) =~= Set::<int>::empty()) by {
                    if exists|i2: int| old(store).held_ids(rt, u).contains(i2) {
                        let i2 = choose|i2: int| old(store).held_ids(rt, u).contains(i2);
                        let k = choose|k: int|
                            0 <= k < old(store).rows@.len() && (#[trigger] old(
                                store,
                            ).rows@[k]).reservation_type == rt && old(store).rows@[k].user == u
                                && row_covers(old(store).rows@[k], i2);
                        assert(users@.contains(old(store).rows@[k].user));
                        let j = choose|j: int|
                            0 <= j < users@.len() && users@[j] == old(store).rows@[k].user;
                        assert(users@[j] as int == u);
                        assert(false);
                    }
                }
                assert(Set::<int>::empty().difference(index.uploads(rt, u)) =~= Set::<
                    int,
                >::empty());
            }
        }
        // timestamps and minimality carry over from the rebuilt blocks
        assert forall|k: int|
            0 <= k < store.rows@.len() && (#[trigger] store.rows@[k]).reservation_type == rt
            implies row_time_ok(*old(store), rt, store.rows@[k]) by {
            assert(k >= kept.len());
            assert(store.rows@[k] == newv[k - kept.len()]);
        }
        assert forall|k: int, l: int|
            0 <= k < store.rows@.len() && 0 <= l < store.rows@.len() && k != l
                && (#[trigger] store.rows@[k]).reservation_type == rt
                && (#[trigger] store.rows@[l]).reservation_type == rt && store.rows@[k].user
                == store.rows@[l].user implies rows_strictly_apart(
            store.rows@[k],
            store.rows@[l],
        ) by {
            assert(k >= kept.len() && l >= kept.len());
            assert(store.rows@[k] == newv[k - kept.len()]);
            assert(store.rows@[l] == newv[l - kept.len()]);
        }
    }
}

} // verus!
