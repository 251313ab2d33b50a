//! The data the engine works on: a snapshot of the reservation store and a
//! snapshot of the published-content index and post/author registry.
//!
//! The surrounding application loads these from its persistent store and
//! search index, lets the engine compute, and writes the resulting rows back
//! transactionally.

use vstd::prelude::*;
use crate::types::ReservationType;

verus! {

/// The sentinel post id marking published content not attributable to any
/// post; such content always blocks a reservation.
pub const UNCLAIMED: i32 = -1;

/// One persisted reservation row: `owner` holds the ids
/// `[range_start, range_start + length)` of one namespace.
#[derive(Clone, Copy, PartialEq, Eq, Structural, Debug)]
pub struct ReservationRange {
    pub user: i64,
    pub reservation_type: ReservationType,
    pub range_start: i32,
    pub length: i32,
    pub time: i64,
}

/// A free-text annotation on a single reserved id.
#[derive(Clone, PartialEq, Eq, Debug)]
pub struct ReservationLabel {
    pub user: i64,
    pub reservation_type: ReservationType,
    pub id: i32,
    pub text: String,
}

/// One published content id and the post it belongs to (`UNCLAIMED` if it
/// cannot be attributed).
#[derive(Clone, Copy, PartialEq, Eq, Structural, Debug)]
pub struct PublishedRecord {
    pub reservation_type: ReservationType,
    pub id: i32,
    pub post: i32,
}

/// The authors of one post, from the post/author registry.
#[derive(Clone, PartialEq, Eq, Debug)]
pub struct PostAuthors {
    pub post: i32,
    pub users: Vec<i64>,
}

/// A snapshot of the reservation store.
#[derive(Clone, PartialEq, Eq, Debug)]
pub struct ReservationStore {
    pub rows: Vec<ReservationRange>,
    pub labels: Vec<ReservationLabel>,
}

/// A snapshot of the search index over published content, together with the
/// post/author registry.
#[derive(Clone, PartialEq, Eq, Debug)]
pub struct ContentIndex {
    pub records: Vec<PublishedRecord>,
    pub authors: Vec<PostAuthors>,
}

/// The ids `[start, start + length)` of a requested range.
pub open spec fn range_set(start: int, length: int) -> Set<int> {
    Set::new(|i: int| start <= i < start + length)
}

pub open spec fn row_covers(r: ReservationRange, i: int) -> bool {
    r.range_start <= i < r.range_start + r.length
}

/// A persisted row is non-degenerate and its ids are usable content ids.
pub open spec fn row_wf(r: ReservationRange) -> bool {
    &&& 1 <= r.range_start
    &&& 1 <= r.length
    &&& r.range_start + r.length <= i32::MAX
}

/// Two rows of the same namespace never share an id.
pub open spec fn rows_disjoint(a: ReservationRange, b: ReservationRange) -> bool {
    a.reservation_type == b.reservation_type ==> (a.range_start + a.length <= b.range_start
        || b.range_start + b.length <= a.range_start)
}

/// A row overlaps the requested range `[start, start + length)`.
pub open spec fn row_overlaps(r: ReservationRange, start: int, length: int) -> bool {
    r.range_start < start + length && start < r.range_start + r.length
}

impl ReservationStore {
    /// The store invariant: every row is well-formed, and within one
    /// namespace no two rows share an id (the validator refuses any grant
    /// that would overlap an existing row, whoever owns it).
    pub open spec fn wf(self) -> bool {
        &&& (forall|k: int| 0 <= k < self.rows@.len() ==> row_wf(#[trigger] self.rows@[k]))
        &&& (forall|k: int, l: int|
            0 <= k < l < self.rows@.len() ==> rows_disjoint(
                #[trigger] self.rows@[k],
                #[trigger] self.rows@[l],
            ))
    }

    /// The ids `user` holds reserved in namespace `rt`.
    pub open spec fn held_ids(self, rt: ReservationType, user: int) -> Set<int> {
        Set::new(
            |i: int|
                exists|k: int|
                    0 <= k < self.rows@.len() && (#[trigger] self.rows@[k]).reservation_type == rt
                        && self.rows@[k].user == user && row_covers(self.rows@[k], i),
        )
    }

    /// All ids reserved in namespace `rt`, by anyone.
    pub open spec fn reserved_ids(self, rt: ReservationType) -> Set<int> {
        Set::new(
            |i: int|
                exists|k: int|
                    0 <= k < self.rows@.len() && (#[trigger] self.rows@[k]).reservation_type == rt
                        && row_covers(self.rows@[k], i),
        )
    }

    /// The ids `user` holds in rows of namespace `rt` that overlap
    /// `[start, start + length)`.
    pub open spec fn held_overlapping(
        self,
        rt: ReservationType,
        user: int,
        start: int,
        length: int,
    ) -> Set<int> {
        Set::new(
            |i: int|
                exists|k: int|
                    0 <= k < self.rows@.len() && (#[trigger] self.rows@[k]).reservation_type == rt
                        && self.rows@[k].user == user && row_covers(self.rows@[k], i)
                        && row_overlaps(self.rows@[k], start, length),
        )
    }

    /// In a well-formed store, the row covering an id of `(rt, user)` is
    /// unique, so this names the timestamp attached to a held id.
    pub open spec fn covers_at(self, rt: ReservationType, user: int, i: int, t: int) -> bool {
        exists|k: int|
            0 <= k < self.rows@.len() && (#[trigger] self.rows@[k]).reservation_type == rt
                && self.rows@[k].user == user && row_covers(self.rows@[k], i) && self.rows@[k].time
                == t
    }

    /// The store holds a label for `(user, rt, id)`.
    pub open spec fn has_label(self, rt: ReservationType, user: int, id: int) -> bool {
        exists|k: int|
            0 <= k < self.labels@.len() && (#[trigger] self.labels@[k]).reservation_type == rt
                && self.labels@[k].user == user && self.labels@[k].id == id
    }
}

impl ContentIndex {
    /// The index invariant: an id appears at most once per namespace, posts
    /// in the registry are real post ids (never the `UNCLAIMED` sentinel,
    /// never negative), each post appears once, and every published id is a
    /// usable content id.
    pub open spec fn wf(self) -> bool {
        &&& (forall|k: int, l: int|
            0 <= k < l < self.records@.len() ==> !((#[trigger] self.records@[k]).reservation_type
                == (#[trigger] self.records@[l]).reservation_type && self.records@[k].id
                == self.records@[l].id))
        &&& (forall|k: int| 0 <= k < self.authors@.len() ==> (#[trigger] self.authors@[k]).post >= 0)
        &&& (forall|k: int, l: int|
            0 <= k < l < self.authors@.len() ==> (#[trigger] self.authors@[k]).post != (
            #[trigger] self.authors@[l]).post)
        &&& (forall|k: int| 0 <= k < self.records@.len() ==> 1 <= (#[trigger] self.records@[k]).id
            < i32::MAX)
    }

    /// `user` is among the known authors of `post`.
    pub open spec fn owns(self, user: int, post: int) -> bool {
        exists|k: int|
            0 <= k < self.authors@.len() && (#[trigger] self.authors@[k]).post == post
                && self.authors@[k].users@.contains(user as i64)
    }

    /// An id of namespace `rt` is published.
    pub open spec fn published(self, rt: ReservationType, i: int) -> bool {
        exists|k: int|
            0 <= k < self.records@.len() && (#[trigger] self.records@[k]).reservation_type == rt
                && self.records@[k].id == i
    }

    /// An id of namespace `rt` is published under a post the user authors:
    /// the user's uploads, found by reverse lookup through the registry.
    pub open spec fn uploads(self, rt: ReservationType, user: int) -> Set<int> {
        Set::new(
            |i: int|
                exists|k: int|
                    0 <= k < self.records@.len() && (#[trigger] self.records@[k]).reservation_type
                        == rt && self.records@[k].id == i && self.owns(
                        user,
                        self.records@[k].post as int,
                    ),
        )
    }

    /// An id in namespace `rt` is published and blocks `user`: it either
    /// cannot be attributed to a post, or belongs to a post whose known
    /// authors do not include the user.
    pub open spec fn blocks(self, rt: ReservationType, user: int, i: int) -> bool {
        exists|k: int|
            0 <= k < self.records@.len() && (#[trigger] self.records@[k]).reservation_type == rt
                && self.records@[k].id == i && (self.records@[k].post == UNCLAIMED || !self.owns(
                user,
                self.records@[k].post as int,
            ))
    }

    /// All published ids of namespace `rt`.
    pub open spec fn published_ids(self, rt: ReservationType) -> Set<int> {
        Set::new(|i: int| self.published(rt, i))
    }
}

/// In a well-formed store, the timestamp attached to a held id is unique:
/// only one row of the namespace covers it.
pub proof fn lemma_covers_at_unique(
    store: ReservationStore,
    rt: ReservationType,
    user: int,
    i: int,
    t1: int,
    t2: int,
)
    requires
        store.wf(),
        store.covers_at(rt, user, i, t1),
        store.covers_at(rt, user, i, t2),
    ensures
        t1 == t2,
{
    let k1 = choose|k: int|
        0 <= k < store.rows@.len() && (#[trigger] store.rows@[k]).reservation_type == rt
            && store.rows@[k].user == user && row_covers(store.rows@[k], i) && store.rows@[k].time
            == t1;
    let k2 = choose|k: int|
        0 <= k < store.rows@.len() && (#[trigger] store.rows@[k]).reservation_type == rt
            && store.rows@[k].user == user && row_covers(store.rows@[k], i) && store.rows@[k].time
            == t2;
    if k1 != k2 {
        assert(rows_disjoint(store.rows@[k1], store.rows@[k2]));
    }
}

/// Two well-formed rows without a common id have disjoint ranges.
pub proof fn lemma_no_common_id_disjoint(a: ReservationRange, b: ReservationRange)
    requires
        row_wf(a),
        row_wf(b),
        forall|i: int| !(row_covers(a, i) && row_covers(b, i)),
    ensures
        a.range_start + a.length <= b.range_start || b.range_start + b.length <= a.range_start,
{
    if !(a.range_start + a.length <= b.range_start || b.range_start + b.length
        <= a.range_start) {
        let i = if a.range_start >= b.range_start {
            a.range_start as int
        } else {
            b.range_start as int
        };
        assert(row_covers(a, i) && row_covers(b, i));
    }
}

/// Whether `user` is among the known authors of `post`, by a scan of the
/// registry snapshot.
pub fn post_owned_by(index: &ContentIndex, user: i64, post: i32) -> (r: bool)
    ensures
        r == index.owns(user as int, post as int),
{
    let mut k: usize = 0;
    while k < index.authors.len()
        invariant
            0 <= k <= index.authors@.len(),
            forall|j: int|
                0 <= j < k ==> !((#[trigger] index.authors@[j]).post == post
                    && index.authors@[j].users@.contains(user)),
        decreases index.authors@.len() - k,
    {
        if index.authors[k].post == post {
            let users = &index.authors[k].users;
            let mut j: usize = 0;
            while j < users.len()
                invariant
                    0 <= k < index.authors@.len(),
                    index.authors@[k as int].post == post,
                    0 <= j <= users@.len(),
                    users@ == index.authors@[k as int].users@,
                    forall|l: int| 0 <= l < j ==> users@[l] != user,
                decreases users@.len() - j,
            {
                if users[j] == user {
                    assert(index.authors@[k as int].users@[j as int] == user);
                    assert(index.authors@[k as int].users@.contains(user));
                    assert(index.owns(user as int, post as int));
                    return true;
                }
                j = j + 1;
            }
            assert(!index.authors@[k as int].users@.contains(user));
        }
        k = k + 1;
    }
    false
}

} // verus!
