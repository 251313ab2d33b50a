use id_reserve::align::alignment_for;
use id_reserve::decision::ReserveRangeResult;
use id_reserve::compact::optimise_reservations;
use id_reserve::finder::find_reservable_range;
use id_reserve::grant::create_reservation;
use id_reserve::mutate::{delete_reservation, label_reservation};
use id_reserve::quota::{get_user_max_reservations, get_user_reservations, get_user_uploads};
use id_reserve::store::{
    ContentIndex, PostAuthors, PublishedRecord, ReservationLabel, ReservationRange,
    ReservationStore,
};
use id_reserve::types::{Character, ReservationType};
use id_reserve::validator::check_reserve_range;

fn row(user: i64, rt: ReservationType, start: i32, length: i32, time: i64) -> ReservationRange {
    ReservationRange { user, reservation_type: rt, range_start: start, length, time }
}

fn rec(rt: ReservationType, id: i32, post: i32) -> PublishedRecord {
    PublishedRecord { reservation_type: rt, id, post }
}

fn store_of(rows: Vec<ReservationRange>) -> ReservationStore {
    ReservationStore { rows, labels: Vec::new() }
}

fn empty_index() -> ContentIndex {
    ContentIndex { records: Vec::new(), authors: Vec::new() }
}

fn index_of(records: Vec<PublishedRecord>, authors: Vec<(i32, Vec<i64>)>) -> ContentIndex {
    ContentIndex {
        records,
        authors: authors.into_iter().map(|(post, users)| PostAuthors { post, users }).collect(),
    }
}

fn held_ids(store: &ReservationStore, rt: ReservationType, user: i64) -> Vec<i32> {
    let mut ids = Vec::new();
    for r in &store.rows {
        if r.reservation_type == rt && r.user == user {
            for i in r.range_start..(r.range_start + r.length) {
                ids.push(i);
            }
        }
    }
    ids.sort();
    ids
}

#[test]
fn alignment_bands() {
    assert_eq!(alignment_for(1), 1);
    assert_eq!(alignment_for(9), 1);
    assert_eq!(alignment_for(10), 10);
    assert_eq!(alignment_for(37), 10);
    assert_eq!(alignment_for(99), 10);
    assert_eq!(alignment_for(100), 100);
    assert_eq!(alignment_for(240), 100);
    assert_eq!(alignment_for(1_000), 1_000);
    assert_eq!(alignment_for(2_000_000_000), 1_000_000_000);
}

#[test]
fn grant_then_find_never_reoffers() {
    let mut store = store_of(Vec::new());
    let index = empty_index();
    let r = create_reservation(1, ReservationType::Song, 100, 10, 50, &mut store, &index);
    assert_eq!(r, ReserveRangeResult::ValidRange);
    assert_eq!(store.rows.len(), 1);
    assert_eq!(store.rows[0], row(1, ReservationType::Song, 100, 10, 50));
    let next = find_reservable_range(ReservationType::Song, 10, 1, &store, &index);
    assert!(next >= 110);
    assert_eq!(next, 110);
}

#[test]
fn regrant_of_fully_held_range_grants_nothing() {
    // the user already holds every id of the request (one of them through
    // publication as well), so there is nothing new to grant
    let mut store = store_of(vec![row(1, ReservationType::Song, 100, 10, 10)]);
    let index = index_of(vec![rec(ReservationType::Song, 105, 7)], vec![(7, vec![1])]);
    let r = check_reserve_range(ReservationType::Song, 100, 10, 1, &store, &index);
    assert_eq!(r, ReserveRangeResult::InvalidRange);
    let r = create_reservation(1, ReservationType::Song, 100, 10, 99, &mut store, &index);
    assert_eq!(r, ReserveRangeResult::InvalidRange);
    assert_eq!(store.rows, vec![row(1, ReservationType::Song, 100, 10, 10)]);
    // the published id stops being tracked on the next compaction pass
    optimise_reservations(ReservationType::Song, &mut store, &index);
    assert_eq!(
        store.rows,
        vec![
            row(1, ReservationType::Song, 100, 5, 10),
            row(1, ReservationType::Song, 106, 4, 10),
        ]
    );
}

#[test]
fn foreign_published_id_blocks_whole_range() {
    let store = store_of(Vec::new());
    let index = index_of(vec![rec(ReservationType::Song, 107, 9)], vec![(9, vec![2])]);
    let r = check_reserve_range(ReservationType::Song, 100, 10, 1, &store, &index);
    assert_eq!(r, ReserveRangeResult::InvalidRange);
}

#[test]
fn unclaimed_published_id_blocks_whole_range() {
    let store = store_of(Vec::new());
    let index = index_of(vec![rec(ReservationType::Song, 107, -1)], Vec::new());
    let r = check_reserve_range(ReservationType::Song, 100, 10, 1, &store, &index);
    assert_eq!(r, ReserveRangeResult::InvalidRange);
}

#[test]
fn post_with_no_known_authors_blocks() {
    let store = store_of(Vec::new());
    let index = index_of(vec![rec(ReservationType::Song, 103, 8)], Vec::new());
    let r = check_reserve_range(ReservationType::Song, 100, 10, 1, &store, &index);
    assert_eq!(r, ReserveRangeResult::InvalidRange);
}

#[test]
fn fresh_user_quota_is_fifty() {
    let store = store_of(Vec::new());
    let index = empty_index();
    assert_eq!(get_user_max_reservations(&store, &index, ReservationType::Module, 1), 50);
    let r = check_reserve_range(ReservationType::Module, 10, 51, 1, &store, &index);
    assert_eq!(r, ReserveRangeResult::InvalidLength(50));
}

#[test]
fn quota_grows_with_published_count() {
    // thirty published modules: 50 + (30 / 2 rounded up to the next ten) = 70
    let mut records = Vec::new();
    for id in 1..=30 {
        records.push(rec(ReservationType::Module, id, 5));
    }
    let index = index_of(records, vec![(5, vec![1])]);
    let store = store_of(Vec::new());
    assert_eq!(get_user_max_reservations(&store, &index, ReservationType::Module, 1), 70);
    // other namespaces keep the plain floor
    assert_eq!(get_user_max_reservations(&store, &index, ReservationType::Song, 1), 50);
    // unpublished held ids count against the quota
    let store = store_of(vec![row(1, ReservationType::Module, 40, 5, 1)]);
    assert_eq!(get_user_max_reservations(&store, &index, ReservationType::Module, 1), 65);
}

#[test]
fn delete_splits_a_held_range() {
    let mut store = store_of(vec![row(1, ReservationType::Song, 100, 20, 3)]);
    delete_reservation(1, ReservationType::Song, 105, 5, &mut store);
    assert_eq!(
        store.rows,
        vec![
            row(1, ReservationType::Song, 100, 5, 3),
            row(1, ReservationType::Song, 110, 10, 3),
        ]
    );
    // nothing published: a compaction pass leaves the two rows as they are
    let index = empty_index();
    optimise_reservations(ReservationType::Song, &mut store, &index);
    assert_eq!(
        store.rows,
        vec![
            row(1, ReservationType::Song, 100, 5, 3),
            row(1, ReservationType::Song, 110, 10, 3),
        ]
    );
}

#[test]
fn delete_of_unheld_ids_is_refused() {
    let mut store = store_of(vec![row(1, ReservationType::Song, 100, 10, 3)]);
    store.labels.push(ReservationLabel {
        user: 1,
        reservation_type: ReservationType::Song,
        id: 107,
        text: String::from("wip"),
    });
    store.labels.push(ReservationLabel {
        user: 1,
        reservation_type: ReservationType::Song,
        id: 100,
        text: String::from("keep"),
    });
    // [105, 115) is not fully held: the rows stay, the labels in range go
    delete_reservation(1, ReservationType::Song, 105, 10, &mut store);
    assert_eq!(store.rows, vec![row(1, ReservationType::Song, 100, 10, 3)]);
    assert_eq!(store.labels.len(), 1);
    assert_eq!(store.labels[0].id, 100);
}

#[test]
fn compaction_drops_published_ids() {
    let mut store = store_of(vec![row(1, ReservationType::Song, 200, 5, 1)]);
    let index = index_of(
        vec![rec(ReservationType::Song, 201, 5), rec(ReservationType::Song, 203, 5)],
        vec![(5, vec![1])],
    );
    optimise_reservations(ReservationType::Song, &mut store, &index);
    assert_eq!(
        store.rows,
        vec![
            row(1, ReservationType::Song, 200, 1, 1),
            row(1, ReservationType::Song, 202, 1, 1),
            row(1, ReservationType::Song, 204, 1, 1),
        ]
    );
}

#[test]
fn compaction_merges_adjacent_rows_keeping_newest_time() {
    let mut store = store_of(vec![
        row(1, ReservationType::Song, 100, 2, 5),
        row(1, ReservationType::Song, 102, 2, 9),
    ]);
    let index = empty_index();
    optimise_reservations(ReservationType::Song, &mut store, &index);
    assert_eq!(store.rows, vec![row(1, ReservationType::Song, 100, 4, 9)]);
}

#[test]
fn compaction_leaves_other_namespaces_alone() {
    let mut store = store_of(vec![
        row(1, ReservationType::Module, 100, 2, 5),
        row(1, ReservationType::Song, 300, 2, 5),
    ]);
    let index = index_of(vec![rec(ReservationType::Song, 300, 5)], vec![(5, vec![1])]);
    optimise_reservations(ReservationType::Song, &mut store, &index);
    assert_eq!(
        store.rows,
        vec![
            row(1, ReservationType::Module, 100, 2, 5),
            row(1, ReservationType::Song, 301, 1, 5),
        ]
    );
}

#[test]
fn partial_regrant_reports_own_ids_and_fills_the_rest() {
    let mut store = store_of(vec![row(1, ReservationType::Song, 100, 5, 10)]);
    let index = empty_index();
    let r = check_reserve_range(ReservationType::Song, 100, 10, 1, &store, &index);
    assert_eq!(r, ReserveRangeResult::PartialValidRange(vec![100, 101, 102, 103, 104]));
    let r = create_reservation(1, ReservationType::Song, 100, 10, 42, &mut store, &index);
    assert_eq!(r, ReserveRangeResult::PartialValidRange(vec![100, 101, 102, 103, 104]));
    assert_eq!(held_ids(&store, ReservationType::Song, 1), (100..110).collect::<Vec<i32>>());
    // the grant triggers compaction: adjacent rows merge, stamped with the
    // newest constituent time
    assert_eq!(store.rows, vec![row(1, ReservationType::Song, 100, 10, 42)]);
}

#[test]
fn published_self_owned_id_joins_the_partial_set() {
    let store = store_of(Vec::new());
    let index = index_of(vec![rec(ReservationType::Song, 105, 7)], vec![(7, vec![1])]);
    let r = check_reserve_range(ReservationType::Song, 100, 10, 1, &store, &index);
    assert_eq!(r, ReserveRangeResult::PartialValidRange(vec![105]));
}

#[test]
fn another_users_reservation_blocks() {
    let store = store_of(vec![row(2, ReservationType::Song, 105, 3, 1)]);
    let index = empty_index();
    let r = check_reserve_range(ReservationType::Song, 100, 10, 1, &store, &index);
    assert_eq!(r, ReserveRangeResult::InvalidRange);
}

#[test]
fn degenerate_requests_are_invalid() {
    let store = store_of(Vec::new());
    let index = empty_index();
    for (start, length) in [(0, 10), (-5, 10), (1, 0), (1, -3), (i32::MAX, 2)] {
        let r = check_reserve_range(ReservationType::Song, start, length, 1, &store, &index);
        assert_eq!(r, ReserveRangeResult::InvalidRange);
    }
}

#[test]
fn misaligned_start_is_rejected_with_the_required_alignment() {
    let store = store_of(Vec::new());
    let index = empty_index();
    let r = check_reserve_range(ReservationType::Song, 101, 10, 1, &store, &index);
    assert_eq!(r, ReserveRangeResult::InvalidAlignment(10));
    let r = check_reserve_range(ReservationType::Song, 7, 3, 1, &store, &index);
    assert_eq!(r, ReserveRangeResult::ValidRange);
}

#[test]
fn find_prefers_the_first_fitting_gap() {
    let store = store_of(vec![
        row(2, ReservationType::Song, 10, 10, 1),
        row(3, ReservationType::Song, 50, 10, 1),
    ]);
    let index = empty_index();
    assert_eq!(find_reservable_range(ReservationType::Song, 10, 1, &store, &index), 20);
    // a longer request does not fit between the rows and lands past the end
    assert_eq!(find_reservable_range(ReservationType::Song, 40, 1, &store, &index), 60);
}

#[test]
fn find_on_an_empty_namespace_starts_at_the_alignment() {
    let store = store_of(Vec::new());
    let index = empty_index();
    assert_eq!(find_reservable_range(ReservationType::Song, 7, 1, &store, &index), 1);
    assert_eq!(find_reservable_range(ReservationType::Song, 10, 1, &store, &index), 10);
}

#[test]
fn find_rejects_degenerate_or_over_quota_requests() {
    let store = store_of(Vec::new());
    let index = empty_index();
    assert_eq!(find_reservable_range(ReservationType::Song, 0, 1, &store, &index), -1);
    assert_eq!(find_reservable_range(ReservationType::Song, 51, 1, &store, &index), -1);
}

#[test]
fn find_counts_published_ids_as_occupied() {
    let store = store_of(Vec::new());
    let index = index_of(vec![rec(ReservationType::Song, 10, 7)], vec![(7, vec![2])]);
    assert_eq!(find_reservable_range(ReservationType::Song, 10, 1, &store, &index), 20);
}

#[test]
fn labels_require_an_active_reservation() {
    let mut store = store_of(vec![row(1, ReservationType::Song, 100, 10, 1)]);
    assert!(label_reservation(105, 1, ReservationType::Song, String::from("a"), &mut store));
    assert_eq!(store.labels.len(), 1);
    assert_eq!(store.labels[0].text, "a");
    // a second label on the same id replaces the text
    assert!(label_reservation(105, 1, ReservationType::Song, String::from("b"), &mut store));
    assert_eq!(store.labels.len(), 1);
    assert_eq!(store.labels[0].text, "b");
    // ids outside the user's rows, or non-positive ids, are refused
    assert!(!label_reservation(205, 1, ReservationType::Song, String::from("c"), &mut store));
    assert!(!label_reservation(105, 2, ReservationType::Song, String::from("c"), &mut store));
    assert!(!label_reservation(0, 1, ReservationType::Song, String::from("c"), &mut store));
    assert_eq!(store.labels.len(), 1);
}

#[test]
fn deleting_a_range_drops_its_labels() {
    let mut store = store_of(vec![row(1, ReservationType::Song, 100, 10, 1)]);
    assert!(label_reservation(103, 1, ReservationType::Song, String::from("x"), &mut store));
    assert!(label_reservation(108, 1, ReservationType::Song, String::from("y"), &mut store));
    delete_reservation(1, ReservationType::Song, 100, 5, &mut store);
    assert_eq!(store.rows, vec![row(1, ReservationType::Song, 105, 5, 1)]);
    assert_eq!(store.labels.len(), 1);
    assert_eq!(store.labels[0].id, 108);
}

#[test]
fn namespaces_are_independent() {
    let store = store_of(vec![row(2, ReservationType::Song, 100, 10, 1)]);
    let index = empty_index();
    // the same integer is free in another namespace
    let r = check_reserve_range(ReservationType::Module, 100, 10, 1, &store, &index);
    assert_eq!(r, ReserveRangeResult::ValidRange);
    let r = check_reserve_range(
        ReservationType::Costume(Character::Miku),
        100,
        10,
        1,
        &store,
        &index,
    );
    assert_eq!(r, ReserveRangeResult::ValidRange);
}

#[test]
fn costume_namespaces_are_per_character() {
    let miku = ReservationType::Costume(Character::Miku);
    let rin = ReservationType::Costume(Character::Rin);
    let store = store_of(vec![row(2, miku, 100, 10, 1)]);
    let index = empty_index();
    assert_eq!(check_reserve_range(miku, 100, 10, 1, &store, &index), ReserveRangeResult::InvalidRange);
    assert_eq!(check_reserve_range(rin, 100, 10, 1, &store, &index), ReserveRangeResult::ValidRange);
}

#[test]
fn reservation_type_codes_round_trip() {
    let all = [
        ReservationType::Song,
        ReservationType::Module,
        ReservationType::CustomizeItem,
        ReservationType::Costume(Character::Miku),
        ReservationType::Costume(Character::Rin),
        ReservationType::Costume(Character::Len),
        ReservationType::Costume(Character::Luka),
        ReservationType::Costume(Character::Neru),
        ReservationType::Costume(Character::Haku),
        ReservationType::Costume(Character::Kaito),
        ReservationType::Costume(Character::Meiko),
        ReservationType::Costume(Character::Sakine),
        ReservationType::Costume(Character::Teto),
    ];
    for rt in all {
        assert_eq!(ReservationType::from(rt.code()), rt);
    }
    assert_eq!(ReservationType::from(0), ReservationType::Song);
    assert_eq!(ReservationType::from(13), ReservationType::Costume(Character::Luka));
    // unknown codes fall back to the song namespace
    assert_eq!(ReservationType::from(99), ReservationType::Song);
    assert_eq!(ReservationType::from(-7), ReservationType::Song);
}

#[test]
fn find_reports_an_exhausted_id_space() {
    // the only occupied id sits at the top of the space: no representable
    // aligned start remains past it
    let store = store_of(vec![row(2, ReservationType::Song, i32::MAX - 1, 1, 1)]);
    let index = empty_index();
    assert_eq!(find_reservable_range(ReservationType::Song, 10, 1, &store, &index), -1);
}

#[test]
fn grant_at_the_top_of_the_id_space() {
    let mut store = store_of(Vec::new());
    let index = empty_index();
    // [2147483640, 2147483647): the range end is exactly the largest id + 1
    let r = create_reservation(1, ReservationType::Song, i32::MAX - 7, 7, 1, &mut store, &index);
    assert_eq!(r, ReserveRangeResult::ValidRange);
    // one id further would overflow the id space
    let r = check_reserve_range(ReservationType::Module, i32::MAX - 7, 8, 1, &store, &index);
    assert_eq!(r, ReserveRangeResult::InvalidRange);
}

#[test]
fn user_reservations_exclude_published_ids() {
    let store = store_of(vec![row(1, ReservationType::Song, 10, 5, 1)]);
    let index = index_of(vec![rec(ReservationType::Song, 11, 7)], vec![(7, vec![1])]);
    assert_eq!(get_user_uploads(&index, ReservationType::Song, 1), vec![11]);
    assert_eq!(
        get_user_reservations(&store, &index, ReservationType::Song, 1),
        vec![10, 12, 13, 14]
    );
}
