use discord_exporter::ranges::{MessageRange, RangeStore};

fn range(channel_id: u64, after_id: u64, last_id: u64) -> MessageRange {
    MessageRange { channel_id, after_id, last_id }
}

fn sorted(store: &RangeStore) -> Vec<(u64, u64, u64)> {
    let mut rows: Vec<(u64, u64, u64)> =
        store.ranges().iter().map(|r| (r.channel_id, r.after_id, r.last_id)).collect();
    rows.sort();
    rows
}

/// No range is empty, and no range of a channel begins inside another range
/// of that channel or at its upper end.
fn well_formed(store: &RangeStore) -> bool {
    let rows = store.ranges();
    rows.iter().all(|r| r.after_id < r.last_id)
        && rows.iter().enumerate().all(|(i, a)| {
            rows.iter().enumerate().all(|(j, b)| {
                i == j || a.channel_id != b.channel_id || a.last_id < b.after_id || b.last_id < a.after_id
            })
        })
}

/// No range is empty, and no two ranges of a channel share an identifier.
fn disjoint(store: &RangeStore) -> bool {
    let rows = store.ranges();
    rows.iter().all(|r| r.after_id < r.last_id)
        && rows.iter().enumerate().all(|(i, a)| {
            rows.iter().enumerate().all(|(j, b)| {
                i == j || a.channel_id != b.channel_id || a.last_id <= b.after_id || b.last_id <= a.after_id
            })
        })
}

#[test]
fn a_new_store_is_empty() {
    let store = RangeStore::new();
    assert_eq!(store.len(), 0);
    assert!(store.ranges().is_empty());
    assert_eq!(store.find_covering(1, 0), None);
    assert!(!store.contains(range(1, 0, 10)));
}

#[test]
fn merge_into_an_empty_store_stores_the_span() {
    let mut store = RangeStore::new();
    let outcome = store.merge_insert(1, 0, 150);
    assert_eq!(outcome.range, range(1, 0, 150));
    assert!(outcome.absorbed.is_empty());
    assert_eq!(sorted(&store), vec![(1, 0, 150)]);
    assert!(store.contains(range(1, 0, 150)));
    assert!(!store.contains(range(1, 0, 151)));
    assert_eq!(store.len(), 1);
}

#[test]
fn merge_raises_the_range_with_the_same_key() {
    let mut store = RangeStore::new();
    store.merge_insert(1, 0, 150);
    let outcome = store.merge_insert(1, 0, 200);
    assert_eq!(outcome.range, range(1, 0, 200));
    assert!(outcome.absorbed.is_empty());
    assert_eq!(sorted(&store), vec![(1, 0, 200)]);
}

#[test]
fn merge_takes_in_the_ranges_that_begin_inside_the_span() {
    let mut store = RangeStore::new();
    store.merge_insert(1, 100, 120);
    store.merge_insert(1, 150, 300);
    store.merge_insert(1, 400, 500);
    store.merge_insert(2, 150, 900);
    let outcome = store.merge_insert(1, 0, 200);
    assert_eq!(outcome.range, range(1, 0, 300));
    let mut absorbed: Vec<(u64, u64)> = outcome.absorbed.iter().map(|r| (r.after_id, r.last_id)).collect();
    absorbed.sort();
    assert_eq!(absorbed, vec![(100, 120), (150, 300)]);
    assert_eq!(sorted(&store), vec![(1, 0, 300), (1, 400, 500), (2, 150, 900)]);
    assert!(well_formed(&store));
}

#[test]
fn merge_keeps_the_observed_end_when_it_is_the_greatest() {
    let mut store = RangeStore::new();
    store.merge_insert(1, 100, 120);
    let outcome = store.merge_insert(1, 0, 200);
    assert_eq!(outcome.range, range(1, 0, 200));
    assert_eq!(sorted(&store), vec![(1, 0, 200)]);
}

#[test]
fn merge_takes_in_a_range_that_begins_at_the_observed_end() {
    let mut store = RangeStore::new();
    store.merge_insert(1, 200, 250);
    let outcome = store.merge_insert(1, 0, 200);
    assert_eq!(outcome.range, range(1, 0, 250));
    assert_eq!(sorted(&store), vec![(1, 0, 250)]);
}

#[test]
fn merge_leaves_a_range_that_begins_above_the_span() {
    let mut store = RangeStore::new();
    store.merge_insert(1, 201, 250);
    store.merge_insert(1, 0, 200);
    assert_eq!(sorted(&store), vec![(1, 0, 200), (1, 201, 250)]);
    assert!(well_formed(&store));
}

#[test]
fn merge_leaves_other_channels_alone() {
    let mut store = RangeStore::new();
    store.merge_insert(2, 10, 20);
    let outcome = store.merge_insert(1, 0, 100);
    assert!(outcome.absorbed.is_empty());
    assert_eq!(sorted(&store), vec![(1, 0, 100), (2, 10, 20)]);
}

#[test]
fn find_covering_takes_the_lower_end_and_leaves_the_upper_end() {
    let mut store = RangeStore::new();
    store.merge_insert(1, 10, 20);
    assert_eq!(store.find_covering(1, 9), None);
    assert_eq!(store.find_covering(1, 10), Some(range(1, 10, 20)));
    assert_eq!(store.find_covering(1, 19), Some(range(1, 10, 20)));
    assert_eq!(store.find_covering(1, 20), None);
    assert_eq!(store.find_covering(2, 15), None);
}

#[test]
fn stored_range_from_zero_covers_zero() {
    let mut store = RangeStore::new();
    store.merge_insert(1, 0, 200);
    assert_eq!(store.find_covering(1, 0), Some(range(1, 0, 200)));
}

#[test]
fn upsert_sets_the_row_of_its_key() {
    let mut store = RangeStore::new();
    store.upsert(range(1, 0, 100));
    store.upsert(range(1, 200, 300));
    store.upsert(range(1, 0, 50));
    assert_eq!(sorted(&store), vec![(1, 0, 50), (1, 200, 300)]);
    assert_eq!(store.len(), 2);
}

#[test]
fn a_span_that_begins_inside_a_range_is_stored_beside_it() {
    // The merge takes in ranges that begin inside the span, not a range that
    // the span begins in: the result overlaps.
    let mut store = RangeStore::new();
    store.merge_insert(1, 10, 20);
    store.merge_insert(1, 15, 30);
    assert_eq!(sorted(&store), vec![(1, 10, 20), (1, 15, 30)]);
    assert!(!disjoint(&store));
}

#[test]
fn a_span_that_begins_at_the_end_of_a_range_is_stored_beside_it() {
    let mut store = RangeStore::new();
    store.merge_insert(1, 10, 20);
    store.merge_insert(1, 20, 30);
    assert_eq!(sorted(&store), vec![(1, 10, 20), (1, 20, 30)]);
    assert!(disjoint(&store));
    assert!(!well_formed(&store));
}

#[test]
fn an_empty_span_is_stored_as_it_is() {
    let mut store = RangeStore::new();
    store.merge_insert(1, 30, 30);
    assert_eq!(sorted(&store), vec![(1, 30, 30)]);
    assert!(!well_formed(&store));
}

/// A small generator of numbers, the same on every run.
struct Numbers(u64);

impl Numbers {
    fn next(&mut self, bound: u64) -> u64 {
        self.0 = self.0.wrapping_mul(6364136223846793005).wrapping_add(1442695040888963407);
        (self.0 >> 33) % bound
    }
}

#[test]
fn admissible_merges_keep_the_store_well_formed() {
    let mut numbers = Numbers(42);
    for _ in 0..200 {
        let mut store = RangeStore::new();
        for _ in 0..40 {
            let channel_id = 1 + numbers.next(2);
            let after_id = numbers.next(60);
            let observed_last = after_id + 1 + numbers.next(12);
            let admissible = store
                .ranges()
                .iter()
                .all(|r| r.channel_id != channel_id || r.after_id >= after_id || r.last_id < after_id);
            if admissible {
                store.merge_insert(channel_id, after_id, observed_last);
                assert!(well_formed(&store), "{:?}", sorted(&store));
            }
        }
    }
}

#[test]
fn merges_behind_a_resolved_cursor_keep_the_ranges_apart() {
    let mut numbers = Numbers(7);
    for _ in 0..200 {
        let mut store = RangeStore::new();
        for _ in 0..40 {
            let channel_id = 1 + numbers.next(2);
            let after = numbers.next(60);
            let (position, anchor) = match store.find_covering(channel_id, after) {
                Some(r) => (r.last_id, r.after_id),
                None => (after, after),
            };
            let observed_last = position + 1 + numbers.next(12);
            store.merge_insert(channel_id, anchor, observed_last);
            assert!(disjoint(&store), "{:?}", sorted(&store));
        }
    }
}
