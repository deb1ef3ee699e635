use z_methoxy::history::History;
use z_methoxy::item::HistoryItem;
use z_methoxy::sorting::sort_by_path;

const HOUR: u64 = 3_600;
const DAY: u64 = 24 * HOUR;
const WEEK: u64 = 7 * DAY;

fn item(path: &str, last_used: u64, times_used: i32) -> HistoryItem {
    HistoryItem { directory_name: path.to_string(), last_used, times_used }
}

fn tokens(words: &[&str]) -> Vec<String> {
    words.iter().map(|w| w.to_string()).collect()
}

fn history(items: Vec<HistoryItem>) -> History {
    History { items }
}

#[test]
fn new_history_is_empty() {
    assert!(History::new().items.is_empty());
}

#[test]
fn first_visit_makes_a_record() {
    let mut h = History::new();
    h.append_insert_item(item("/home/alice", 100, 1));
    assert_eq!(h.items, vec![item("/home/alice", 100, 1)]);
}

#[test]
fn second_visit_counts_and_takes_the_time() {
    let mut h = History::new();
    h.append_insert_item(item("/home/alice", 100, 1));
    h.append_insert_item(item("/home/alice", 250, 1));
    assert_eq!(h.items, vec![item("/home/alice", 250, 2)]);
    h.append_insert_item(item("/home/alice", 300, 1));
    assert_eq!(h.items, vec![item("/home/alice", 300, 3)]);
}

#[test]
fn visit_never_makes_two_records_of_one_path() {
    let mut h = history(vec![item("/a", 1, 1), item("/b", 2, 5), item("/c", 3, 2)]);
    h.append_insert_item(item("/b", 10, 1));
    h.append_insert_item(item("/b", 11, 1));
    assert_eq!(h.items, vec![item("/a", 1, 1), item("/b", 11, 7), item("/c", 3, 2)]);
}

#[test]
fn new_path_is_put_in_order() {
    let mut h = history(vec![item("/a", 1, 1), item("/c", 3, 2)]);
    h.append_insert_item(item("/b", 10, 1));
    assert_eq!(h.items, vec![item("/a", 1, 1), item("/b", 10, 1), item("/c", 3, 2)]);
    h.append_insert_item(item("/", 11, 1));
    h.append_insert_item(item("/d", 12, 1));
    let paths: Vec<&str> = h.items.iter().map(|i| i.directory_name.as_str()).collect();
    assert_eq!(paths, vec!["/", "/a", "/b", "/c", "/d"]);
}

#[test]
fn new_path_sorts_an_unsorted_history() {
    let mut h = history(vec![item("/c", 3, 2), item("/a", 1, 1)]);
    h.append_insert_item(item("/b", 10, 1));
    assert_eq!(h.items, vec![item("/a", 1, 1), item("/b", 10, 1), item("/c", 3, 2)]);
}

#[test]
fn known_path_leaves_an_unsorted_history_in_its_order() {
    let mut h = history(vec![item("/c", 3, 2), item("/a", 1, 1)]);
    h.append_insert_item(item("/a", 10, 1));
    assert_eq!(h.items, vec![item("/c", 3, 2), item("/a", 10, 2)]);
}

#[test]
fn visit_touches_the_first_of_two_records() {
    let mut h = history(vec![item("/a", 1, 1), item("/a", 2, 5)]);
    h.append_insert_item(item("/a", 10, 1));
    assert_eq!(h.items, vec![item("/a", 10, 2), item("/a", 2, 5)]);
}

#[test]
fn paths_sort_by_characters_not_by_components() {
    let mut h = history(vec![item("/a/b", 1, 1)]);
    h.append_insert_item(item("/a-b", 2, 1));
    let paths: Vec<&str> = h.items.iter().map(|i| i.directory_name.as_str()).collect();
    assert_eq!(paths, vec!["/a-b", "/a/b"]);
}

#[test]
fn sort_is_stable() {
    let sorted = sort_by_path(vec![
        item("/b", 1, 1),
        item("/a", 2, 2),
        item("/b", 3, 3),
        item("/a", 4, 4),
        item("/", 5, 5),
    ]);
    assert_eq!(
        sorted,
        vec![item("/", 5, 5), item("/a", 2, 2), item("/a", 4, 4), item("/b", 1, 1), item("/b", 3, 3)]
    );
    assert_eq!(sort_by_path(Vec::new()), Vec::new());
}

#[test]
fn update_usage_touches_the_matching_record() {
    let mut h = history(vec![item("/a", 1, 1), item("/b", 2, 5), item("/c", 3, 2)]);
    h.update_usage_of_best_item(&item("/b", 0, 0), 77);
    assert_eq!(h.items, vec![item("/a", 1, 1), item("/b", 77, 6), item("/c", 3, 2)]);
}

#[test]
fn update_usage_of_unknown_path_changes_nothing() {
    let mut h = history(vec![item("/a", 1, 1), item("/b", 2, 5)]);
    h.update_usage_of_best_item(&item("/zzz", 0, 0), 77);
    assert_eq!(h.items, vec![item("/a", 1, 1), item("/b", 2, 5)]);
}

#[test]
fn update_usage_touches_every_record_of_the_path() {
    let mut h = history(vec![item("/a", 1, 1), item("/b", 2, 5), item("/a", 3, 2)]);
    h.update_usage_of_best_item(&item("/a", 0, 0), 9);
    assert_eq!(h.items, vec![item("/a", 9, 2), item("/b", 2, 5), item("/a", 9, 3)]);
}

#[test]
fn resolve_best_in_empty_history_is_none() {
    assert_eq!(History::new().resolve_best(&tokens(&[]), 10), None);
    assert_eq!(History::new().resolve_best(&tokens(&["a"]), 10), None);
}

#[test]
fn resolve_best_without_match_is_none() {
    let h = history(vec![item("/home/alice/foo", 1, 1), item("/home/alice/bar", 2, 5)]);
    assert_eq!(h.resolve_best(&tokens(&["zzz"]), 10), None);
}

#[test]
fn resolve_best_without_tokens_is_the_highest_score() {
    let now = 10 * WEEK;
    let h = history(vec![
        item("/a", now - WEEK, 100),     // 25_000
        item("/b", now - 10, 7),         // 28_000
        item("/c", now - 2 * DAY, 50),   // 25_000
        item("/d", now - HOUR, 13),      // 26_000
    ]);
    assert_eq!(h.resolve_best(&tokens(&[]), now), Some(item("/b", now - 10, 7)));
}

#[test]
fn resolve_best_takes_the_first_of_equal_ranks() {
    let h = history(vec![item("/a/x", 5, 2), item("/b/x", 5, 2), item("/c/x", 5, 2)]);
    assert_eq!(h.resolve_best(&tokens(&["x"]), 5), Some(item("/a/x", 5, 2)));
    assert_eq!(h.resolve_best(&tokens(&[]), 5), Some(item("/a/x", 5, 2)));
}

#[test]
fn resolve_best_ignores_recency_of_records_that_do_not_match() {
    let t0 = 1_000;
    let t1 = 1_000 + 3 * WEEK;
    let h = history(vec![
        item("/home/alice/projects/bar", t1, 1),
        item("/home/alice/projects/foo", t0, 3),
    ]);
    let best = h.resolve_best(&tokens(&["proj", "foo"]), t1 + 1);
    assert_eq!(best, Some(item("/home/alice/projects/foo", t0, 3)));
}

#[test]
fn exact_last_component_counts_four_times() {
    let now = 1_000;
    // "barn" scores 3 * 4000 = 12000; "bar" scores 1 * 4000, four times for the exact match
    let h = history(vec![item("/home/alice/projects/bar", now, 1), item("/home/alice/barn", now, 3)]);
    let best = h.resolve_best(&tokens(&["bar"]), now);
    assert_eq!(best, Some(item("/home/alice/projects/bar", now, 1)));
    // with four uses "barn" ranks as high, and still loses to the earlier record
    let h = history(vec![item("/home/alice/projects/bar", now, 1), item("/home/alice/barn", now, 4)]);
    assert_eq!(h.resolve_best(&tokens(&["bar"]), now), Some(item("/home/alice/projects/bar", now, 1)));
    // with five uses it wins
    let h = history(vec![item("/home/alice/projects/bar", now, 1), item("/home/alice/barn", now, 5)]);
    assert_eq!(h.resolve_best(&tokens(&["bar"]), now), Some(item("/home/alice/barn", now, 5)));
}

#[test]
fn resolve_best_can_return_an_unscoreable_record() {
    let h = history(vec![item("/a/x", 500, 2), item("/b/xy", 600, 2)]);
    // both lie in the future: ranks -4 (exact) and -1
    assert_eq!(h.resolve_best(&tokens(&["x"]), 100), Some(item("/b/xy", 600, 2)));
    let h = history(vec![item("/a/x", 500, 2)]);
    assert_eq!(h.resolve_best(&tokens(&["x"]), 100), Some(item("/a/x", 500, 2)));
}

#[test]
fn find_dir_counts_the_use_of_the_best_match() {
    let mut h = history(vec![item("/home/alice/bar", 10, 1), item("/home/alice/foo", 20, 3)]);
    let found = h.find_dir_using_history(&tokens(&["foo"]), 100);
    assert_eq!(found, Some("/home/alice/foo".to_string()));
    assert_eq!(h.items, vec![item("/home/alice/bar", 10, 1), item("/home/alice/foo", 100, 4)]);
}

#[test]
fn find_dir_without_match_changes_nothing() {
    let mut h = history(vec![item("/home/alice/bar", 10, 1), item("/home/alice/foo", 20, 3)]);
    assert_eq!(h.find_dir_using_history(&tokens(&["zzz"]), 100), None);
    assert_eq!(h.items, vec![item("/home/alice/bar", 10, 1), item("/home/alice/foo", 20, 3)]);
}

#[test]
fn find_dir_passes_over_unscoreable_records() {
    let mut h = history(vec![item("/home/alice/foo", 500, 3)]);
    assert_eq!(h.find_dir_using_history(&tokens(&["foo"]), 100), None);
    assert_eq!(h.items, vec![item("/home/alice/foo", 500, 3)]);
    let mut h = history(vec![item("/home/alice/foo", 500, 3), item("/home/bob/foo", 50, 1)]);
    assert_eq!(h.find_dir_using_history(&tokens(&["foo"]), 100), Some("/home/bob/foo".to_string()));
}

#[test]
fn find_dir_accepts_a_rank_of_zero() {
    let mut h = history(vec![item("/home/alice/foo", 50, 0)]);
    assert_eq!(h.find_dir_using_history(&tokens(&["foo"]), 100), Some("/home/alice/foo".to_string()));
    assert_eq!(h.items, vec![item("/home/alice/foo", 100, 1)]);
}

#[test]
fn resolve_all_gives_the_matches_sorted() {
    let h = history(vec![
        item("/home/bob/foo", 1, 1),
        item("/home/alice/bar", 2, 2),
        item("/home/alice/foo", 3, 3),
        item("/home/alice/food", 4, 4),
    ]);
    assert_eq!(
        h.resolve_all(&tokens(&["foo"])),
        vec![item("/home/alice/foo", 3, 3), item("/home/alice/food", 4, 4), item("/home/bob/foo", 1, 1)]
    );
    assert_eq!(h.resolve_all(&tokens(&["alice", "foo"])).len(), 2);
    assert_eq!(h.resolve_all(&tokens(&["zzz"])), Vec::new());
    assert_eq!(h.resolve_all(&tokens(&[])).len(), 4);
}

#[test]
fn room_is_what_the_largest_count_leaves() {
    let h = history(vec![item("/a", 1, i32::MAX), item("/b", 2, i32::MAX - 1), item("/b", 3, 1)]);
    assert!(!h.has_room_for("/a"));
    assert!(h.has_room_for("/b"));
    assert!(h.has_room_for("/c"));
    assert!(History::new().has_room_for("/a"));
    let h = history(vec![item("/b", 2, 5), item("/b", 3, i32::MAX)]);
    assert!(!h.has_room_for("/b"));
}

#[test]
fn count_reaches_the_largest_value() {
    let mut h = history(vec![item("/a", 1, i32::MAX - 1)]);
    h.append_insert_item(item("/a", 2, 1));
    assert_eq!(h.items, vec![item("/a", 2, i32::MAX)]);
}

#[test]
fn room_to_resolve_is_room_for_the_best_match() {
    let h = history(vec![item("/home/alice/foo", 10, i32::MAX), item("/home/bob/foo", 10, 3)]);
    assert!(!h.has_room_to_resolve(&tokens(&["foo"]), 20));
    assert!(!h.has_room_to_resolve(&tokens(&[]), 20));
    assert!(h.has_room_to_resolve(&tokens(&["bob", "foo"]), 20));
    assert!(h.has_room_to_resolve(&tokens(&["zzz"]), 20));
    // the full record lies in the future and cannot be scored; the other is the best match
    let h = history(vec![item("/home/alice/foo", 30, i32::MAX), item("/home/bob/foo", 10, 3)]);
    assert!(h.has_room_to_resolve(&tokens(&["foo"]), 20));
    let h = history(vec![item("/home/alice/foo", 10, i32::MAX)]);
    // a best match that cannot be scored is not touched
    assert!(h.has_room_to_resolve(&tokens(&["foo"]), 5));
    assert!(History::new().has_room_to_resolve(&tokens(&["foo"]), 5));
}
