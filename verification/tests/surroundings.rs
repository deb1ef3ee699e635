use z_methoxy::history::History;
use z_methoxy::item::{HistoryItem, TimeSkew};
use z_methoxy::jump::{starts_at_root, Jump, Probe};
use z_methoxy::location::{history_file_name, state_dir_name, temporary_file_name};
use z_methoxy::save::{SaveMove, SaveStep};

const DAY: u64 = 86_400;

fn item(path: &str, last_used: u64, times_used: i32) -> HistoryItem {
    HistoryItem { directory_name: path.to_string(), last_used, times_used }
}

fn tokens(words: &[&str]) -> Vec<String> {
    words.iter().map(|w| w.to_string()).collect()
}

#[test]
fn state_directory_lies_under_the_data_home() {
    let h = History::new();
    assert_eq!(h.get_history_state_dir_name(Some("/data"), Some("/home/alice")), "/data/z-methoxy");
    assert_eq!(h.get_history_state_dir_name(Some("/data/"), None), "/data/z-methoxy");
    assert_eq!(h.get_history_state_dir_name(Some(""), Some("/home/alice")), "z-methoxy");
}

#[test]
fn state_directory_falls_back_to_the_home_directory() {
    let h = History::new();
    assert_eq!(h.get_history_state_dir_name(None, Some("/home/alice")), "/home/alice/.local/share/z-methoxy");
    assert_eq!(h.get_history_state_dir_name(None, Some("/")), "/.local/share/z-methoxy");
}

#[test]
fn state_directory_is_empty_without_either() {
    assert_eq!(History::new().get_history_state_dir_name(None, None), "");
}

#[test]
fn history_file_lies_in_the_state_directory() {
    let h = History::new();
    assert_eq!(h.get_history_file_name("/data/z-methoxy"), "/data/z-methoxy/history");
    assert_eq!(h.get_history_file_name("/data/z-methoxy/"), "/data/z-methoxy/history");
    assert_eq!(h.get_history_file_name(""), "history");
}

#[test]
fn temporary_file_lies_beside_the_history_file() {
    let h = History::new();
    assert_eq!(h.get_history_tmp_file_name("/data/z-methoxy"), "/data/z-methoxy/history-tmp");
    assert_eq!(h.get_history_tmp_file_name(""), "history-tmp");
}

#[test]
fn history_is_shown_with_age_and_count() {
    let now = 100 * DAY;
    let h = History {
        items: vec![
            item("/home/alice", now - 3 * DAY - 5, 7),
            item("/home/bob", now, 1234),
            item("/old", 0, 12),
            item("/ahead", now + 60, 1),
            item("/ancient", 0, -5),
        ],
    };
    assert_eq!(
        h.print_history(now),
        vec![
            Ok("   3   7 /home/alice".to_string()),
            Ok("   0 1234 /home/bob".to_string()),
            Ok(" 100  12 /old".to_string()),
            Err(TimeSkew { ahead_by: 60 }),
            Ok(" 100  -5 /ancient".to_string()),
        ]
    );
    assert_eq!(h.print_history(u64::MAX)[2], Ok(format!("{: >4} {: >3} {}", u64::MAX / DAY, 12, "/old")));
}

#[test]
fn given_items_are_shown_in_their_order() {
    let h = History::new();
    let items = vec![item("/b", 10, 1), item("/a", 10, 2)];
    assert_eq!(h.print_items(&items, 10), vec![Ok("   0   1 /b".to_string()), Ok("   0   2 /a".to_string())]);
    assert_eq!(h.print_items(&Vec::new(), 10), Vec::new());
}

#[test]
fn matches_are_shown_sorted() {
    let h = History {
        items: vec![item("/home/bob/foo", 10, 1), item("/home/alice/bar", 10, 2), item("/home/alice/foo", 10, 3)],
    };
    assert_eq!(
        h.show_matches(&tokens(&["foo"]), 10 + DAY),
        vec![Ok("   1   3 /home/alice/foo".to_string()), Ok("   1   1 /home/bob/foo".to_string())]
    );
    assert_eq!(h.show_matches(&tokens(&["zzz"]), 10), Vec::new());
}

#[test]
fn directory_is_visited_under_its_canonical_path() {
    let mut h = History { items: vec![item("/home/alice", 5, 2)] };
    let jump = h.handle_dir(&tokens(&["work/../work"]), Probe::Directory("/home/alice/work".to_string()), 50);
    assert_eq!(jump, Jump::Visited("work/../work".to_string()));
    assert_eq!(h.items, vec![item("/home/alice", 5, 2), item("/home/alice/work", 50, 1)]);
    let jump = h.handle_dir(&tokens(&["work", "ignored"]), Probe::Directory("/home/alice/work".to_string()), 60);
    assert_eq!(jump, Jump::Visited("work".to_string()));
    assert_eq!(h.items, vec![item("/home/alice", 5, 2), item("/home/alice/work", 60, 2)]);
}

#[test]
fn unresolved_directory_changes_nothing() {
    let mut h = History { items: vec![item("/home/alice", 5, 2)] };
    assert_eq!(h.handle_dir(&tokens(&["alice"]), Probe::Unresolved, 50), Jump::Nowhere);
    assert_eq!(h.items, vec![item("/home/alice", 5, 2)]);
}

#[test]
fn absolute_path_that_is_no_directory_is_given_back() {
    let mut h = History { items: vec![item("/home/alice", 5, 2)] };
    assert_eq!(h.handle_dir(&tokens(&["/home/al"]), Probe::Missing, 50), Jump::Given("/home/al".to_string()));
    assert_eq!(h.items, vec![item("/home/alice", 5, 2)]);
}

#[test]
fn other_tokens_are_resolved_against_the_history() {
    let mut h = History { items: vec![item("/home/alice", 5, 2), item("/home/bob", 6, 1)] };
    assert_eq!(h.handle_dir(&tokens(&["ho", "bo"]), Probe::Missing, 50), Jump::Found("/home/bob".to_string()));
    assert_eq!(h.items, vec![item("/home/alice", 5, 2), item("/home/bob", 50, 2)]);
    assert_eq!(h.handle_dir(&tokens(&["zzz"]), Probe::Missing, 60), Jump::Stay);
    assert_eq!(h.items, vec![item("/home/alice", 5, 2), item("/home/bob", 50, 2)]);
}

#[test]
fn dash_goes_back_to_the_directory_left_last() {
    let mut h = History { items: vec![item("/home/alice", 5, 2)] };
    let jump = h.handle_dash(Some("/home/bob".to_string()), Probe::Directory("/home/bob".to_string()), 50);
    assert_eq!(jump, Jump::Visited("/home/bob".to_string()));
    assert_eq!(h.items, vec![item("/home/alice", 5, 2), item("/home/bob", 50, 1)]);
}

#[test]
fn dash_without_a_directory_resolves_the_empty_token() {
    let mut h = History { items: vec![item("/home/alice", 5, 2), item("/home/bob", 6, 3)] };
    assert_eq!(h.handle_dash(None, Probe::Missing, 50), Jump::Found("/home/bob".to_string()));
    assert_eq!(h.items, vec![item("/home/alice", 5, 2), item("/home/bob", 50, 4)]);
    let mut empty = History::new();
    assert_eq!(empty.handle_dash(None, Probe::Missing, 50), Jump::Stay);
}

#[test]
fn saving_starts_with_the_directory_unless_it_exists() {
    assert_eq!(SaveStep::first(false), SaveStep::MakeDirectory);
    assert_eq!(SaveStep::first(true), SaveStep::CreateTemporary);
}

#[test]
fn saving_goes_step_by_step_to_the_rename() {
    let mut step = SaveStep::first(false);
    let mut taken = vec![step];
    loop {
        let then = step.then_do(true);
        assert!(!then.report);
        match then.next {
            Some(next) => {
                taken.push(next);
                step = next;
            }
            None => break,
        }
    }
    assert_eq!(
        taken,
        vec![
            SaveStep::MakeDirectory,
            SaveStep::CreateTemporary,
            SaveStep::WriteTemporary,
            SaveStep::FlushTemporary,
            SaveStep::Rename
        ]
    );
}

#[test]
fn failed_directory_is_reported_and_saving_goes_on() {
    assert_eq!(
        SaveStep::MakeDirectory.then_do(false),
        SaveMove { next: Some(SaveStep::CreateTemporary), report: true }
    );
}

#[test]
fn failure_before_the_rename_ends_saving_without_it() {
    for step in [SaveStep::CreateTemporary, SaveStep::WriteTemporary, SaveStep::FlushTemporary, SaveStep::Rename] {
        assert_eq!(step.then_do(false), SaveMove { next: None, report: true });
    }
}

#[test]
fn saving_stopped_before_the_rename_never_renames() {
    // every run that is cut short, or in which a step fails, ends without a rename
    let steps = [SaveStep::MakeDirectory, SaveStep::CreateTemporary, SaveStep::WriteTemporary, SaveStep::FlushTemporary];
    for failing in 1..steps.len() {
        let mut step = SaveStep::first(false);
        let mut at = 0;
        loop {
            assert_ne!(step, SaveStep::Rename);
            match step.then_do(at != failing).next {
                Some(next) => step = next,
                None => break,
            }
            at += 1;
        }
        assert_eq!(at, failing);
    }
    assert_eq!(SaveStep::Rename.then_do(true), SaveMove { next: None, report: false });
}

#[test]
fn each_step_has_its_path() {
    let dir = "/data/z-methoxy";
    assert_eq!(SaveStep::MakeDirectory.target(dir), "/data/z-methoxy");
    assert_eq!(SaveStep::CreateTemporary.target(dir), "/data/z-methoxy/history-tmp");
    assert_eq!(SaveStep::WriteTemporary.target(dir), "/data/z-methoxy/history-tmp");
    assert_eq!(SaveStep::FlushTemporary.target(dir), "/data/z-methoxy/history-tmp");
    assert_eq!(SaveStep::Rename.target(dir), "/data/z-methoxy/history");
}

#[test]
fn only_the_rename_names_the_history_file() {
    for dir in ["", "/", "/data/z-methoxy", "/data/z-methoxy/", "relative"] {
        let history_file = history_file_name(dir);
        for step in [SaveStep::MakeDirectory, SaveStep::CreateTemporary, SaveStep::WriteTemporary, SaveStep::FlushTemporary] {
            assert_ne!(step.target(dir), history_file);
        }
        assert_eq!(SaveStep::Rename.target(dir), history_file);
    }
}

#[test]
fn interrupted_save_never_names_the_history_file() {
    // whichever step is the last one taken before the rename, the history file is not among
    // the paths that were made or changed
    let dir = "/data/z-methoxy";
    for last in 0..4 {
        let mut step = SaveStep::first(false);
        let mut touched = vec![step.target(dir)];
        for _ in 0..last {
            step = step.then_do(true).next.unwrap();
            touched.push(step.target(dir));
        }
        assert!(!touched.contains(&history_file_name(dir)));
    }
}

#[test]
fn file_names_do_not_need_a_history() {
    assert_eq!(state_dir_name(Some("/data"), None), "/data/z-methoxy");
    assert_eq!(state_dir_name(None, Some("/home/alice")), "/home/alice/.local/share/z-methoxy");
    assert_eq!(state_dir_name(None, None), "");
    assert_eq!(history_file_name("/data/z-methoxy"), "/data/z-methoxy/history");
    assert_eq!(temporary_file_name("/data/z-methoxy"), "/data/z-methoxy/history-tmp");
}

#[test]
fn path_from_the_root_is_absolute() {
    assert!(starts_at_root("/"));
    assert!(starts_at_root("/home/alice"));
    assert!(!starts_at_root(""));
    assert!(!starts_at_root("home/alice"));
    assert!(!starts_at_root("./home"));
}

#[test]
fn room_to_follow_is_room_for_what_would_be_touched() {
    let h = History { items: vec![item("/home/alice", 5, i32::MAX), item("/home/bob", 6, 3)] };
    // a directory: the record of its canonical path
    assert!(!h.has_room_to_follow(&tokens(&["x"]), &Probe::Directory("/home/alice".to_string()), 50));
    assert!(h.has_room_to_follow(&tokens(&["x"]), &Probe::Directory("/home/bob".to_string()), 50));
    assert!(h.has_room_to_follow(&tokens(&["x"]), &Probe::Directory("/home/carol".to_string()), 50));
    // nothing is touched
    assert!(h.has_room_to_follow(&tokens(&["alice"]), &Probe::Unresolved, 50));
    assert!(h.has_room_to_follow(&tokens(&["/home/alice"]), &Probe::Missing, 50));
    // the best match
    assert!(!h.has_room_to_follow(&tokens(&["alice"]), &Probe::Missing, 50));
    assert!(h.has_room_to_follow(&tokens(&["bob"]), &Probe::Missing, 50));
    assert!(h.has_room_to_follow(&tokens(&["zzz"]), &Probe::Missing, 50));
}
