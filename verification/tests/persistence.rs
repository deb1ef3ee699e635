use z_methoxy::decimal::{
    parse_i32, parse_u64, push_decimal, push_right_aligned, push_right_padded, signed_text,
};
use z_methoxy::history::History;
use z_methoxy::item::HistoryItem;
use z_methoxy::persist::{is_whitespace, split_lines, Entry, LineFault, LoadFault};
use z_methoxy::text::chars_of;

fn item(path: &str, last_used: u64, times_used: i32) -> HistoryItem {
    HistoryItem { directory_name: path.to_string(), last_used, times_used }
}

fn read(line: &str) -> Result<HistoryItem, LineFault> {
    History::split_line(line.to_string())
}

fn as_u64(text: &str) -> Option<u64> {
    let chars = chars_of(text);
    parse_u64(&chars, 0, chars.len())
}

fn as_i32(text: &str) -> Option<i32> {
    let chars = chars_of(text);
    parse_i32(&chars, 0, chars.len())
}

#[test]
fn line_with_three_fields_is_a_record() {
    assert_eq!(read("1700000000    3 /home/alice/projects"), Ok(item("/home/alice/projects", 1_700_000_000, 3)));
    assert_eq!(read("5 1 /"), Ok(item("/", 5, 1)));
}

#[test]
fn whitespace_of_any_kind_separates_fields() {
    assert_eq!(read("  5\t\t1 \u{a0} /home/alice \r"), Ok(item("/home/alice", 5, 1)));
    assert_eq!(read("5\u{3000}1\u{2003}/x\n"), Ok(item("/x", 5, 1)));
}

#[test]
fn path_fields_are_joined_by_single_spaces() {
    assert_eq!(read("5 1 /home/alice/my documents"), Ok(item("/home/alice/my documents", 5, 1)));
    assert_eq!(read("5 1 /home/alice/my   documents  and\tmore "), Ok(item("/home/alice/my documents and more", 5, 1)));
}

#[test]
fn line_with_fewer_than_three_fields_is_rejected() {
    assert_eq!(read(""), Err(LineFault::TooFewFields));
    assert_eq!(read("   "), Err(LineFault::TooFewFields));
    assert_eq!(read("5"), Err(LineFault::TooFewFields));
    assert_eq!(read("5 1"), Err(LineFault::TooFewFields));
    assert_eq!(read("x y"), Err(LineFault::TooFewFields));
}

#[test]
fn line_with_a_bad_time_is_rejected() {
    assert_eq!(read("x 1 /a"), Err(LineFault::BadTime));
    assert_eq!(read("-5 1 /a"), Err(LineFault::BadTime));
    assert_eq!(read("5.0 1 /a"), Err(LineFault::BadTime));
    assert_eq!(read("18446744073709551616 1 /a"), Err(LineFault::BadTime));
    assert_eq!(read("x y /a"), Err(LineFault::BadTime));
}

#[test]
fn line_with_a_bad_count_is_rejected() {
    assert_eq!(read("5 x /a"), Err(LineFault::BadCount));
    assert_eq!(read("5 2147483648 /a"), Err(LineFault::BadCount));
    assert_eq!(read("5 1x /a"), Err(LineFault::BadCount));
    assert_eq!(read("5 - /a"), Err(LineFault::BadCount));
}

#[test]
fn numbers_at_the_limits_are_read() {
    assert_eq!(read("18446744073709551615 2147483647 /a"), Ok(item("/a", u64::MAX, i32::MAX)));
    assert_eq!(read("0 -2147483648 /a"), Ok(item("/a", 0, i32::MIN)));
    assert_eq!(read("+7 +3 /a"), Ok(item("/a", 7, 3)));
    assert_eq!(read("007 -0 /a"), Ok(item("/a", 7, 0)));
}

#[test]
fn unsigned_numbers_are_read_as_the_standard_library_reads_them() {
    for text in ["0", "7", "+7", "0042", "18446744073709551615", "18446744073709551616",
        "99999999999999999999999", "", "+", "-", "-1", "1 ", " 1", "1_000", "٣", "1e3", "++1"] {
        assert_eq!(as_u64(text), text.parse::<u64>().ok(), "{:?}", text);
    }
}

#[test]
fn signed_numbers_are_read_as_the_standard_library_reads_them() {
    for text in ["0", "-0", "+0", "7", "+7", "-7", "2147483647", "2147483648", "-2147483648",
        "-2147483649", "000000000000000000001", "-000000000000000000001", "", "+", "-", "--1", "+-1", "1-", "a"] {
        assert_eq!(as_i32(text), text.parse::<i32>().ok(), "{:?}", text);
    }
}

#[test]
fn part_of_a_line_is_read_as_a_number() {
    let chars = chars_of("ab123cd");
    assert_eq!(parse_u64(&chars, 2, 5), Some(123));
    assert_eq!(parse_u64(&chars, 2, 6), None);
    assert_eq!(parse_u64(&chars, 3, 3), None);
    assert_eq!(parse_i32(&chars, 3, 5), Some(23));
}

#[test]
fn numbers_are_written_in_decimal() {
    for n in [0u64, 1, 9, 10, 11, 99, 100, 12345, 1_700_000_000, u64::MAX] {
        let mut out = String::from("x");
        push_decimal(&mut out, n);
        assert_eq!(out, format!("x{}", n));
    }
    for n in [0i32, 1, -1, 10, -10, 999, i32::MAX, i32::MIN] {
        assert_eq!(signed_text(n), format!("{}", n));
    }
}

#[test]
fn text_is_put_at_the_right_of_its_field() {
    for (text, width) in [("1", 4usize), ("12", 4), ("1234", 4), ("12345", 4), ("", 3), ("-1", 3), ("é", 3), ("x", 0)] {
        let mut out = String::from("|");
        push_right_aligned(&mut out, text, width);
        assert_eq!(out, format!("|{: >1$}", text, width));
    }
}

#[test]
fn text_is_put_at_the_left_of_its_field() {
    for (text, width) in [("1", 4usize), ("12", 4), ("1234", 4), ("12345", 4), ("", 3), ("-1", 3), ("é", 3), ("x", 0)] {
        let mut out = String::from("|");
        push_right_padded(&mut out, text, width);
        assert_eq!(out, format!("|{: <1$}", text, width));
    }
    let mut out = String::new();
    push_right_padded(&mut out, "3", 4);
    assert_eq!(out, "3   ");
}

#[test]
fn count_is_written_before_the_spaces_that_fill_its_field() {
    let h = History { items: vec![item("/a", 7, 3)] };
    assert_eq!(h.to_text(), "7 3    /a\n");
    let h = History { items: vec![item("/a", 7, 999)] };
    assert_eq!(h.to_text(), "7 999  /a\n");
    let h = History { items: vec![item("/a", 7, 1000)] };
    assert_eq!(h.to_text(), "7 1000 /a\n");
}

#[test]
fn whitespace_is_what_the_standard_library_calls_whitespace() {
    for code in 0u32..0x3100 {
        if let Some(c) = char::from_u32(code) {
            assert_eq!(is_whitespace(c), c.is_whitespace(), "{:?}", c);
        }
    }
    assert!(!is_whitespace('\u{feff}'));
    assert!(!is_whitespace('\u{10ffff}'));
}

#[test]
fn history_is_written_a_line_for_each_record() {
    let h = History {
        items: vec![item("/home/alice", 1_700_000_000, 3), item("/home/alice/my docs", 5, 12345), item("/x", 0, -2)],
    };
    assert_eq!(h.to_text(), "1700000000 3    /home/alice\n5 12345 /home/alice/my docs\n0 -2   /x\n");
    assert_eq!(History::new().to_text(), "");
}

#[test]
fn no_file_leaves_the_history_empty() {
    let mut h = History::new();
    assert_eq!(h.read_file_and_fill_history(None), Ok(Vec::new()));
    assert!(h.items.is_empty());
}

#[test]
fn empty_file_leaves_the_history_empty() {
    let mut h = History::new();
    assert_eq!(h.read_file_and_fill_history(Some("")), Ok(Vec::new()));
    assert!(h.items.is_empty());
}

#[test]
fn file_is_read_line_by_line() {
    let mut h = History::new();
    let text = "10    1 /b\n20    2 /a\n30    3 /c";
    assert_eq!(h.read_file_and_fill_history(Some(text)), Ok(Vec::new()));
    assert_eq!(h.items, vec![item("/b", 10, 1), item("/a", 20, 2), item("/c", 30, 3)]);
}

#[test]
fn reading_adds_to_what_the_history_holds() {
    let mut h = History { items: vec![item("/z", 1, 1)] };
    assert_eq!(h.read_file_and_fill_history(Some("10 1 /b\r\n")), Ok(Vec::new()));
    assert_eq!(h.items, vec![item("/z", 1, 1), item("/b", 10, 1)]);
}

#[test]
fn short_lines_are_passed_over_and_listed() {
    let mut h = History::new();
    let text = "\n10 1 /b\nnonsense\n\n20 2 /a\n5 5\n";
    assert_eq!(h.read_file_and_fill_history(Some(text)), Ok(vec![0, 2, 3, 5]));
    assert_eq!(h.items, vec![item("/b", 10, 1), item("/a", 20, 2)]);
}

#[test]
fn bad_number_stops_the_load() {
    let mut h = History { items: vec![item("/z", 1, 1)] };
    let text = "10 1 /b\nshort\n20 x /a\nx 3 /c\n";
    assert_eq!(
        h.read_file_and_fill_history(Some(text)),
        Err(LoadFault { line: 2, fault: LineFault::BadCount })
    );
    assert_eq!(h.items, vec![item("/z", 1, 1)]);
    assert_eq!(
        h.read_file_and_fill_history(Some("x 1 /b")),
        Err(LoadFault { line: 0, fault: LineFault::BadTime })
    );
}

#[test]
fn what_is_written_is_read_back() {
    let h = History {
        items: vec![
            item("/", 0, 1),
            item("/home/alice", 1_700_000_000, 3),
            item("/home/alice/my docs/a b c", 5, 12345),
            item("/home/alice/données", u64::MAX, i32::MAX),
            item("relative", 17, -4),
            item("/home/bob", 18, i32::MIN),
        ],
    };
    let mut back = History::new();
    assert_eq!(back.read_file_and_fill_history(Some(h.to_text().as_str())), Ok(Vec::new()));
    assert_eq!(back.items, h.items);
    assert_eq!(back.to_text(), h.to_text());
}

#[test]
fn runs_of_spaces_in_a_path_are_not_kept() {
    let h = History { items: vec![item("/home/alice/a  b", 5, 1)] };
    let mut back = History::new();
    assert_eq!(back.read_file_and_fill_history(Some(h.to_text().as_str())), Ok(Vec::new()));
    assert_eq!(back.items, vec![item("/home/alice/a b", 5, 1)]);
}

fn entry(time: &str, count: &str, filename: &str) -> Entry {
    Entry { time: time.to_string(), count: count.to_string(), filename: filename.to_string() }
}

#[test]
fn text_is_split_into_entries() {
    let (entries, skipped) = split_lines("10 1 /b\n20  x   /a  b \nnow never /c");
    assert_eq!(entries, vec![entry("10", "1", "/b"), entry("20", "x", "/a b"), entry("now", "never", "/c")]);
    assert_eq!(skipped, Vec::<usize>::new());
}

#[test]
fn lines_without_three_fields_make_no_entry() {
    let (entries, skipped) = split_lines("one\n10 1 /b\n\n  \none two\n");
    assert_eq!(entries, vec![entry("10", "1", "/b")]);
    assert_eq!(skipped, vec![0, 2, 3, 4]);
    assert_eq!(split_lines(""), (Vec::new(), Vec::new()));
    assert_eq!(split_lines("\n"), (Vec::new(), vec![0]));
}
