use uniqr::engine::Deduper;
use uniqr::format::{format_count, format_record};
use uniqr::text::{content_of, content_len, dedup_lines, join_lines, split_lines, uniq_text};
use uniqr::Config;

fn strings(v: &[&str]) -> Vec<String> {
    v.iter().map(|s| s.to_string()).collect()
}

#[test]
fn consecutive_duplicates_collapse() {
    assert_eq!(uniq_text("a\na\nb\n", false), "a\nb\n");
    assert_eq!(uniq_text("a\na\nb\n", true), "   2 a\n   1 b\n");
}

#[test]
fn non_consecutive_duplicates_stay() {
    assert_eq!(uniq_text("a\nb\na\n", false), "a\nb\na\n");
    assert_eq!(uniq_text("a\nb\na\n", true), "   1 a\n   1 b\n   1 a\n");
}

#[test]
fn empty_input_gives_empty_output() {
    assert_eq!(uniq_text("", false), "");
    assert_eq!(uniq_text("", true), "");
    assert!(split_lines("").is_empty());
    assert!(dedup_lines(&Vec::new(), true).is_empty());
}

#[test]
fn all_lines_identical() {
    assert_eq!(uniq_text("x\nx\nx\nx\n", true), "   4 x\n");
    assert_eq!(uniq_text("x\nx\nx\nx\n", false), "x\n");
}

#[test]
fn missing_final_newline_merges() {
    assert_eq!(uniq_text("a\na", true), "   2 a\n");
    assert_eq!(uniq_text("a\na", false), "a\n");
    assert_eq!(uniq_text("b\na\na", false), "b\na\n");
}

#[test]
fn single_line_without_newline_is_kept_as_read() {
    assert_eq!(uniq_text("abc", false), "abc");
    assert_eq!(uniq_text("abc", true), "   1 abc");
}

#[test]
fn dedup_is_idempotent() {
    let inputs = ["a\na\nb\nb\nb\na\n", "x\ny\ny\nz", "q\nq", ""];
    for t in inputs.iter() {
        let once = uniq_text(t, false);
        assert_eq!(uniq_text(&once, false), once);
    }
}

#[test]
fn counts_add_up_to_line_count() {
    let lines = strings(&["a\n", "a\n", "b\n", "c\n", "c\n", "c\n", "a"]);
    let records = dedup_lines(&lines, true);
    let total: u64 = records
        .iter()
        .map(|r| r[..4].trim().parse::<u64>().unwrap())
        .sum();
    assert_eq!(total, 7);
    assert_eq!(records, strings(&["   2 a\n", "   1 b\n", "   3 c\n", "   1 a"]));
}

#[test]
fn representatives_keep_order() {
    let lines = strings(&["p\n", "q\n", "q\n", "p\n", "r\n", "r"]);
    assert_eq!(dedup_lines(&lines, false), strings(&["p\n", "q\n", "p\n", "r\n"]));
}

#[test]
fn representative_is_the_first_line_of_its_run() {
    let lines = strings(&["a", "a\n"]);
    assert_eq!(dedup_lines(&lines, false), strings(&["a"]));
    assert_eq!(dedup_lines(&lines, true), strings(&["   2 a"]));
}

#[test]
fn count_field_is_right_justified() {
    assert_eq!(format_count(0), "   0");
    assert_eq!(format_count(7), "   7");
    assert_eq!(format_count(42), "  42");
    assert_eq!(format_count(9999), "9999");
    assert_eq!(format_count(12345), "12345");
    assert_eq!(format_count(u64::MAX), "18446744073709551615");
}

#[test]
fn records_follow_the_mode() {
    assert_eq!(format_record("line\n", 3, true), "   3 line\n");
    assert_eq!(format_record("line\n", 3, false), "line\n");
}

#[test]
fn content_drops_trailing_newlines() {
    assert_eq!(content_of("abc\n"), "abc");
    assert_eq!(content_of("abc"), "abc");
    assert_eq!(content_of("a\n\n"), "a");
    assert_eq!(content_of("\n"), "");
    assert_eq!(content_len("héllo\n"), 5);
}

#[test]
fn lines_keep_their_terminators() {
    assert_eq!(split_lines("a\nb\n\nc"), strings(&["a\n", "b\n", "\n", "c"]));
    assert_eq!(split_lines("é\nü\n"), strings(&["é\n", "ü\n"]));
    assert_eq!(join_lines(&strings(&["a\n", "b"])), "a\nb");
}

#[test]
fn streaming_matches_whole_text() {
    let mut d = Deduper::new(true);
    let mut out = Vec::new();
    for l in ["a\n", "a\n", "b\n", "b"] {
        if let Some(r) = d.feed(l.to_string()) {
            out.push(r);
        }
    }
    assert_eq!(d.run_length(), 2);
    if let Some(r) = d.finish() {
        out.push(r);
    }
    assert_eq!(out, strings(&["   2 a\n", "   2 b\n"]));
}

#[test]
fn streaming_without_lines_emits_nothing() {
    let d = Deduper::new(false);
    assert_eq!(d.run_length(), 0);
    assert!(!d.show_count());
    assert_eq!(d.finish(), None);
}

#[test]
fn config_keeps_its_fields() {
    let c = Config::new("-".to_string(), None, true);
    assert!(c.reads_stdin());
    assert_eq!(c.in_file(), "-");
    assert_eq!(c.out_file(), None);
    assert!(c.count());
    let c = Config::new("in.txt".to_string(), Some("out.txt".to_string()), false);
    assert!(!c.reads_stdin());
    assert_eq!(c.in_file(), "in.txt");
    assert_eq!(c.out_file(), Some("out.txt"));
    assert!(!c.count());
    assert!(!Config::new("--".to_string(), None, false).reads_stdin());
}
