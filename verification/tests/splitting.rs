use file_data_splitter::batch::{split_lines, FileEntry};
use file_data_splitter::splitter::{check_target_empty, SplitError, Splitter};

fn lines_of(xs: &[&str]) -> Vec<String> {
    let mut v = Vec::new();
    for x in xs {
        v.push(x.to_string());
    }
    v
}

fn as_tuple(e: &FileEntry) -> (&str, &str, &str) {
    (e.dir_name.as_str(), e.file_stem.as_str(), e.content.as_str())
}

#[test]
fn split_scenario_cross_directory() {
    let lines = lines_of(&[
        "00014XXXXXXXX07",
        "00014XXXXXXXX08",
        "00015XXXXXXXX08",
        "00115YYYYYYYY",
        "00215YYYYYYYY",
    ]);
    let entries = split_lines(&lines, 3, 2, "\n").unwrap();
    assert_eq!(entries.len(), 4);
    assert_eq!(as_tuple(&entries[0]), ("000", "14", "XXXXXXXX07\nXXXXXXXX08"));
    assert_eq!(as_tuple(&entries[1]), ("000", "15", "XXXXXXXX08"));
    assert_eq!(as_tuple(&entries[2]), ("001", "15", "YYYYYYYY"));
    assert_eq!(as_tuple(&entries[3]), ("002", "15", "YYYYYYYY"));
}

#[test]
fn split_scenario_hashes() {
    let lines = lines_of(&[
        "0001475f955b2594ef549e0a8a32d621063e7a07",
        "0001475f955b2594ef549e0a8a32d621063e7a08",
        "0001575f955b2594ef549e0a8a32d621063e7a08",
        "001e8e063a0cea119d0e685d3304b5cb18e6435a",
    ]);
    let entries = split_lines(&lines, 3, 2, "\n").unwrap();
    assert_eq!(entries.len(), 3);
    assert_eq!(
        as_tuple(&entries[0]),
        ("000", "14", "75f955b2594ef549e0a8a32d621063e7a07\n75f955b2594ef549e0a8a32d621063e7a08")
    );
    assert_eq!(as_tuple(&entries[1]), ("000", "15", "75f955b2594ef549e0a8a32d621063e7a08"));
    assert_eq!(as_tuple(&entries[2]), ("001", "e8", "e063a0cea119d0e685d3304b5cb18e6435a"));
}

#[test]
fn separator_placement_run() {
    let lines = lines_of(&["aaabbP1", "aaabbP2", "aaabbP3"]);
    let entries = split_lines(&lines, 3, 2, "\n").unwrap();
    assert_eq!(entries.len(), 1);
    assert_eq!(as_tuple(&entries[0]), ("aaa", "bb", "P1\nP2\nP3"));
}

#[test]
fn separator_eol_variants() {
    let lines = lines_of(&["aaabbx", "aaabby"]);
    let entries = split_lines(&lines, 3, 2, "\r\n").unwrap();
    assert_eq!(entries[0].content, "x\r\ny");
    let entries = split_lines(&lines, 3, 2, "\u{2028}").unwrap();
    assert_eq!(entries[0].content, "x\u{2028}y");
}

#[test]
fn empty_payloads_still_separated() {
    let lines = lines_of(&["aaabb", "aaabb"]);
    let entries = split_lines(&lines, 3, 2, "\n").unwrap();
    assert_eq!(entries.len(), 1);
    assert_eq!(as_tuple(&entries[0]), ("aaa", "bb", "\n"));
}

#[test]
fn malformed_line_aborts() {
    let lines = lines_of(&["aaabbcc", "abc", "aaabbdd"]);
    let r = split_lines(&lines, 3, 2, "\n");
    assert_eq!(r.unwrap_err(), SplitError::MalformedLine);
    let r = split_lines(&lines_of(&["ab"]), 3, 2, "\n");
    assert_eq!(r.unwrap_err(), SplitError::MalformedLine);
}

#[test]
fn append_without_separator_on_nonconsecutive_repeat() {
    let lines = lines_of(&["00014a", "00115b", "00014c"]);
    let entries = split_lines(&lines, 3, 2, "\n").unwrap();
    assert_eq!(entries.len(), 2);
    assert_eq!(as_tuple(&entries[0]), ("000", "14", "ac"));
    assert_eq!(as_tuple(&entries[1]), ("001", "15", "b"));
}

#[test]
fn empty_input_yields_no_files() {
    let entries = split_lines(&Vec::new(), 3, 2, "\n").unwrap();
    assert!(entries.is_empty());
}

#[test]
fn zero_length_keys() {
    let entries = split_lines(&lines_of(&["abcd"]), 0, 2, "\n").unwrap();
    assert_eq!(as_tuple(&entries[0]), ("", "ab", "cd"));
    let entries = split_lines(&lines_of(&["abcx", "abcy"]), 3, 0, "\n").unwrap();
    assert_eq!(as_tuple(&entries[0]), ("abc", "", "x\ny"));
}

#[test]
fn step_plans_follow_sorted_input() {
    let mut sp = Splitter::new(3, 2, "\n");

    let p1 = sp.step("00014abc").unwrap();
    assert_eq!(p1.dir_name, "000");
    assert_eq!(p1.file_stem, "14");
    assert_eq!(p1.payload, "abc");
    assert!(p1.make_dir);
    assert!(!p1.close_previous);
    assert!(!p1.reuse_writer);

    let p2 = sp.step("00014def").unwrap();
    assert!(!p2.make_dir);
    assert!(!p2.close_previous);
    assert!(p2.reuse_writer);

    let p3 = sp.step("00015ghi").unwrap();
    assert!(!p3.make_dir);
    assert!(p3.close_previous);
    assert!(!p3.reuse_writer);
    assert_eq!(p3.file_stem, "15");

    let p4 = sp.step("00115jkl").unwrap();
    assert!(p4.make_dir);
    assert!(p4.close_previous);
    assert!(!p4.reuse_writer);
}

#[test]
fn step_rejects_short_line_and_keeps_state() {
    let mut sp = Splitter::new(3, 2, "\n");
    let p1 = sp.step("00115jkl").unwrap();
    assert!(p1.make_dir);

    let e = sp.step("0011").unwrap_err();
    assert_eq!(e, SplitError::MalformedLine);

    let p2 = sp.step("00115mno").unwrap();
    assert!(p2.reuse_writer);
    assert!(!p2.make_dir);
}

#[test]
fn file_key_repeat_across_directories_reopens() {
    let lines = lines_of(&["00014a", "00114b"]);
    let entries = split_lines(&lines, 3, 2, "\n").unwrap();
    assert_eq!(entries.len(), 2);
    assert_eq!(as_tuple(&entries[0]), ("000", "14", "a"));
    assert_eq!(as_tuple(&entries[1]), ("001", "14", "b"));

    let mut sp = Splitter::new(3, 2, "\n");
    sp.step("00014a").unwrap();
    let p = sp.step("00114b").unwrap();
    assert!(p.make_dir);
    assert!(p.close_previous);
    assert!(!p.reuse_writer);
}

#[test]
fn target_must_be_empty() {
    assert!(check_target_empty(false).is_ok());
    assert_eq!(check_target_empty(true).unwrap_err(), SplitError::TargetNotEmpty);
}
