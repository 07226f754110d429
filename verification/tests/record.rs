use rireq::norm::normalize;
use rireq::record::{CmdData, CmdRecord};
use rireq::text::{candidate_line, parse_selection, u64_to_string};

#[test]
fn cmddata_merge() {
    let cmddata1 = CmdData::new(1, 0);
    let cmddata2 = CmdData::new(2, 2000000000);
    let cmddata3 = CmdData::new(3, 1000000000);
    let cmdrec = CmdRecord::new_with_data("".into(), cmddata2);
    assert_eq!(cmddata1.merge(&cmdrec), CmdData::new(3, 2000000000));
    assert_eq!(cmddata3.merge(&cmdrec), CmdData::new(5, 2000000000));
}

#[test]
fn cmdrecord_is_ignored() {
    let cmdrec_empty = CmdRecord::new("".into());
    let cmdrec_spaces = CmdRecord::new("   ".into());
    let cmdrec_nonempty = CmdRecord::new("foo bar".into());

    assert!(cmdrec_empty.is_ignored());
    assert!(cmdrec_spaces.is_ignored());
    assert!(!cmdrec_nonempty.is_ignored());
}

#[test]
fn cmdrecord_rank_no_time_diff() {
    let mut cmdrec = CmdRecord::new("".into());
    assert_eq!(cmdrec.rank(1000, cmdrec.last_exec_time()), u64::MAX);

    cmdrec.cmd_data.count = 200;
    assert_eq!(cmdrec.rank(1000, cmdrec.last_exec_time()), u64::MAX);
}

#[test]
fn cmdrecord_rank_compare() {
    let cmdrec_1count = CmdRecord::new("".into());
    let time_1sec = cmdrec_1count.last_exec_time() + 1;
    let time_1day = cmdrec_1count.last_exec_time() + 86400;
    let time_2day = cmdrec_1count.last_exec_time() + 86400 * 2;

    let mut cmdrec_1000count = CmdRecord::new("".into());
    cmdrec_1000count.cmd_data.count = 1000;
    cmdrec_1000count.cmd_data.last_exec_time = cmdrec_1count.cmd_data.last_exec_time;
    assert!(cmdrec_1count.rank(1000, time_1sec) > cmdrec_1000count.rank(1000, time_1day));

    let mut cmdrec_2000count = CmdRecord::new("".into());
    cmdrec_2000count.cmd_data.count = 2000;
    assert!(cmdrec_2000count.rank(2000, time_2day) > cmdrec_1000count.rank(2000, time_1day));
}

#[test]
fn normalize_without_space() {
    assert_eq!(normalize("ls"), "ls");
    assert_eq!(normalize("cat foo.txt"), "cat foo.txt");
}

#[test]
fn normalize_with_prefix_and_suffix_spaces() {
    assert_eq!(normalize(" \tcp foo.txt bar.txt"), "cp foo.txt bar.txt");
    assert_eq!(
        normalize("foo 2>&1 | tee foo.txt "),
        "foo 2>&1 | tee foo.txt"
    );
    assert_eq!(
        normalize(" ls  -l   foo bar  baz   "),
        "ls  -l   foo bar  baz"
    );
}

#[test]
fn normalize_unicode_whitespace() {
    assert_eq!(normalize("\u{a0}\u{3000}ls -l\u{2028} "), "ls -l");
    assert_eq!(normalize("\t\n \r"), "");
}

#[test]
fn rank_within_window_is_max() {
    // Any entry younger than 86399 seconds ranks maximally, whatever the
    // counts involved.
    let rec = CmdRecord::new_with_data("ls".into(), CmdData::new(1, 1_000_000));
    assert_eq!(rec.rank(0, 1_000_000 + 86398), u64::MAX);
    assert_eq!(rec.rank(u64::MAX, 1_000_000 + 86398), u64::MAX);
    // The clock reading earlier than the entry counts as age zero.
    assert_eq!(rec.rank(17, 0), u64::MAX);
}

#[test]
fn rank_at_window_edge() {
    // At exactly 86399 seconds the penalty divisor equals the day constant,
    // so the score is the corpus maximum plus the count.
    let rec = CmdRecord::new_with_data("ls".into(), CmdData::new(7, 1_000_000));
    assert_eq!(rec.rank(1000, 1_000_000 + 86399), 1007);
}

#[test]
fn rank_decays_with_age() {
    let rec = CmdRecord::new_with_data("ls".into(), CmdData::new(1, 0));
    let day = 86400;
    let r1 = rec.rank(10_000, day);
    let r2 = rec.rank(10_000, 2 * day);
    let r7 = rec.rank(10_000, 7 * day);
    assert!(u64::MAX > r1);
    assert!(r1 > r2);
    assert!(r2 > r7);
}

#[test]
fn merge_saturates_at_max() {
    let a = CmdData::new(u64::MAX - 1, 5);
    let rec = CmdRecord::new_with_data("x".into(), CmdData::new(3, 4));
    assert_eq!(a.merge(&rec), CmdData::new(u64::MAX, 5));
}

#[test]
fn u64_to_string_renders_decimal() {
    assert_eq!(u64_to_string(0), "0");
    assert_eq!(u64_to_string(7), "7");
    assert_eq!(u64_to_string(12345), "12345");
    assert_eq!(u64_to_string(u64::MAX), "18446744073709551615");
}

#[test]
fn candidate_line_format() {
    assert_eq!(candidate_line(3, "ls -l"), "3: ls -l");
}

#[test]
fn parse_selection_splits_once() {
    assert_eq!(parse_selection("12: ls -l"), Some("ls -l".to_string()));
    assert_eq!(parse_selection("3: a: b"), Some("a: b".to_string()));
    assert_eq!(parse_selection(": x"), Some("x".to_string()));
    assert_eq!(parse_selection("garbage"), None);
    assert_eq!(parse_selection(""), None);
}

#[test]
fn candidate_line_parses_back() {
    let line = candidate_line(42, "cargo test -- --nocapture");
    assert_eq!(
        parse_selection(&line),
        Some("cargo test -- --nocapture".to_string())
    );
}

#[test]
fn key_is_normalized_cmdline() {
    let rec = CmdRecord::new("  git status  ".into());
    assert_eq!(rec.key(), "git status");
    assert_eq!(rec.cmdline(), "  git status  ");
}
