use rireq::record::{CmdData, CmdRecord};
use rireq::service::HistoryStats;
use rireq::store::{Db, StoreError};

fn sorted_snapshot(db: &Db) -> Vec<(String, u64, u64)> {
    let (recs, _max, skipped) = db.get_records().unwrap();
    assert_eq!(skipped, 0);
    let mut out: Vec<(String, u64, u64)> = recs
        .iter()
        .map(|r| (r.cmdline().to_string(), r.count(), r.last_exec_time()))
        .collect();
    out.sort();
    out
}

#[test]
fn record_two_merges_counts_and_time() {
    // Two raw texts that normalize to the same key, recorded one after the
    // other, end with count 2 and the later time.
    let mut db = Db::open_in_memory().unwrap();
    db.record(&CmdRecord::new_with_data("ls -l ".into(), CmdData::new(1, 100)))
        .unwrap();
    db.record(&CmdRecord::new_with_data(" ls -l".into(), CmdData::new(1, 90)))
        .unwrap();
    assert_eq!(
        sorted_snapshot(&db),
        vec![("ls -l".to_string(), 2, 100)]
    );
}

#[test]
fn record_ignorable_leaves_store_unchanged() {
    let mut db = Db::open_in_memory().unwrap();
    db.record(&CmdRecord::new_with_data("pwd".into(), CmdData::new(1, 10)))
        .unwrap();
    let before = sorted_snapshot(&db);
    db.record(&CmdRecord::new_with_data("   ".into(), CmdData::new(1, 99)))
        .unwrap();
    db.record(&CmdRecord::new_with_data("".into(), CmdData::new(1, 99)))
        .unwrap();
    assert_eq!(sorted_snapshot(&db), before);
}

#[test]
fn record_order_does_not_matter() {
    // The same multiset of recordings, applied in two different orders,
    // ends in the same stored state.
    let entries = [("a", 2, 50), ("a", 3, 20), ("a", 1, 70), ("b", 1, 5)];
    let mut db1 = Db::open_in_memory().unwrap();
    for (cmd, count, t) in entries.iter() {
        db1.record(&CmdRecord::new_with_data(
            cmd.to_string(),
            CmdData::new(*count, *t),
        ))
        .unwrap();
    }
    let mut db2 = Db::open_in_memory().unwrap();
    for (cmd, count, t) in entries.iter().rev() {
        db2.record(&CmdRecord::new_with_data(
            cmd.to_string(),
            CmdData::new(*count, *t),
        ))
        .unwrap();
    }
    let snap = sorted_snapshot(&db1);
    assert_eq!(snap, sorted_snapshot(&db2));
    assert_eq!(
        snap,
        vec![("a".to_string(), 6, 70), ("b".to_string(), 1, 5)]
    );
}

#[test]
fn import_merges_duplicate_line() {
    // A three-line import with one duplicate of an already-recorded command
    // raises that count by exactly one and leaves the others at one.
    let mut db = Db::open_in_memory().unwrap();
    db.record(&CmdRecord::new_with_data(
        "cargo build".into(),
        CmdData::new(1, 42),
    ))
    .unwrap();
    let n = db
        .import(&vec![
            "ls".to_string(),
            "cargo build".to_string(),
            "cd /".to_string(),
        ])
        .unwrap();
    assert_eq!(n, 3);
    assert_eq!(
        sorted_snapshot(&db),
        vec![
            ("cargo build".to_string(), 2, 42),
            ("cd /".to_string(), 1, 0),
            ("ls".to_string(), 1, 0),
        ]
    );
}

#[test]
fn export_import_round_trip() {
    let mut db = Db::open_in_memory().unwrap();
    db.record(&CmdRecord::new_with_data("ls".into(), CmdData::new(10, 910_000)))
        .unwrap();
    db.record(&CmdRecord::new_with_data("cd /tmp".into(), CmdData::new(3, 999_990)))
        .unwrap();
    db.record(&CmdRecord::new_with_data("make -j4".into(), CmdData::new(7, 500_000)))
        .unwrap();
    let (rows, skipped) = db.export_csv(1_000_000).unwrap();
    assert_eq!(skipped, 0);

    let mut fresh = Db::open_in_memory().unwrap();
    let n = fresh.import_csv(&rows).unwrap();
    assert_eq!(n, 3);
    assert_eq!(sorted_snapshot(&fresh), sorted_snapshot(&db));
}

#[test]
fn ranked_history_recent_beats_count() {
    // A command used moments ago outranks one with a far higher count used
    // outside the one-day window.
    let now: u64 = 1_000_000;
    let mut db = Db::open_in_memory().unwrap();
    db.record(&CmdRecord::new_with_data("ls".into(), CmdData::new(10, now - 90_000)))
        .unwrap();
    db.record(&CmdRecord::new_with_data("cd".into(), CmdData::new(1, now - 10)))
        .unwrap();
    let (lines, skipped) = db.history(now).unwrap();
    assert_eq!(skipped, 0);
    assert_eq!(lines, vec!["cd".to_string(), "ls".to_string()]);
}

#[test]
fn prune_removes_exactly_selected_keys() {
    let mut db = Db::open_in_memory().unwrap();
    for (cmd, count, t) in [("ls", 5u64, 10u64), ("cd", 2, 20), ("rm -rf target", 1, 30)] {
        db.record(&CmdRecord::new_with_data(cmd.into(), CmdData::new(count, t)))
            .unwrap();
    }
    let (candidates, skipped) = db.prune_candidates(false).unwrap();
    assert_eq!(skipped, 0);
    // Least useful first: the count-1 entry leads the list.
    assert_eq!(candidates[0], "1: rm -rf target");
    let selections = vec![
        candidates[0].clone(),
        "2: cd".to_string(),
        "not a candidate line".to_string(),
    ];
    let deleted = db.prune(&selections).unwrap();
    assert_eq!(deleted, vec!["rm -rf target".to_string(), "cd".to_string()]);
    assert_eq!(sorted_snapshot(&db), vec![("ls".to_string(), 5, 10)]);
}

#[test]
fn prune_candidates_oldest_first() {
    let mut db = Db::open_in_memory().unwrap();
    for (cmd, count, t) in [("new", 1u64, 100u64), ("old", 1, 5), ("big", 9, 1)] {
        db.record(&CmdRecord::new_with_data(cmd.into(), CmdData::new(count, t)))
            .unwrap();
    }
    let (older_first, _) = db.prune_candidates(true).unwrap();
    assert_eq!(older_first, vec!["1: old", "1: new", "9: big"]);
    let (least_useful, _) = db.prune_candidates(false).unwrap();
    assert_eq!(least_useful, vec!["1: new", "1: old", "9: big"]);
}

#[test]
fn stats_summarizes_corpus() {
    let mut db = Db::open_in_memory().unwrap();
    let data = [
        ("a", 7u64, 50u64),
        ("b", 3, 10),
        ("c", 9, 60),
        ("d", 1, 40),
        ("e", 5, 30),
        ("f", 2, 20),
        ("g", 8, 70),
    ];
    for (cmd, count, t) in data {
        db.record(&CmdRecord::new_with_data(cmd.into(), CmdData::new(count, t)))
            .unwrap();
    }
    let st: HistoryStats = db.stats().unwrap();
    assert_eq!(st.num_cmds, 7);
    assert_eq!(st.skipped, 0);
    assert_eq!(st.least_recent, Some(("b".to_string(), 10)));
    let counts: Vec<u64> = st.top_used.iter().map(|p| p.0).collect();
    assert_eq!(counts, vec![9, 8, 7, 5, 3]);
    assert_eq!(st.top_used[0].1, "c");
    assert_eq!(st.top_used[1].1, "g");
}

#[test]
fn stats_empty_corpus() {
    let db = Db::open_in_memory().unwrap();
    let st = db.stats().unwrap();
    assert_eq!(st.num_cmds, 0);
    assert_eq!(st.top_used.len(), 0);
    assert_eq!(st.least_recent, None);
}

#[test]
fn open_fails_when_location_cannot_be_created() {
    match Db::open("/nonexistent_dir_for_store/sub/history.redb") {
        Err(StoreError::StorageUnavailable) => {},
        other => panic!("expected StorageUnavailable, got {:?}", other.is_ok()),
    }
}

#[test]
fn history_empty_store() {
    let db = Db::open_in_memory().unwrap();
    let (lines, skipped) = db.history(123).unwrap();
    assert!(lines.is_empty());
    assert_eq!(skipped, 0);
}

#[test]
fn import_csv_accepts_rows_in_any_order() {
    // The same rows, imported in different orders, build the same store.
    let rows_a = vec![
        CmdRecord::new_with_data("ls".into(), CmdData::new(2, 30)),
        CmdRecord::new_with_data("cd".into(), CmdData::new(1, 10)),
        CmdRecord::new_with_data("ls".into(), CmdData::new(3, 20)),
    ];
    let rows_b = vec![
        CmdRecord::new_with_data("ls".into(), CmdData::new(3, 20)),
        CmdRecord::new_with_data("cd".into(), CmdData::new(1, 10)),
        CmdRecord::new_with_data("ls".into(), CmdData::new(2, 30)),
    ];
    let mut db_a = Db::open_in_memory().unwrap();
    assert_eq!(db_a.import_csv(&rows_a).unwrap(), 3);
    let mut db_b = Db::open_in_memory().unwrap();
    assert_eq!(db_b.import_csv(&rows_b).unwrap(), 3);
    let snap = sorted_snapshot(&db_a);
    assert_eq!(snap, sorted_snapshot(&db_b));
    assert_eq!(
        snap,
        vec![("cd".to_string(), 1, 10), ("ls".to_string(), 5, 30)]
    );
}

#[test]
fn stats_top_used_ties_keep_first_seen_order() {
    let mut db = Db::open_in_memory().unwrap();
    db.record(&CmdRecord::new_with_data("first".into(), CmdData::new(3, 1)))
        .unwrap();
    db.record(&CmdRecord::new_with_data("second".into(), CmdData::new(3, 2)))
        .unwrap();
    let st = db.stats().unwrap();
    assert_eq!(st.top_used.len(), 2);
    assert_eq!(st.top_used[0], (3, "first".to_string()));
    assert_eq!(st.top_used[1], (3, "second".to_string()));
}

#[test]
fn stats_top_used_lists_distinct_commands() {
    // Six commands tied at the same count: the summary lists five distinct
    // commands, never one command twice.
    let mut db = Db::open_in_memory().unwrap();
    for cmd in ["a", "b", "c", "d", "e", "f"] {
        db.record(&CmdRecord::new_with_data(cmd.into(), CmdData::new(9, 1)))
            .unwrap();
    }
    let st = db.stats().unwrap();
    assert_eq!(st.top_used.len(), 5);
    for (count, _) in &st.top_used {
        assert_eq!(*count, 9);
    }
    let mut names: Vec<String> = st.top_used.iter().map(|p| p.1.clone()).collect();
    names.sort();
    names.dedup();
    assert_eq!(names.len(), 5);
}
