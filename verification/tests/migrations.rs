use pg_trellis::migration::{
    classify_up_name, collect_migrations, is_missing_tracking_table, keep_rolling_back,
    plan_rollback, rollback_file_name, rollback_status, DirEntry, MigrationRun, Rollback,
    RunAction, RunEvent, ScanError, UpName,
};

fn file(name: &str) -> DirEntry {
    DirEntry::File { name: Some(name.to_string()) }
}

#[test]
fn up_names_are_read() {
    match classify_up_name("20240101120000_create_users.up.sql") {
        UpName::Migration { version, description } => {
            assert_eq!(version, 20240101120000);
            assert_eq!(description, "create_users");
        }
        _ => panic!("expected a migration"),
    }
    match classify_up_name("00000000000001_a_b_c.up.sql") {
        UpName::Migration { version, description } => {
            assert_eq!(version, 1);
            assert_eq!(description, "a_b_c");
        }
        _ => panic!("expected a migration"),
    }
}

#[test]
fn other_names_are_classified() {
    assert!(matches!(classify_up_name("20240101120000_x.down.sql"), UpName::NotMigration));
    assert!(matches!(classify_up_name("README.md"), UpName::NotMigration));
    assert!(matches!(classify_up_name("20240101120000.up.sql"), UpName::MissingSeparator));
    assert!(matches!(classify_up_name(".up.sql"), UpName::MissingSeparator));
    assert!(matches!(classify_up_name("2024_x.up.sql"), UpName::Malformed));
    assert!(matches!(classify_up_name("2024010112000a_x.up.sql"), UpName::Malformed));
    assert!(matches!(classify_up_name("20240101120000_.up.sql"), UpName::Malformed));
    assert!(matches!(classify_up_name("202401011200000_x.up.sql"), UpName::Malformed));
}

#[test]
fn migrations_are_listed_by_version() {
    let entries = vec![
        file("20240301000000_third.up.sql"),
        file("20240301000000_third.down.sql"),
        DirEntry::Other,
        file("20240101000000_first.up.sql"),
        file("notes.txt"),
        file("20240201000000_second.up.sql"),
    ];
    let files = match collect_migrations(&entries) {
        Ok(files) => files,
        Err(_) => panic!("scan failed"),
    };
    let versions: Vec<i64> = files.iter().map(|f| f.version).collect();
    assert_eq!(versions, vec![20240101000000, 20240201000000, 20240301000000]);
    assert_eq!(files[0].description, "first");
    assert_eq!(files[2].file_name, "20240301000000_third.up.sql");
}

#[test]
fn empty_directory_has_no_migrations() {
    assert!(matches!(collect_migrations(&vec![]), Ok(v) if v.is_empty()));
}

#[test]
fn duplicate_versions_are_refused() {
    let entries = vec![file("20240101000000_a.up.sql"), file("20240101000000_b.up.sql")];
    assert!(matches!(
        collect_migrations(&entries),
        Err(ScanError::DuplicateVersion { version: 20240101000000 })
    ));
}

#[test]
fn first_bad_entry_decides_the_error() {
    let entries = vec![
        file("20240101000000_a.up.sql"),
        DirEntry::File { name: None },
        DirEntry::Unreadable,
    ];
    assert!(matches!(collect_migrations(&entries), Err(ScanError::NonUtf8Name { index: 1 })));
    let entries = vec![DirEntry::Unreadable, file("bad.up.sql")];
    assert!(matches!(collect_migrations(&entries), Err(ScanError::Unreadable { index: 0 })));
    let entries = vec![file("bad.up.sql")];
    match collect_migrations(&entries) {
        Err(ScanError::MissingSeparator { file_name }) => assert_eq!(file_name, "bad.up.sql"),
        _ => panic!("expected a missing separator"),
    }
    let entries = vec![file("1_bad.up.sql")];
    match collect_migrations(&entries) {
        Err(ScanError::Malformed { file_name }) => assert_eq!(file_name, "1_bad.up.sql"),
        _ => panic!("expected a malformed name"),
    }
}

#[test]
fn rollback_script_names() {
    assert_eq!(rollback_file_name(20240101120000, "create_users"), "20240101120000_create_users.down.sql");
    assert_eq!(rollback_file_name(7, "x"), "00000000000007_x.down.sql");
}

#[test]
fn rollback_decisions_and_status() {
    let nothing = plan_rollback(None);
    assert!(matches!(nothing, Rollback::Nothing));
    assert_eq!(rollback_status(&nothing), 404);
    let revert = plan_rollback(Some((20240101120000, "create_users".to_string())));
    match &revert {
        Rollback::Revert { version, description, file_name } => {
            assert_eq!(*version, 20240101120000);
            assert_eq!(description, "create_users");
            assert_eq!(file_name, "20240101120000_create_users.down.sql");
        }
        Rollback::Nothing => panic!("expected a rollback"),
    }
    assert_eq!(rollback_status(&revert), 200);
    assert!(keep_rolling_back(200));
    assert!(!keep_rolling_back(404));
}

#[test]
fn missing_tracking_table_code() {
    assert!(is_missing_tracking_table("42P01"));
    assert!(!is_missing_tracking_table("42P07"));
    assert!(!is_missing_tracking_table(""));
}

fn run_over(names: &[&str]) -> MigrationRun {
    let entries: Vec<DirEntry> = names.iter().map(|n| file(n)).collect();
    match collect_migrations(&entries) {
        Ok(files) => MigrationRun::new(files),
        Err(_) => panic!("scan failed"),
    }
}

#[test]
fn run_applies_pending_migrations_in_order() {
    let mut run = run_over(&["20240201000000_b.up.sql", "20240101000000_a.up.sql", "20240301000000_c.up.sql"]);
    let mut applied = Vec::new();
    let mut checked = Vec::new();
    loop {
        match run.action() {
            RunAction::CheckApplied { version } => {
                checked.push(version);
                run.advance(RunEvent::Checked { already_applied: version == 20240201000000 });
            }
            RunAction::Apply { version, description, file_name } => {
                applied.push((version, description, file_name));
                run.advance(RunEvent::Applied);
            }
            RunAction::Commit => run.advance(RunEvent::Committed),
            RunAction::Finished => break,
        }
    }
    assert!(run.is_finished());
    assert_eq!(checked, vec![20240101000000, 20240201000000, 20240301000000]);
    assert_eq!(
        applied,
        vec![
            (20240101000000, "a".to_string(), "20240101000000_a.up.sql".to_string()),
            (20240301000000, "c".to_string(), "20240301000000_c.up.sql".to_string()),
        ]
    );
}

#[test]
fn run_ignores_events_out_of_turn() {
    let mut run = run_over(&["20240101000000_a.up.sql"]);
    run.advance(RunEvent::Committed);
    run.advance(RunEvent::Applied);
    assert!(matches!(run.action(), RunAction::CheckApplied { version: 20240101000000 }));
    run.advance(RunEvent::Checked { already_applied: false });
    assert!(matches!(run.action(), RunAction::Apply { version: 20240101000000, .. }));
    run.advance(RunEvent::Checked { already_applied: true });
    assert!(matches!(run.action(), RunAction::Apply { .. }));
}

#[test]
fn empty_run_is_finished() {
    let run = run_over(&[]);
    assert!(run.is_finished());
    assert!(matches!(run.action(), RunAction::Finished));
}

#[test]
fn second_run_applies_nothing() {
    let mut run = run_over(&["20240201000000_b.up.sql", "20240101000000_a.up.sql"]);
    let mut answers = 0;
    loop {
        match run.action() {
            RunAction::CheckApplied { .. } => run.advance(RunEvent::Checked { already_applied: true }),
            RunAction::Apply { .. } => panic!("a held migration was applied again"),
            RunAction::Commit => run.advance(RunEvent::Committed),
            RunAction::Finished => break,
        }
        answers += 1;
    }
    assert_eq!(answers, 4);
}

#[test]
fn test_loop_goes_on_while_migrations_are_recorded() {
    let mut recorded: Vec<(i64, String)> =
        vec![(20240101000000, "a".to_string()), (20240201000000, "b".to_string())];
    let mut calls = 0;
    loop {
        let rollback = plan_rollback(recorded.pop());
        calls += 1;
        if !keep_rolling_back(rollback_status(&rollback)) {
            break;
        }
    }
    assert_eq!(calls, 3);
}
