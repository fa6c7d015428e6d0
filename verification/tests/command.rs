use std::collections::BTreeMap;
use pg_trellis::apply::MigrationAction;
use pg_trellis::cli::{plan_command, Command, Flags, Work};
use pg_trellis::secret::resolve_secret;

fn flags() -> Flags {
    Flags { apply: false, create: false, test: false, migration: None, serve: false, temporary_db: false }
}

#[test]
fn create_with_migration_uses_current_directory() {
    let f = Flags { create: true, migration: Some(MigrationAction::Up), ..flags() };
    match plan_command(&f) {
        Command::Create { migrations_dir: Some(dir) } => assert_eq!(dir, "."),
        _ => panic!("expected create"),
    }
    let f = Flags { create: true, ..flags() };
    assert!(matches!(plan_command(&f), Command::Create { migrations_dir: None }));
}

#[test]
fn test_runs_serve_a_temporary_server() {
    let f = Flags { test: true, migration: Some(MigrationAction::Up), ..flags() };
    match plan_command(&f) {
        Command::Run { serve, temporary, work, wait_for_shutdown } => {
            assert!(serve && temporary && !wait_for_shutdown);
            match work {
                Work::TestMigrations { database, migrations_dir } => {
                    assert_eq!(database, "test");
                    assert_eq!(migrations_dir, "./migrations");
                }
                _ => panic!("expected a migration test"),
            }
        }
        _ => panic!("expected a run"),
    }
    let f = Flags { test: true, ..flags() };
    assert!(matches!(plan_command(&f), Command::Run { work: Work::Nothing, .. }));
}

#[test]
fn serving_apply_waits_for_shutdown() {
    let f = Flags { apply: true, serve: true, ..flags() };
    match plan_command(&f) {
        Command::Run { serve, temporary, work, wait_for_shutdown } => {
            assert!(serve && !temporary && wait_for_shutdown);
            assert!(matches!(work, Work::Apply));
        }
        _ => panic!("expected a run"),
    }
    let f = Flags { apply: true, ..flags() };
    assert!(matches!(
        plan_command(&f),
        Command::Run { serve: false, temporary: false, work: Work::Apply, wait_for_shutdown: false }
    ));
}

fn vars(pairs: &[(&str, &str)]) -> BTreeMap<String, String> {
    pairs.iter().map(|(k, v)| (k.to_string(), v.to_string())).collect()
}

#[test]
fn plain_passwords_are_kept() {
    let env = vars(&[("A", "x")]);
    assert_eq!(resolve_secret("hunter2", &env).ok().unwrap(), "hunter2");
    assert_eq!(resolve_secret("", &env).ok().unwrap(), "");
}

#[test]
fn variables_are_substituted() {
    let env = vars(&[("PGPASS", "s3cret"), ("USER_1", "bob")]);
    assert_eq!(resolve_secret("$PGPASS", &env).ok().unwrap(), "s3cret");
    assert_eq!(resolve_secret("${USER_1}:${PGPASS}", &env).ok().unwrap(), "bob:s3cret");
    assert_eq!(resolve_secret("pre-${PGPASS:dflt}", &env).ok().unwrap(), "pre-s3cret");
    assert_eq!(resolve_secret("\\$PGPASS", &env).ok().unwrap(), "$PGPASS");
}

#[test]
fn default_values_are_substituted() {
    let env = vars(&[]);
    let r = resolve_secret("${PG_TRELLIS_UNSET:fallback}-x", &env);
    assert_eq!(r.ok().unwrap(), "fallback-x");
}

#[test]
fn broken_templates_are_errors() {
    let env = vars(&[]);
    let r = resolve_secret("$", &env);
    assert!(r.is_err());
    let r = resolve_secret("${PG_TRELLIS_UNSET}", &env);
    assert!(!r.err().unwrap().message.is_empty());
}
