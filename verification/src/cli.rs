//! What one invocation does, decided from its command-line flags.
use vstd::prelude::*;

use crate::apply::MigrationAction;

verus! {

/// The command-line flags that decide what an invocation does.
pub struct Flags {
    pub apply: bool,
    pub create: bool,
    pub test: bool,
    pub migration: Option<MigrationAction>,
    pub serve: bool,
    pub temporary_db: bool,
}

/// The work done once connected.
pub enum Work {
    /// Apply the configuration.
    Apply,
    /// Apply every migration of `migrations_dir` to `database`, then roll
    /// them all back.
    TestMigrations { database: String, migrations_dir: String },
    /// Nothing.
    Nothing,
}

/// What an invocation does.
pub enum Command {
    /// Create a new migration in `migrations_dir` when one is asked for,
    /// then stop.
    Create { migrations_dir: Option<String> },
    /// Start a server when `serve` (a throw-away one when `temporary`),
    /// connect, do `work`, and when `wait_for_shutdown` keep serving until
    /// interrupted.
    Run { serve: bool, temporary: bool, work: Work, wait_for_shutdown: bool },
}

/// `.`
pub open spec fn current_dir() -> Seq<char> {
    seq!['.']
}

/// `test`
pub open spec fn test_database() -> Seq<char> {
    seq!['t', 'e', 's', 't']
}

/// `./migrations`
pub open spec fn test_migrations_dir() -> Seq<char> {
    seq!['.', '/', 'm', 'i', 'g', 'r', 'a', 't', 'i', 'o', 'n', 's']
}

/// Decides what an invocation does: `--create` only creates a migration (in
/// the current directory, when `--migration` is given); otherwise a test run
/// always serves a temporary server, `--apply` applies the configuration, a
/// test run with `--migration` tests the migrations of `./migrations` on the
/// `test` database, and a server started outside a test keeps running until
/// interrupted.
pub fn plan_command(flags: &Flags) -> (c: Command)
    ensures
        flags.create ==> (c matches Command::Create { migrations_dir } && (match migrations_dir {
            Some(dir) => flags.migration is Some && dir@ == current_dir(),
            None => flags.migration is None,
        })),
        !flags.create ==> (c matches Command::Run { serve, temporary, work, wait_for_shutdown } && {
            &&& serve == (flags.serve || flags.test)
            &&& temporary == (flags.temporary_db || flags.test)
            &&& wait_for_shutdown == (serve && !flags.test)
            &&& match work {
                Work::Apply => flags.apply,
                Work::TestMigrations { database, migrations_dir } => !flags.apply && flags.test
                    && flags.migration is Some && database@ == test_database() && migrations_dir@
                    == test_migrations_dir(),
                Work::Nothing => !flags.apply && !(flags.test && flags.migration is Some),
            }
        }),
{
    if flags.create {
        if flags.migration.is_some() {
            proof {
                reveal_strlit(".");
            }
            return Command::Create { migrations_dir: Some(".".to_string()) };
        }
        return Command::Create { migrations_dir: None };
    }
    let serve = flags.serve || flags.test;
    let temporary = flags.temporary_db || flags.test;
    let work = if flags.apply {
        Work::Apply
    } else if flags.test && flags.migration.is_some() {
        proof {
            reveal_strlit("test");
            reveal_strlit("./migrations");
        }
        Work::TestMigrations {
            database: "test".to_string(),
            migrations_dir: "./migrations".to_string(),
        }
    } else {
        Work::Nothing
    };
    Command::Run { serve, temporary, work, wait_for_shutdown: serve && !flags.test }
}

} // verus!
