//! Migration files: how their names are read, how a directory listing
//! becomes the ordered list of migrations to apply, and the name of the
//! script that rolls a migration back.
use std::collections::BTreeMap;
use vstd::prelude::*;
use vstd::std_specs::btree::increasing_seq;

use crate::text::{
    digits_value, ends_with, ends_with_chars, find_char, first_index_of, format_zero_padded,
    is_digit, lemma_digits_value_bound, pow10, push_char, push_chars, signed_zero_padded,
    to_chars,
};

verus! {

broadcast use vstd::std_specs::btree::group_btree_axioms;

/// The number of digits in a migration's version (`YYYYMMDDHHMMSS`).
pub const VERSION_DIGITS: usize = 14;

/// The ending of a script that applies a migration.
pub open spec fn up_suffix() -> Seq<char> {
    seq!['.', 'u', 'p', '.', 's', 'q', 'l']
}

/// The ending of a script that rolls a migration back.
pub open spec fn down_suffix() -> Seq<char> {
    seq!['.', 'd', 'o', 'w', 'n', '.', 's', 'q', 'l']
}

/// Whether `s` is a version: exactly fourteen ASCII digits.
pub open spec fn is_version_text(s: Seq<char>) -> bool {
    &&& s.len() == VERSION_DIGITS
    &&& forall|i: int| 0 <= i < s.len() ==> is_digit(#[trigger] s[i])
}

/// What a file name says about the migration it may hold.
pub enum UpNameView {
    /// The name does not end in `.up.sql`: the file is no migration.
    NotMigration,
    /// The name ends in `.up.sql` but has no `_` before that ending.
    MissingSeparator,
    /// The part before the first `_` is not a version, or nothing follows it.
    Malformed,
    /// A migration with this version and description.
    Migration { version: int, description: Seq<char> },
}

/// How a file name is read: `<version>_<description>.up.sql`, split at the
/// first `_`, where the version is fourteen digits and the description is not
/// empty.
pub open spec fn up_name_kind(name: Seq<char>) -> UpNameView {
    if !ends_with(name, up_suffix()) {
        UpNameView::NotMigration
    } else {
        let stem = name.subrange(0, name.len() - up_suffix().len());
        match first_index_of(stem, '_') {
            None => UpNameView::MissingSeparator,
            Some(k) => {
                let version = stem.subrange(0, k);
                let description = stem.subrange(k + 1, stem.len() as int);
                if is_version_text(version) && description.len() > 0 {
                    UpNameView::Migration { version: digits_value(version), description }
                } else {
                    UpNameView::Malformed
                }
            },
        }
    }
}

/// What a file name says about the migration it may hold.
pub enum UpName {
    NotMigration,
    MissingSeparator,
    Malformed,
    Migration { version: i64, description: String },
}

impl View for UpName {
    type V = UpNameView;

    open spec fn view(&self) -> UpNameView {
        match self {
            UpName::NotMigration => UpNameView::NotMigration,
            UpName::MissingSeparator => UpNameView::MissingSeparator,
            UpName::Malformed => UpNameView::Malformed,
            UpName::Migration { version, description } => UpNameView::Migration {
                version: *version as int,
                description: description@,
            },
        }
    }
}

/// Ten to a power grows with the power.
proof fn lemma_pow10_monotone(a: nat, b: nat)
    requires
        a <= b,
    ensures
        1 <= pow10(a) <= pow10(b),
    decreases b,
{
    if b > 0 {
        let c: nat = if a < b { a } else { (b - 1) as nat };
        lemma_pow10_monotone(c, (b - 1) as nat);
    }
}

/// The numeric value of the digits `cs[0..n]`.
fn version_value(cs: &Vec<char>, n: usize) -> (v: i64)
    requires
        n <= cs@.len(),
        is_version_text(cs@.subrange(0, n as int)),
    ensures
        v as int == digits_value(cs@.subrange(0, n as int)),
        0 <= v,
{
    let ghost s = cs@.subrange(0, n as int);
    proof {
        reveal_with_fuel(pow10, 15);
        assert(pow10(14) == 100000000000000);
    }
    let mut v: i64 = 0;
    let mut i: usize = 0;
    while i < n
        invariant
            i <= n <= cs@.len(),
            n == VERSION_DIGITS,
            s == cs@.subrange(0, n as int),
            is_version_text(s),
            v as int == digits_value(s.subrange(0, i as int)),
            0 <= v,
            pow10(14) == 100000000000000,
        decreases n - i,
    {
        let ghost p = s.subrange(0, i + 1);
        proof {
            assert(p.drop_last() == s.subrange(0, i as int));
            assert forall|j: int| 0 <= j < p.len() implies is_digit(#[trigger] p[j]) by {
                assert(p[j] == s[j]);
            }
            lemma_digits_value_bound(p);
            lemma_pow10_monotone((i + 1) as nat, 14);
            assert(is_digit(s[i as int]));
        }
        let d = cs[i] as u32 - '0' as u32;
        v = v * 10 + d as i64;
        i += 1;
    }
    assert(s.subrange(0, n as int) == s);
    v
}

/// Reads a file name as `<version>_<description>.up.sql`.
pub fn classify_up_name(name: &str) -> (r: UpName)
    ensures
        r@ == up_name_kind(name@),
{
    let cs = to_chars(name);
    let suffix: Vec<char> = vec!['.', 'u', 'p', '.', 's', 'q', 'l'];
    assert(suffix@ == up_suffix());
    if !ends_with_chars(&cs, &suffix) {
        return UpName::NotMigration;
    }
    let stem_len = cs.len() - suffix.len();
    let ghost stem = cs@.subrange(0, stem_len as int);
    assert(stem == name@.subrange(0, name@.len() - up_suffix().len()));
    match find_char(&cs, 0, stem_len, '_') {
        None => UpName::MissingSeparator,
        Some(k) => {
            let ghost version_text = stem.subrange(0, k as int);
            let ghost description = stem.subrange(k + 1, stem.len() as int);
            assert(version_text == cs@.subrange(0, k as int));
            let mut all_digits = k == VERSION_DIGITS;
            let mut i: usize = 0;
            while all_digits && i < k
                invariant
                    i <= k < stem_len <= cs@.len(),
                    version_text == cs@.subrange(0, k as int),
                    all_digits ==> k == VERSION_DIGITS,
                    all_digits ==> forall|j: int| 0 <= j < i ==> is_digit(#[trigger] version_text[j]),
                    !all_digits ==> !is_version_text(version_text),
                decreases k - i + (if all_digits { 1int } else { 0int }),
            {
                let c = cs[i];
                if !('0' <= c && c <= '9') {
                    assert(!is_digit(version_text[i as int]));
                    all_digits = false;
                } else {
                    i += 1;
                }
            }
            if all_digits && k + 1 < stem_len {
                assert(is_version_text(version_text));
                let version = version_value(&cs, k);
                let mut text = String::new();
                push_chars(&mut text, &cs, k + 1, stem_len);
                assert(text@ == description);
                UpName::Migration { version, description: text }
            } else {
                UpName::Malformed
            }
        },
    }
}

/// One entry of a migrations directory, as far as the scan needs it.
pub enum DirEntry {
    /// The entry, or its file type, could not be read.
    Unreadable,
    /// Not a regular file (a directory, say).
    Other,
    /// A regular file; its name, or `None` where the name is not UTF-8.
    File { name: Option<String> },
}

/// A migration found in the directory.
pub struct MigrationFile {
    pub version: i64,
    pub description: String,
    /// The name of its `.up.sql` script.
    pub file_name: String,
}

/// Why a migrations directory cannot be used.
pub enum ScanError {
    /// The entry at this position could not be read.
    Unreadable { index: usize },
    /// The file at this position has a name that is not UTF-8.
    NonUtf8Name { index: usize },
    /// An `.up.sql` file without a `_` between version and description.
    MissingSeparator { file_name: String },
    /// An `.up.sql` file whose version or description is not well formed.
    Malformed { file_name: String },
    /// Two scripts share this version.
    DuplicateVersion { version: i64 },
}

pub enum ScanErrorView {
    Unreadable { index: int },
    NonUtf8Name { index: int },
    MissingSeparator { file_name: Seq<char> },
    Malformed { file_name: Seq<char> },
    DuplicateVersion { version: int },
}

impl View for ScanError {
    type V = ScanErrorView;

    open spec fn view(&self) -> ScanErrorView {
        match self {
            ScanError::Unreadable { index } => ScanErrorView::Unreadable { index: *index as int },
            ScanError::NonUtf8Name { index } => ScanErrorView::NonUtf8Name { index: *index as int },
            ScanError::MissingSeparator { file_name } => ScanErrorView::MissingSeparator {
                file_name: file_name@,
            },
            ScanError::Malformed { file_name } => ScanErrorView::Malformed { file_name: file_name@ },
            ScanError::DuplicateVersion { version } => ScanErrorView::DuplicateVersion {
                version: *version as int,
            },
        }
    }
}

/// The migrations found so far: version to (description, file name).
pub type FoundMigrations = Map<int, (Seq<char>, Seq<char>)>;

/// What one more entry, at position `index`, does to the migrations found so far.
pub open spec fn scan_step(found: FoundMigrations, entry: DirEntry, index: int) -> Result<
    FoundMigrations,
    ScanErrorView,
> {
    match entry {
        DirEntry::Unreadable => Err(ScanErrorView::Unreadable { index }),
        DirEntry::Other => Ok(found),
        DirEntry::File { name: None } => Err(ScanErrorView::NonUtf8Name { index }),
        DirEntry::File { name: Some(name) } => match up_name_kind(name@) {
            UpNameView::NotMigration => Ok(found),
            UpNameView::MissingSeparator => Err(
                ScanErrorView::MissingSeparator { file_name: name@ },
            ),
            UpNameView::Malformed => Err(ScanErrorView::Malformed { file_name: name@ }),
            UpNameView::Migration { version, description } => if found.contains_key(version) {
                Err(ScanErrorView::DuplicateVersion { version })
            } else {
                Ok(found.insert(version, (description, name@)))
            },
        },
    }
}

/// The migrations that a directory listing holds, entry by entry in the order
/// given; the first entry that cannot be used decides the error.
pub open spec fn scan_entries(entries: Seq<DirEntry>) -> Result<FoundMigrations, ScanErrorView>
    decreases entries.len(),
{
    if entries.len() == 0 {
        Ok(Map::empty())
    } else {
        match scan_entries(entries.drop_last()) {
            Err(e) => Err(e),
            Ok(found) => scan_step(found, entries.last(), entries.len() - 1),
        }
    }
}

/// `files` lists exactly the migrations of `found`, by ascending version.
pub open spec fn lists_in_version_order(files: Seq<MigrationFile>, found: FoundMigrations) -> bool {
    &&& forall|i: int, j: int|
        0 <= i < j < files.len() ==> #[trigger] files[i].version < #[trigger] files[j].version
    &&& forall|i: int|
        0 <= i < files.len() ==> found.contains_key(#[trigger] files[i].version as int)
            && found[files[i].version as int] == (files[i].description@, files[i].file_name@)
    &&& forall|v: int|
        #[trigger] found.contains_key(v) ==> exists|i: int|
            0 <= i < files.len() && #[trigger] files[i].version == v
}

/// The view of the map that the scan fills.
pub open spec fn found_view(m: Map<i64, (String, String)>) -> FoundMigrations {
    Map::new(
        |v: int| i64::MIN <= v <= i64::MAX && m.contains_key(v as i64),
        |v: int| (m[v as i64].0@, m[v as i64].1@),
    )
}

/// Keys that a `BTreeMap` hands out in increasing order are increasing integers.
proof fn lemma_increasing_keys(keys: Seq<i64>)
    requires
        increasing_seq(keys),
    ensures
        forall|i: int, j: int| 0 <= i < j < keys.len() ==> keys[i] < keys[j],
{
    broadcast use vstd::laws_cmp::group_laws_cmp;

    assert forall|i: int, j: int| 0 <= i < j < keys.len() implies keys[i] < keys[j] by {
        assert(vstd::std_specs::cmp::OrdSpec::cmp_spec(&keys[i], &keys[j]) is Less);
    }
}

/// `BTreeMap` orders `i64` keys as the integers are ordered.
proof fn lemma_i64_keys_are_ordered()
    ensures
        vstd::std_specs::btree::key_obeys_cmp_spec::<i64>(),
{
    broadcast use vstd::laws_cmp::group_laws_cmp;

}

/// Once a prefix of the listing is unusable, the whole listing is, for the same reason.
proof fn lemma_scan_error_persists(entries: Seq<DirEntry>, n: int)
    requires
        0 <= n <= entries.len(),
        scan_entries(entries.take(n)) is Err,
    ensures
        scan_entries(entries) == scan_entries(entries.take(n)),
    decreases entries.len() - n,
{
    if n < entries.len() {
        let longer = entries.take(n + 1);
        assert(longer.drop_last() == entries.take(n));
        assert(longer.take(n) == entries.take(n));
        lemma_scan_error_persists(entries, n + 1);
    } else {
        assert(entries.take(n) == entries);
    }
}

/// Turns a directory listing into the list of migrations to apply, ordered by
/// version, or names the first entry that makes the directory unusable.
pub fn collect_migrations(entries: &Vec<DirEntry>) -> (r: Result<Vec<MigrationFile>, ScanError>)
    ensures
        match scan_entries(entries@) {
            Ok(found) => r is Ok && lists_in_version_order(r->Ok_0@, found),
            Err(e) => r is Err && r->Err_0@ == e,
        },
{
    let mut found: BTreeMap<i64, (String, String)> = BTreeMap::new();
    assert(found_view(found@) =~= Map::empty());
    assert(entries@.take(0) == Seq::<DirEntry>::empty());
    let mut i: usize = 0;
    while i < entries.len()
        invariant
            i <= entries@.len(),
            scan_entries(entries@.take(i as int)) == Ok::<FoundMigrations, ScanErrorView>(
                found_view(found@),
            ),
        decreases entries@.len() - i,
    {
        let ghost before = found_view(found@);
        proof {
            assert(entries@.take(i + 1).drop_last() == entries@.take(i as int));
            assert(entries@.take(i + 1).last() == entries@[i as int]);
        }
        match &entries[i] {
            DirEntry::Unreadable => {
                proof {
                    lemma_scan_error_persists(entries@, i + 1);
                }
                return Err(ScanError::Unreadable { index: i });
            },
            DirEntry::Other => {},
            DirEntry::File { name: None } => {
                proof {
                    lemma_scan_error_persists(entries@, i + 1);
                }
                return Err(ScanError::NonUtf8Name { index: i });
            },
            DirEntry::File { name: Some(name) } => {
                match classify_up_name(name.as_str()) {
                    UpName::NotMigration => {},
                    UpName::MissingSeparator => {
                        proof {
                    lemma_scan_error_persists(entries@, i + 1);
                }
                return Err(ScanError::MissingSeparator { file_name: name.clone() });
                    },
                    UpName::Malformed => {
                        proof {
                    lemma_scan_error_persists(entries@, i + 1);
                }
                return Err(ScanError::Malformed { file_name: name.clone() });
                    },
                    UpName::Migration { version, description } => {
                        if found.contains_key(&version) {
                            proof {
                    lemma_scan_error_persists(entries@, i + 1);
                }
                return Err(ScanError::DuplicateVersion { version });
                        }
                        found.insert(version, (description, name.clone()));
                        assert(found_view(found@) =~= before.insert(
                            version as int,
                            (description@, name@),
                        ));
                    },
                }
            },
        }
        i += 1;
    }
    assert(entries@.take(entries@.len() as int) == entries@);
    let ghost fv = found_view(found@);
    proof {
        lemma_i64_keys_are_ordered();
    }
    let ghost items = vstd::std_specs::iter::IteratorSpec::remaining(
        &vstd::std_specs::btree::spec_btree_map_iter(&found),
    );
    let mut files: Vec<MigrationFile> = Vec::new();
    for item in it: found.iter()
        invariant
            fv == found_view(found@),
            files@.len() == it.index(),
            it.seq() == items,
            forall|k: int|
                0 <= k < files@.len() ==> files@[k].version == *(#[trigger] it.seq()[k]).0
                    && files@[k].description == (it.seq()[k].1).0 && files@[k].file_name == (
                it.seq()[k].1).1,
    {
        files.push(
            MigrationFile {
                version: *item.0,
                description: item.1.0.clone(),
                file_name: item.1.1.clone(),
            },
        );
    }
    proof {
        let keys = items.map_values(|kv: (&i64, &(String, String))| *kv.0);
        lemma_increasing_keys(keys);
        assert forall|a: int, b: int| 0 <= a < b < files@.len() implies #[trigger] files@[a].version
            < #[trigger] files@[b].version by {
            assert(keys[a] == files@[a].version);
            assert(keys[b] == files@[b].version);
        }
        assert forall|a: int| 0 <= a < files@.len() implies fv.contains_key(
            #[trigger] files@[a].version as int,
        ) && fv[files@[a].version as int] == (files@[a].description@, files@[a].file_name@) by {
            assert(found@.contains_key(*items[a].0));
        }
        assert forall|v: int| #[trigger] fv.contains_key(v) implies exists|a: int|
            0 <= a < files@.len() && #[trigger] files@[a].version == v by {
            let k = v as i64;
            assert(found@.contains_key(k));
            assert(items.contains((&k, &found@[k])));
            let a = choose|a: int| 0 <= a < items.len() && items[a] == (&k, &found@[k]);
            assert(files@[a].version == v);
        }
    }
    Ok(files)
}

/// The name of the script that rolls back migration `version`:
/// `{version:014}_{description}.down.sql`.
pub open spec fn down_file_name(version: int, description: Seq<char>) -> Seq<char> {
    signed_zero_padded(version, VERSION_DIGITS as int) + seq!['_'] + description + down_suffix()
}

/// The name of the script that rolls back migration `version`.
pub fn rollback_file_name(version: i64, description: &str) -> (name: String)
    ensures
        name@ == down_file_name(version as int, description@),
{
    let mut name = format_zero_padded(version, VERSION_DIGITS);
    push_char(&mut name, '_');
    let d = to_chars(description);
    push_chars(&mut name, &d, 0, d.len());
    assert(d@.subrange(0, d@.len() as int) == description@);
    let suffix: Vec<char> = vec!['.', 'd', 'o', 'w', 'n', '.', 's', 'q', 'l'];
    push_chars(&mut name, &suffix, 0, suffix.len());
    assert(suffix@.subrange(0, suffix@.len() as int) == down_suffix());
    name
}

/// What rolling back the latest migration comes to.
pub enum Rollback {
    /// No migration is recorded: nothing to roll back.
    Nothing,
    /// Run this script, then forget this version.
    Revert { version: i64, description: String, file_name: String },
}

/// The status that a rollback reports: `404` when there was nothing to roll
/// back, `200` when a migration was rolled back.
pub open spec fn rollback_status_of(rollback: Rollback) -> u16 {
    match rollback {
        Rollback::Nothing => 404,
        Rollback::Revert { .. } => 200,
    }
}

/// Whether `r` is the rollback of the latest recorded migration `latest`:
/// nothing when none is recorded, else its down script.
pub open spec fn plans_rollback(latest: Option<(i64, String)>, r: Rollback) -> bool {
    match latest {
        None => r is Nothing,
        Some((version, description)) => match r {
            Rollback::Revert { version: v, description: d, file_name } => v == version
                && d@ == description@ && file_name@ == down_file_name(
                version as int,
                description@,
            ),
            Rollback::Nothing => false,
        },
    }
}

/// Decides the rollback from the latest recorded migration (version above
/// zero, highest first), if any.
pub fn plan_rollback(latest: Option<(i64, String)>) -> (r: Rollback)
    ensures
        plans_rollback(latest, r),
{
    match latest {
        None => Rollback::Nothing,
        Some((version, description)) => {
            let file_name = rollback_file_name(version, description.as_str());
            Rollback::Revert { version, description, file_name }
        },
    }
}

/// The status that a rollback reports.
pub fn rollback_status(rollback: &Rollback) -> (status: u16)
    ensures
        status == rollback_status_of(*rollback),
{
    match rollback {
        Rollback::Nothing => 404,
        Rollback::Revert { .. } => 200,
    }
}

/// Whether a test run goes on rolling back after a rollback that reported
/// `status`: only while migrations are still being rolled back.
pub fn keep_rolling_back(status: u16) -> (r: bool)
    ensures
        r == (status == 200),
{
    status == 200
}

/// A test run rolls back again exactly while a migration was still
/// recorded: the rollback of a recorded migration reports `200`, on which the
/// loop goes on (`keep_rolling_back`), and a rollback with nothing recorded
/// reports `404`, on which it stops.
pub proof fn lemma_test_loop_continues_while_recorded(latest: Option<(i64, String)>, r: Rollback)
    requires
        plans_rollback(latest, r),
    ensures
        (rollback_status_of(r) == 200) <==> latest is Some,
        (rollback_status_of(r) == 404) <==> latest is None,
{
}

/// SQLSTATE `42P01`, "undefined table".
pub open spec fn undefined_table_code() -> Seq<char> {
    seq!['4', '2', 'P', '0', '1']
}

/// Whether a failed lookup in the tracking table failed only because the
/// table does not exist yet (SQLSTATE `42P01`): then nothing has been
/// recorded as applied.
pub fn is_missing_tracking_table(sqlstate: &str) -> (r: bool)
    ensures
        r == (sqlstate@ == undefined_table_code()),
{
    let cs = to_chars(sqlstate);
    let code: Vec<char> = vec!['4', '2', 'P', '0', '1'];
    if cs.len() != code.len() {
        return false;
    }
    let mut i: usize = 0;
    while i < code.len()
        invariant
            i <= code@.len(),
            cs@.len() == code@.len(),
            cs@ == sqlstate@,
            code@ == undefined_table_code(),
            forall|j: int| 0 <= j < i ==> cs@[j] == code@[j],
        decreases code@.len() - i,
    {
        if cs[i] != code[i] {
            return false;
        }
        i += 1;
    }
    assert(cs@ =~= code@);
    true
}

/// Versions strictly ascending along `files`.
pub open spec fn versions_ascending(files: Seq<MigrationFile>) -> bool {
    forall|i: int, j: int|
        0 <= i < j < files.len() ==> #[trigger] files[i].version < #[trigger] files[j].version
}

/// Where a run of migrations stands.
#[derive(Clone, Copy, PartialEq, Eq, Debug)]
pub enum RunPhase {
    /// The current migration must be checked against the tracking table.
    Check,
    /// The current migration is not applied yet: its script must run.
    Apply,
    /// The current migration is done with: its transaction must be committed.
    Commit,
    /// Every migration has been handled.
    Done,
}

/// What the caller must do next, inside the current migration's transaction.
pub enum RunAction {
    /// Begin a transaction, lock the tracking table and ask whether `version`
    /// is recorded there.
    CheckApplied { version: i64 },
    /// Run the migration's script and record the migration as applied.
    Apply { version: i64, description: String, file_name: String },
    /// Commit the transaction.
    Commit,
    /// Nothing is left to do.
    Finished,
}

/// What the caller reports back after doing what it was asked.
pub enum RunEvent {
    /// The answer to `CheckApplied`.
    Checked { already_applied: bool },
    /// The script ran and the migration was recorded.
    Applied,
    /// The transaction was committed.
    Committed,
}

/// The abstract state of a run.
pub struct RunView {
    pub files: Seq<MigrationFile>,
    pub position: int,
    pub phase: RunPhase,
    /// Versions whose scripts this run has applied, in the order applied.
    pub applied: Seq<int>,
    /// Versions that the database reported as applied already.
    pub reported: Set<int>,
}

pub enum RunActionView {
    CheckApplied { version: int },
    Apply { version: int, description: Seq<char>, file_name: Seq<char> },
    Commit,
    Finished,
}

impl View for RunAction {
    type V = RunActionView;

    open spec fn view(&self) -> RunActionView {
        match self {
            RunAction::CheckApplied { version } => RunActionView::CheckApplied {
                version: *version as int,
            },
            RunAction::Apply { version, description, file_name } => RunActionView::Apply {
                version: *version as int,
                description: description@,
                file_name: file_name@,
            },
            RunAction::Commit => RunActionView::Commit,
            RunAction::Finished => RunActionView::Finished,
        }
    }
}

impl RunView {
    /// The version of the migration at hand.
    pub open spec fn current_version(self) -> int {
        self.files[self.position].version as int
    }

    /// What the caller must do next.
    pub open spec fn action(self) -> RunActionView {
        match self.phase {
            RunPhase::Check => RunActionView::CheckApplied { version: self.current_version() },
            RunPhase::Apply => RunActionView::Apply {
                version: self.current_version(),
                description: self.files[self.position].description@,
                file_name: self.files[self.position].file_name@,
            },
            RunPhase::Commit => RunActionView::Commit,
            RunPhase::Done => RunActionView::Finished,
        }
    }

    /// The state after `event`; an event that does not answer the pending
    /// action leaves the state as it is.
    pub open spec fn after(self, event: RunEvent) -> RunView {
        match (self.phase, event) {
            (RunPhase::Check, RunEvent::Checked { already_applied: true }) => RunView {
                phase: RunPhase::Commit,
                reported: self.reported.insert(self.current_version()),
                ..self
            },
            (RunPhase::Check, RunEvent::Checked { already_applied: false }) => RunView {
                phase: RunPhase::Apply,
                ..self
            },
            (RunPhase::Apply, RunEvent::Applied) => RunView {
                phase: RunPhase::Commit,
                applied: self.applied.push(self.current_version()),
                ..self
            },
            (RunPhase::Commit, RunEvent::Committed) => RunView {
                position: self.position + 1,
                phase: if self.position + 1 == self.files.len() {
                    RunPhase::Done
                } else {
                    RunPhase::Check
                },
                ..self
            },
            _ => self,
        }
    }

    /// Whether the version `v` has been dealt with: applied by this run, or
    /// found applied already.
    pub open spec fn handled(self, v: int) -> bool {
        self.applied.contains(v) || self.reported.contains(v)
    }

    /// The consistency of a run.
    pub open spec fn wf(self) -> bool {
        &&& versions_ascending(self.files)
        &&& 0 <= self.position <= self.files.len()
        &&& (self.phase == RunPhase::Done) == (self.position == self.files.len())
        &&& forall|i: int, j: int|
            0 <= i < j < self.applied.len() ==> #[trigger] self.applied[i]
                < #[trigger] self.applied[j]
        &&& forall|v: int| #[trigger] self.applied.contains(v) ==> !self.reported.contains(v)
        &&& forall|k: int| 0 <= k < self.position ==> self.handled(#[trigger] self.files[k].version as int)
        &&& forall|v: int|
            #[trigger] self.handled(v) ==> exists|k: int|
                0 <= k < self.files.len() && #[trigger] self.files[k].version == v && (k
                    < self.position || (k == self.position && self.phase == RunPhase::Commit))
        &&& self.phase == RunPhase::Check || self.phase == RunPhase::Apply ==> !self.handled(
            self.current_version(),
        )
        &&& self.phase == RunPhase::Commit ==> self.handled(self.current_version())
    }
}

/// A run of migrations against one database, in ascending version order,
/// skipping those that the database already has.
pub struct MigrationRun {
    files: Vec<MigrationFile>,
    state: RunState,
}

/// Where a run stands over its files.
#[derive(Clone, Copy)]
struct RunState {
    position: usize,
    phase: RunPhase,
    applied: Ghost<Seq<int>>,
    reported: Ghost<Set<int>>,
}

impl View for MigrationRun {
    type V = RunView;

    closed spec fn view(&self) -> RunView {
        RunView {
            files: self.files@,
            position: self.state.position as int,
            phase: self.state.phase,
            applied: self.state.applied@,
            reported: self.state.reported@,
        }
    }
}

impl MigrationRun {
    /// Every run is consistent.
    #[verifier::type_invariant]
    spec fn consistent(self) -> bool {
        self@.wf()
    }
}

/// In a consistent run, a version not yet handled is above every applied one.
proof fn lemma_unhandled_is_above_applied(r: RunView)
    requires
        r.wf(),
        r.position < r.files.len(),
        !r.handled(r.current_version()),
    ensures
        forall|i: int| 0 <= i < r.applied.len() ==> #[trigger] r.applied[i] < r.current_version(),
{
    assert forall|i: int| 0 <= i < r.applied.len() implies #[trigger] r.applied[i]
        < r.current_version() by {
        let v = r.applied[i];
        assert(r.applied.contains(v));
        assert(r.handled(v));
        let k = choose|k: int|
            0 <= k < r.files.len() && #[trigger] r.files[k].version == v && (k < r.position || (k
                == r.position && r.phase == RunPhase::Commit));
        if k == r.position {
            assert(r.phase == RunPhase::Commit);
        }
    }
}

/// A run never applies a migration twice, nor one the database already has,
/// and applies migrations in ascending order of version: the migration it is
/// about to apply is above every migration it applied before, and is neither
/// applied nor reported as applied.
pub proof fn lemma_next_apply_is_fresh(run: RunView)
    requires
        run.wf(),
        run.phase == RunPhase::Apply,
    ensures
        !run.applied.contains(run.current_version()),
        !run.reported.contains(run.current_version()),
        forall|i: int| 0 <= i < run.applied.len() ==> #[trigger] run.applied[i] < run.current_version(),
{
    lemma_unhandled_is_above_applied(run);
}

/// A finished run has dealt with every migration, each exactly one way:
/// applied by the run, or found applied already; and what it applied, it
/// applied in ascending order of version.
pub proof fn lemma_finished_run(run: RunView)
    requires
        run.wf(),
        run.phase == RunPhase::Done,
    ensures
        forall|k: int|
            0 <= k < run.files.len() ==> (run.applied.contains(#[trigger] run.files[k].version as int)
                != run.reported.contains(run.files[k].version as int)),
        forall|i: int, j: int|
            0 <= i < j < run.applied.len() ==> #[trigger] run.applied[i] < #[trigger] run.applied[j],
        forall|v: int| #[trigger] run.applied.contains(v) ==> exists|k: int|
            0 <= k < run.files.len() && #[trigger] run.files[k].version == v,
{
    assert forall|k: int| 0 <= k < run.files.len() implies (run.applied.contains(
        #[trigger] run.files[k].version as int,
    ) != run.reported.contains(run.files[k].version as int)) by {
        assert(run.handled(run.files[k].version as int));
    }
    assert forall|v: int| #[trigger] run.applied.contains(v) implies exists|k: int|
        0 <= k < run.files.len() && #[trigger] run.files[k].version == v by {
        assert(run.handled(v));
    }
}

/// Every step of a run keeps it consistent: whatever the caller reports,
/// the state after it is consistent again.
pub proof fn lemma_step_keeps_consistency(before: RunView, event: RunEvent)
    requires
        before.wf(),
    ensures
        before.after(event).wf(),
{
    let after = before.after(event);
    match (before.phase, event) {
        (RunPhase::Check, RunEvent::Checked { already_applied }) => {
            if already_applied {
                let v = before.current_version();
                {
                    assert forall|w: int| #[trigger] after.handled(w) implies exists|k: int|
                        0 <= k < after.files.len() && #[trigger] after.files[k].version == w
                            && (k < after.position || (k == after.position && after.phase
                            == RunPhase::Commit)) by {
                        if w != v {
                            assert(before.handled(w));
                            let k = choose|k: int|
                                0 <= k < before.files.len() && #[trigger] before.files[k].version
                                    == w && (k < before.position || (k == before.position
                                    && before.phase == RunPhase::Commit));
                            assert(after.files[k].version == w);
                        } else {
                            assert(after.files[after.position].version == w);
                        }
                    }
                    assert forall|k: int| 0 <= k < after.position implies after.handled(
                        #[trigger] after.files[k].version as int,
                    ) by {
                        assert(before.handled(before.files[k].version as int));
                    }
                }
            } else {
                {
                    assert forall|w: int| #[trigger] after.handled(w) implies exists|k: int|
                        0 <= k < after.files.len() && #[trigger] after.files[k].version == w
                            && (k < after.position || (k == after.position && after.phase
                            == RunPhase::Commit)) by {
                        assert(before.handled(w));
                        let k = choose|k: int|
                            0 <= k < before.files.len() && #[trigger] before.files[k].version
                                == w && (k < before.position || (k == before.position
                                && before.phase == RunPhase::Commit));
                        assert(after.files[k].version == w);
                    }
                }
            }
        },
        (RunPhase::Apply, RunEvent::Applied) => {
            let v = before.current_version();
            {
                lemma_unhandled_is_above_applied(before);
            }
            {
                assert(after.applied.contains(v)) by {
                    assert(after.applied[after.applied.len() - 1] == v);
                }
                assert forall|w: int| #[trigger] after.applied.contains(w) implies !after.reported.contains(w) by {
                    if w != v {
                        let i = choose|i: int| 0 <= i < after.applied.len() && after.applied[i] == w;
                        assert(before.applied[i] == w);
                        assert(before.applied.contains(w));
                    }
                }
                assert forall|w: int| #[trigger] after.handled(w) implies exists|k: int|
                    0 <= k < after.files.len() && #[trigger] after.files[k].version == w && (k
                        < after.position || (k == after.position && after.phase
                        == RunPhase::Commit)) by {
                    if w != v {
                        if after.applied.contains(w) {
                            let i = choose|i: int| 0 <= i < after.applied.len() && after.applied[i] == w;
                            assert(before.applied[i] == w);
                            assert(before.applied.contains(w));
                        }
                        assert(before.handled(w));
                        let k = choose|k: int|
                            0 <= k < before.files.len() && #[trigger] before.files[k].version
                                == w && (k < before.position || (k == before.position
                                && before.phase == RunPhase::Commit));
                        assert(after.files[k].version == w);
                    } else {
                        assert(after.files[after.position].version == w);
                    }
                }
                assert forall|k: int| 0 <= k < after.position implies after.handled(
                    #[trigger] after.files[k].version as int,
                ) by {
                    let w = before.files[k].version as int;
                    assert(before.handled(w));
                    if before.applied.contains(w) {
                        let i = choose|i: int| 0 <= i < before.applied.len() && before.applied[i] == w;
                        assert(after.applied[i] == w);
                    }
                }
            }
        },
        (RunPhase::Commit, RunEvent::Committed) => {
            {
                if after.position < after.files.len() {
                    let cur = after.current_version();
                    if after.handled(cur) {
                        assert(before.handled(cur));
                        let k = choose|k: int|
                            0 <= k < before.files.len() && #[trigger] before.files[k].version
                                == cur && (k < before.position || (k == before.position
                                && before.phase == RunPhase::Commit));
                        assert(k < after.position);
                        assert(after.files == before.files);
                        assert(versions_ascending(before.files));
                        let x = before.files[k];
                        let y = before.files[after.position];
                        assert(x.version < y.version);
                        assert(false);
                    }
                }
                assert forall|k: int| 0 <= k < after.position implies after.handled(
                    #[trigger] after.files[k].version as int,
                ) by {
                    if k < before.position {
                        assert(before.handled(before.files[k].version as int));
                    }
                }
                assert forall|w: int| #[trigger] after.handled(w) implies exists|k: int|
                    0 <= k < after.files.len() && #[trigger] after.files[k].version == w && (k
                        < after.position || (k == after.position && after.phase
                        == RunPhase::Commit)) by {
                    assert(before.handled(w));
                    let k = choose|k: int|
                        0 <= k < before.files.len() && #[trigger] before.files[k].version
                            == w && (k < before.position || (k == before.position
                            && before.phase == RunPhase::Commit));
                    assert(after.files[k].version == w);
                }
            }
        },
        _ => {},
    }
}

impl MigrationRun {
    /// A run over `files`, which are ordered by ascending version, as
    /// `collect_migrations` lists them.
    pub fn new(files: Vec<MigrationFile>) -> (run: MigrationRun)
        requires
            versions_ascending(files@),
        ensures
            run@.wf(),
            run@ == run_start(files@),
            run@.files == files@,
            run@.position == 0,
            run@.applied == Seq::<int>::empty(),
            run@.reported == Set::<int>::empty(),
            run@.phase == (if files@.len() == 0 {
                RunPhase::Done
            } else {
                RunPhase::Check
            }),
    {
        let phase = if files.len() == 0 {
            RunPhase::Done
        } else {
            RunPhase::Check
        };
        MigrationRun {
            files,
            state: RunState {
                position: 0,
                phase,
                applied: Ghost(Seq::empty()),
                reported: Ghost(Set::empty()),
            },
        }
    }

    /// What the caller must do next.
    pub fn action(&self) -> (a: RunAction)
        ensures
            a@ == self@.action(),
    {
        proof {
            use_type_invariant(self);
        }
        match self.state.phase {
            RunPhase::Check => RunAction::CheckApplied {
                version: self.files[self.state.position].version,
            },
            RunPhase::Apply => {
                let file = &self.files[self.state.position];
                RunAction::Apply {
                    version: file.version,
                    description: file.description.clone(),
                    file_name: file.file_name.clone(),
                }
            },
            RunPhase::Commit => RunAction::Commit,
            RunPhase::Done => RunAction::Finished,
        }
    }

    /// Takes in what the caller did.
    pub fn advance(&mut self, event: RunEvent)
        ensures
            final(self)@ == old(self)@.after(event),
            final(self)@.wf(),
    {
        proof {
            use_type_invariant(&*self);
            lemma_step_keeps_consistency(self@, event);
        }
        let ghost current = self@.current_version();
        let st = self.state;
        let next = match (st.phase, event) {
            (RunPhase::Check, RunEvent::Checked { already_applied }) => {
                if already_applied {
                    RunState {
                        phase: RunPhase::Commit,
                        reported: Ghost(st.reported@.insert(current)),
                        ..st
                    }
                } else {
                    RunState { phase: RunPhase::Apply, ..st }
                }
            },
            (RunPhase::Apply, RunEvent::Applied) => RunState {
                phase: RunPhase::Commit,
                applied: Ghost(st.applied@.push(current)),
                ..st
            },
            (RunPhase::Commit, RunEvent::Committed) => {
                let count = self.files.len();
                assert(st.position < count);
                let position = st.position + 1;
                let phase = if position == count {
                    RunPhase::Done
                } else {
                    RunPhase::Check
                };
                RunState { position, phase, ..st }
            },
            _ => st,
        };
        self.state = next;
    }

    /// Whether every migration has been handled.
    pub fn is_finished(&self) -> (r: bool)
        ensures
            r == (self@.phase == RunPhase::Done),
    {
        match self.state.phase {
            RunPhase::Done => true,
            _ => false,
        }
    }
}

/// The state in which a run over `files` starts.
pub open spec fn run_start(files: Seq<MigrationFile>) -> RunView {
    RunView {
        files,
        position: 0,
        phase: if files.len() == 0 {
            RunPhase::Done
        } else {
            RunPhase::Check
        },
        applied: Seq::empty(),
        reported: Set::empty(),
    }
}

/// What a database that holds the versions `present` reports for what `run`
/// asks: whether the current version is held, or that the script ran, or that
/// the transaction was committed.
pub open spec fn answer(run: RunView, present: Set<int>) -> RunEvent {
    match run.phase {
        RunPhase::Check => RunEvent::Checked { already_applied: present.contains(run.current_version()) },
        RunPhase::Apply => RunEvent::Applied,
        _ => RunEvent::Committed,
    }
}

/// The run after `n` answers from a database that holds `present`
/// throughout.
pub open spec fn run_against(run: RunView, present: Set<int>, n: nat) -> RunView
    decreases n,
{
    if n == 0 {
        run
    } else {
        run_against(run.after(answer(run, present)), present, (n - 1) as nat)
    }
}

/// How many answers a run still needs to finish when nothing is applied:
/// a check and a commit per migration left.
pub open spec fn answers_left_when_held(run: RunView) -> int {
    match run.phase {
        RunPhase::Done => 0,
        RunPhase::Commit => 2 * (run.files.len() - run.position) - 1,
        _ => 2 * (run.files.len() - run.position),
    }
}

proof fn lemma_rerun_from(r: RunView, present: Set<int>, n: nat)
    requires
        r.wf(),
        r.applied.len() == 0,
        r.phase != RunPhase::Apply,
        forall|k: int| 0 <= k < r.files.len() ==> present.contains(#[trigger] r.files[k].version as int),
    ensures
        run_against(r, present, n).applied.len() == 0,
        n >= answers_left_when_held(r) ==> run_against(r, present, n).phase == RunPhase::Done,
    decreases n,
{
    if n > 0 {
        let e = answer(r, present);
        lemma_step_keeps_consistency(r, e);
        if r.phase == RunPhase::Check {
            assert(present.contains(r.files[r.position].version as int));
        }
        lemma_rerun_from(r.after(e), present, (n - 1) as nat);
    }
}

/// Running the migrations again against a database that holds every one of
/// them applies nothing, and the run finishes after a check and a commit per
/// migration.
pub proof fn lemma_rerun_applies_nothing(files: Seq<MigrationFile>, present: Set<int>, n: nat)
    requires
        versions_ascending(files),
        forall|k: int| 0 <= k < files.len() ==> present.contains(#[trigger] files[k].version as int),
    ensures
        run_against(run_start(files), present, n).applied.len() == 0,
        n >= 2 * files.len() ==> run_against(run_start(files), present, n).phase == RunPhase::Done,
{
    lemma_rerun_from(run_start(files), present, n);
}

/// How many answers a run still needs to finish, at most: a check, a script
/// and a commit per migration left.
pub open spec fn answers_left(run: RunView) -> int {
    match run.phase {
        RunPhase::Done => 0,
        RunPhase::Check => 3 * (run.files.len() - run.position),
        RunPhase::Apply => 3 * (run.files.len() - run.position) - 1,
        RunPhase::Commit => 3 * (run.files.len() - run.position) - 2,
    }
}

/// What a run against a database that holds `present` keeps: it applies
/// only versions the database does not hold, it records as held only
/// versions the database holds, and a script about to run is one the
/// database does not hold.
pub open spec fn faithful_to(run: RunView, present: Set<int>) -> bool {
    &&& run.wf()
    &&& forall|v: int| #[trigger] run.applied.contains(v) ==> !present.contains(v)
    &&& forall|v: int| #[trigger] run.reported.contains(v) ==> present.contains(v)
    &&& run.phase == RunPhase::Apply ==> !present.contains(run.current_version())
}

proof fn lemma_run_from(r: RunView, present: Set<int>, n: nat)
    requires
        faithful_to(r, present),
    ensures
        faithful_to(run_against(r, present, n), present),
        run_against(r, present, n).files == r.files,
        n >= answers_left(r) ==> run_against(r, present, n).phase == RunPhase::Done,
    decreases n,
{
    if n > 0 {
        let e = answer(r, present);
        lemma_step_keeps_consistency(r, e);
        let next = r.after(e);
        if r.phase == RunPhase::Apply {
            assert forall|v: int| #[trigger] next.applied.contains(v) implies !present.contains(v) by {
                assert(next.applied == r.applied.push(r.current_version()));
                let i = choose|i: int| 0 <= i < next.applied.len() && next.applied[i] == v;
                if i < r.applied.len() {
                    assert(r.applied[i] == v);
                    assert(r.applied.contains(v));
                } else {
                    assert(v == r.current_version());
                }
            }
        }
        lemma_run_from(next, present, (n - 1) as nat);
    }
}

/// A run against a database that holds the versions `present` applies
/// exactly the migrations the database does not hold: whatever it has
/// applied so far is missing from the database, and once it has had a
/// check, a script and a commit per migration it is finished, with every
/// migration the database did not hold applied (in ascending order) and
/// none that it held.
pub proof fn lemma_run_applies_what_is_missing(files: Seq<MigrationFile>, present: Set<int>, n: nat)
    requires
        versions_ascending(files),
    ensures
        forall|v: int|
            #[trigger] run_against(run_start(files), present, n).applied.contains(v) ==> !present.contains(v),
        n >= 3 * files.len() ==> {
            let r = run_against(run_start(files), present, n);
            &&& r.phase == RunPhase::Done
            &&& forall|k: int|
                0 <= k < files.len() ==> (r.applied.contains(#[trigger] files[k].version as int)
                    <==> !present.contains(files[k].version as int))
            &&& forall|i: int, j: int|
                0 <= i < j < r.applied.len() ==> #[trigger] r.applied[i] < #[trigger] r.applied[j]
        },
{
    lemma_run_from(run_start(files), present, n);
    let r = run_against(run_start(files), present, n);
    if n >= 3 * files.len() {
        assert forall|k: int| 0 <= k < files.len() implies (r.applied.contains(
            #[trigger] files[k].version as int,
        ) <==> !present.contains(files[k].version as int)) by {
            let v = files[k].version as int;
            assert(r.files[k].version == files[k].version);
            assert(r.handled(v));
            if !present.contains(v) {
                assert(!r.reported.contains(v));
            }
        }
    }
}

/// A migration that the database reports as not applied is applied next:
/// the run asks for its script, and once told the script ran it counts the
/// migration as applied.
pub proof fn lemma_unheld_migration_is_applied(run: RunView)
    requires
        run.wf(),
        run.phase == RunPhase::Check,
    ensures
        run.after(RunEvent::Checked { already_applied: false }).action() == (RunActionView::Apply {
            version: run.current_version(),
            description: run.files[run.position].description@,
            file_name: run.files[run.position].file_name@,
        }),
        run.after(RunEvent::Checked { already_applied: false }).after(RunEvent::Applied).applied
            == run.applied.push(run.current_version()),
{
}

} // verus!
