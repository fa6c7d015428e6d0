//! Naming a new migration: the description is made file-name safe and the
//! pair of scripts (`.up.sql`, `.down.sql`) is named after the current time.
use vstd::prelude::*;

use crate::migration::{
    down_file_name, down_suffix, is_version_text, up_name_kind, up_suffix, UpNameView,
    VERSION_DIGITS,
};
use crate::text::{
    char_is_whitespace, digits_value, is_digit, is_whitespace, lemma_digits_value_bound,
    lemma_first_index_of, lemma_zero_padded_value, push_char, push_chars, string_from_chars,
    to_chars,
};

verus! {

/// The description with each whitespace character replaced by `_`.
pub open spec fn normalized_description(d: Seq<char>) -> Seq<char> {
    Seq::new(d.len(), |i: int| if char_is_whitespace(d[i]) { '_' } else { d[i] })
}

/// Whether a description is free of path separators and NUL characters.
pub open spec fn description_allowed(d: Seq<char>) -> bool {
    forall|i: int| 0 <= i < d.len() ==> #[trigger] d[i] != '/' && d[i] != '\\' && d[i] != '\0'
}

/// The name of the script that applies a migration made at `timestamp`.
pub open spec fn created_up_name(timestamp: Seq<char>, description: Seq<char>) -> Seq<char> {
    timestamp + seq!['_'] + description + up_suffix()
}

/// The name of the script that rolls back a migration made at `timestamp`.
pub open spec fn created_down_name(timestamp: Seq<char>, description: Seq<char>) -> Seq<char> {
    timestamp + seq!['_'] + description + down_suffix()
}

/// The `strftime` pattern of a migration's timestamp: `%Y%m%d%H%M%S`.
pub open spec fn timestamp_pattern() -> Seq<char> {
    seq!['%', 'Y', '%', 'm', '%', 'd', '%', 'H', '%', 'M', '%', 'S']
}

/// The names of the two scripts of a new migration.
pub struct MigrationFileNames {
    pub up: String,
    pub down: String,
}

/// Why a migration cannot be named as asked.
#[derive(Debug, Clone, Copy, PartialEq, Eq, Structural)]
pub enum NamingError {
    /// The description holds `/`, `\`, or NUL.
    ForbiddenCharacter,
    /// The system clock reads a time before the Unix epoch or beyond what a
    /// calendar date can hold.
    ClockOutOfRange,
}

/// Replaces each whitespace character of `description` by `_`.
pub fn normalize_description(description: &str) -> (r: String)
    ensures
        r@ == normalized_description(description@),
{
    let cs = to_chars(description);
    let mut out: Vec<char> = Vec::new();
    let mut i: usize = 0;
    while i < cs.len()
        invariant
            i <= cs@.len(),
            cs@ == description@,
            out@ == normalized_description(cs@).subrange(0, i as int),
        decreases cs@.len() - i,
    {
        let c = cs[i];
        if is_whitespace(c) {
            out.push('_');
        } else {
            out.push(c);
        }
        assert(normalized_description(cs@).subrange(0, i + 1) == normalized_description(
            cs@,
        ).subrange(0, i as int).push(normalized_description(cs@)[i as int]));
        i += 1;
    }
    assert(normalized_description(cs@).subrange(0, cs@.len() as int) == normalized_description(
        cs@,
    ));
    string_from_chars(&out)
}

/// Whether `description` is free of path separators and NUL characters.
pub fn is_description_allowed(description: &str) -> (r: bool)
    ensures
        r == description_allowed(description@),
        r <==> !(description@.contains('/') || description@.contains('\\') || description@.contains(
            '\0',
        )),
{
    proof {
        lemma_refused_exactly_for_separators(description@);
    }
    let cs = to_chars(description);
    let mut i: usize = 0;
    while i < cs.len()
        invariant
            i <= cs@.len(),
            cs@ == description@,
            forall|j: int| 0 <= j < i ==> #[trigger] cs@[j] != '/' && cs@[j] != '\\' && cs@[j] != '\0',
        decreases cs@.len() - i,
    {
        let c = cs[i];
        if c == '/' || c == '\\' || c == '\0' {
            return false;
        }
        i += 1;
    }
    true
}

/// Names the scripts of a migration made at `timestamp` with `description`:
/// `<timestamp>_<description>.up.sql` and `.down.sql`, where each whitespace
/// character of the description becomes `_`. A description holding `/`, `\`
/// or NUL is refused.
pub fn migration_file_names(timestamp: &str, description: &str) -> (r: Result<
    MigrationFileNames,
    NamingError,
>)
    ensures
        r is Ok <==> description_allowed(normalized_description(description@)),
        r is Ok <==> !(description@.contains('/') || description@.contains('\\')
            || description@.contains('\0')),
        r matches Ok(names) ==> {
            &&& names.up@ == created_up_name(timestamp@, normalized_description(description@))
            &&& names.down@ == created_down_name(timestamp@, normalized_description(description@))
        },
        r matches Err(e) ==> e == NamingError::ForbiddenCharacter,
{
    proof {
        lemma_refused_exactly_for_separators(description@);
    }
    let normalized = normalize_description(description);
    if !is_description_allowed(normalized.as_str()) {
        return Err(NamingError::ForbiddenCharacter);
    }
    let mut stem = String::new();
    let ts = to_chars(timestamp);
    push_chars(&mut stem, &ts, 0, ts.len());
    push_char(&mut stem, '_');
    let d = to_chars(normalized.as_str());
    push_chars(&mut stem, &d, 0, d.len());
    assert(ts@.subrange(0, ts@.len() as int) == ts@);
    assert(d@.subrange(0, d@.len() as int) == d@);
    let up_suffix_chars: Vec<char> = vec!['.', 'u', 'p', '.', 's', 'q', 'l'];
    let down_suffix_chars: Vec<char> = vec!['.', 'd', 'o', 'w', 'n', '.', 's', 'q', 'l'];
    let mut up = stem.clone();
    push_chars(&mut up, &up_suffix_chars, 0, up_suffix_chars.len());
    assert(up_suffix_chars@.subrange(0, 7) == up_suffix());
    let mut down = stem;
    push_chars(&mut down, &down_suffix_chars, 0, down_suffix_chars.len());
    assert(down_suffix_chars@.subrange(0, 9) == down_suffix());
    Ok(MigrationFileNames { up, down })
}

/// The first second of the year 0000, UTC, in seconds from the Unix epoch.
pub const FIRST_FOUR_DIGIT_YEAR_SECOND: i64 = -62167219200;

/// The last second of the year 9999, UTC, in seconds from the Unix epoch.
pub const LAST_FOUR_DIGIT_YEAR_SECOND: i64 = 253402300799;

/// What chrono renders for the UTC instant `secs` seconds and `nanos`
/// nanoseconds after the Unix epoch, with the `strftime` pattern `pattern`;
/// `None` where that instant is outside chrono's calendar.
pub uninterp spec fn utc_rendering(secs: i64, nanos: u32, pattern: Seq<char>) -> Option<Seq<char>>;

/// Calls chrono's `DateTime::from_timestamp(secs, nanos)` and renders the
/// instant with `DateTime::format(pattern)` and `to_string`. The contract
/// names the result `utc_rendering`: it is a function of the three arguments
/// (UTC has no local offset, and the pattern's items have no locale); which
/// characters it holds is left to chrono. The pattern is the one
/// `%Y%m%d%H%M%S`, whose items chrono always renders, so `to_string` does not
/// fail. One fact is stated besides: for an instant in the years 0000 to
/// 9999 (`FIRST_FOUR_DIGIT_YEAR_SECOND..=LAST_FOUR_DIGIT_YEAR_SECOND`) with
/// a fraction below one second, `from_timestamp` gives a date, and chrono
/// writes `%Y` as four digits there and `%m %d %H %M %S` as two digits each
/// (the seconds 00 to 59, as no leap second is asked for), so the rendering
/// is fourteen ASCII digits.
#[verifier::external_body]
fn format_utc(secs: i64, nanos: u32, pattern: &str) -> (r: Option<String>)
    requires
        pattern@ == timestamp_pattern(),
    ensures
        match r {
            Some(s) => utc_rendering(secs, nanos, pattern@) == Some(s@),
            None => utc_rendering(secs, nanos, pattern@) is None,
        },
        r is Some && is_version_text(r->Some_0@) <== FIRST_FOUR_DIGIT_YEAR_SECOND <= secs
            <= LAST_FOUR_DIGIT_YEAR_SECOND && nanos < 1_000_000_000,
{
    match chrono::DateTime::from_timestamp(secs, nanos) {
        Some(t) => Some(t.format(pattern).to_string()),
        None => None,
    }
}

/// Renders the UTC instant `secs` seconds and `nanos` nanoseconds after the
/// Unix epoch as a migration timestamp (`%Y%m%d%H%M%S`), or `None` where the
/// instant has no calendar date.
pub fn render_timestamp(secs: i64, nanos: u32) -> (r: Option<String>)
    ensures
        match r {
            Some(s) => utc_rendering(secs, nanos, timestamp_pattern()) == Some(s@),
            None => utc_rendering(secs, nanos, timestamp_pattern()) is None,
        },
        FIRST_FOUR_DIGIT_YEAR_SECOND <= secs <= LAST_FOUR_DIGIT_YEAR_SECOND && nanos
            < 1_000_000_000 ==> (r matches Some(s) && is_version_text(s@)),
{
    let pattern = "%Y%m%d%H%M%S";
    proof {
        reveal_strlit("%Y%m%d%H%M%S");
    }
    assert(pattern@ == timestamp_pattern());
    format_utc(secs, nanos, pattern)
}

/// std's wall-clock time, carried through opaquely.
#[verifier::external_type_specification]
#[verifier::external_body]
pub struct ExSystemTime(std::time::SystemTime);

/// Calls std's `SystemTime::now()`. Nothing is claimed of the result: it is
/// whatever the system clock reads.
#[verifier::external_body]
fn system_time_now() -> std::time::SystemTime {
    std::time::SystemTime::now()
}

/// Calls std's `SystemTime::duration_since` with `UNIX_EPOCH`: the time
/// elapsed from the epoch to `t`, or `None` where `t` is before the epoch
/// (std's error). Nothing is claimed of the duration: `SystemTime` is
/// opaque here.
#[verifier::external_body]
fn since_unix_epoch(t: &std::time::SystemTime) -> Option<std::time::Duration> {
    match t.duration_since(std::time::UNIX_EPOCH) {
        Ok(d) => Some(d),
        Err(_) => None,
    }
}

/// Calls std's `Duration::as_secs`: the whole seconds of `d`. Nothing is
/// claimed of the value: `Duration` is opaque here.
#[verifier::external_body]
fn whole_seconds(d: &std::time::Duration) -> u64 {
    d.as_secs()
}

/// Calls std's `Duration::subsec_nanos`: the fractional part of `d` in
/// nanoseconds, which std documents as less than one billion.
#[verifier::external_body]
fn subsecond_nanos(d: &std::time::Duration) -> (r: u32)
    ensures
        r < 1_000_000_000,
{
    d.subsec_nanos()
}

/// The names of the scripts of a migration made with description `d` at the
/// UTC instant `secs` seconds and `nanos` nanoseconds after the Unix epoch:
/// `None` where the instant cannot be rendered.
pub open spec fn names_at(secs: int, nanos: u32, d: Seq<char>) -> Option<(Seq<char>, Seq<char>)> {
    if secs <= i64::MAX && utc_rendering(secs as i64, nanos, timestamp_pattern()) is Some {
        let t = utc_rendering(secs as i64, nanos, timestamp_pattern())->Some_0;
        Some((created_up_name(t, normalized_description(d)), created_down_name(t, normalized_description(d))))
    } else {
        None
    }
}

/// The timestamp of a migration made at the UTC instant `secs` seconds and
/// `nanos` nanoseconds after the Unix epoch.
pub open spec fn timestamp_at(secs: int, nanos: u32) -> Seq<char> {
    utc_rendering(secs as i64, nanos, timestamp_pattern())->Some_0
}

/// Whether names made at an instant of a four-digit year, with a non-empty
/// description `d`, are what the directory scan and the rollback find: the
/// up script is recognised with the timestamp as version and the normalised
/// description, and the rollback of that version reads the down script.
pub open spec fn found_and_rolled_back(up: Seq<char>, down: Seq<char>, secs: int, nanos: u32, d: Seq<char>) -> bool {
    0 <= secs <= LAST_FOUR_DIGIT_YEAR_SECOND && nanos < 1_000_000_000 && d.len() > 0 ==> {
        &&& up_name_kind(up) == (UpNameView::Migration {
            version: digits_value(timestamp_at(secs, nanos)),
            description: normalized_description(d),
        })
        &&& down_file_name(digits_value(timestamp_at(secs, nanos)), normalized_description(d)) == down
    }
}

/// Names the scripts of a migration made with `description` at the UTC
/// instant `secs` seconds and `nanos` nanoseconds after the Unix epoch. A
/// description holding `/`, `\` or NUL is refused first; an instant that
/// chrono cannot render is reported next. Within the years 0000 to 9999 the
/// names are always made, and a created migration is one that the scan
/// recognises and the rollback rolls back.
pub fn migration_file_names_at(secs: u64, nanos: u32, description: &str) -> (r: Result<
    MigrationFileNames,
    NamingError,
>)
    ensures
        !description_allowed(normalized_description(description@)) ==> r
            == Err::<MigrationFileNames, NamingError>(NamingError::ForbiddenCharacter),
        description_allowed(normalized_description(description@)) ==> match names_at(
            secs as int,
            nanos,
            description@,
        ) {
            None => r == Err::<MigrationFileNames, NamingError>(NamingError::ClockOutOfRange),
            Some((up, down)) => r matches Ok(names) && names.up@ == up && names.down@ == down,
        },
        description_allowed(normalized_description(description@)) && secs
            <= LAST_FOUR_DIGIT_YEAR_SECOND && nanos < 1_000_000_000 ==> r is Ok,
        r matches Ok(names) ==> found_and_rolled_back(
            names.up@,
            names.down@,
            secs as int,
            nanos,
            description@,
        ),
{
    let normalized = normalize_description(description);
    if !is_description_allowed(normalized.as_str()) {
        return Err(NamingError::ForbiddenCharacter);
    }
    if secs > i64::MAX as u64 {
        return Err(NamingError::ClockOutOfRange);
    }
    let timestamp = match render_timestamp(secs as i64, nanos) {
        Some(t) => t,
        None => return Err(NamingError::ClockOutOfRange),
    };
    let r = migration_file_names(timestamp.as_str(), description);
    proof {
        if secs <= LAST_FOUR_DIGIT_YEAR_SECOND && nanos < 1_000_000_000 && description@.len() > 0 {
            assert(timestamp@ == timestamp_at(secs as int, nanos));
            assert(normalized_description(description@).len() == description@.len());
            lemma_created_migration_is_recognized(timestamp@, normalized_description(description@));
            lemma_created_migration_rolls_back(timestamp@, normalized_description(description@));
        }
    }
    r
}

/// Names the scripts of a new migration after the current UTC time
/// (`YYYYMMDDHHMMSS`), as `migration_file_names_at` names them for the
/// instant the system clock reads. A description holding `/`, `\` or NUL is
/// refused first; then a clock that reads before the Unix epoch, or an
/// instant that cannot be rendered, is reported.
pub fn new_migration_file_names(description: &str) -> (r: Result<MigrationFileNames, NamingError>)
    ensures
        !description_allowed(normalized_description(description@)) ==> r
            == Err::<MigrationFileNames, NamingError>(NamingError::ForbiddenCharacter),
        description_allowed(normalized_description(description@)) ==> !(r
            == Err::<MigrationFileNames, NamingError>(NamingError::ForbiddenCharacter)),
        r matches Ok(names) ==> exists|secs: u64, nanos: u32|
            {
                &&& nanos < 1_000_000_000
                &&& #[trigger] names_at(secs as int, nanos, description@) == Some(
                    (names.up@, names.down@),
                )
                &&& found_and_rolled_back(names.up@, names.down@, secs as int, nanos, description@)
            },
{
    let normalized = normalize_description(description);
    if !is_description_allowed(normalized.as_str()) {
        return Err(NamingError::ForbiddenCharacter);
    }
    let now = system_time_now();
    let since = match since_unix_epoch(&now) {
        Some(d) => d,
        None => return Err(NamingError::ClockOutOfRange),
    };
    let secs = whole_seconds(&since);
    let nanos = subsecond_nanos(&since);
    migration_file_names_at(secs, nanos, description)
}

/// A normalised description holds no whitespace character.
pub proof fn lemma_normalized_has_no_whitespace(d: Seq<char>)
    ensures
        forall|i: int|
            0 <= i < normalized_description(d).len() ==> !char_is_whitespace(
                #[trigger] normalized_description(d)[i],
            ),
{
}

/// Normalising a description twice gives what normalising it once gives.
pub proof fn lemma_normalizing_is_idempotent(d: Seq<char>)
    ensures
        normalized_description(normalized_description(d)) == normalized_description(d),
{
    assert(normalized_description(normalized_description(d)) =~= normalized_description(d));
}

/// Normalising a description neither removes nor introduces a path
/// separator or NUL: a description is refused exactly when it held one as
/// it was written.
pub proof fn lemma_normalizing_keeps_allowedness(d: Seq<char>)
    ensures
        description_allowed(normalized_description(d)) == description_allowed(d),
{
    let n = normalized_description(d);
    if description_allowed(d) {
        assert forall|i: int| 0 <= i < n.len() implies #[trigger] n[i] != '/' && n[i] != '\\'
            && n[i] != '\0' by {
            assert(d[i] != '/' && d[i] != '\\' && d[i] != '\0');
        }
    } else {
        let i = choose|i: int|
            0 <= i < d.len() && !(#[trigger] d[i] != '/' && d[i] != '\\' && d[i] != '\0');
        assert(!char_is_whitespace(d[i]));
        assert(n[i] == d[i]);
    }
}

/// A description is refused exactly when it holds a `/`, a `\` or a NUL
/// character, as it was written or once its whitespace is replaced: every
/// other character, `-` and `.` among them, is allowed.
pub proof fn lemma_refused_exactly_for_separators(d: Seq<char>)
    ensures
        description_allowed(d) <==> !(d.contains('/') || d.contains('\\') || d.contains('\0')),
        description_allowed(normalized_description(d)) <==> !(d.contains('/') || d.contains('\\')
            || d.contains('\0')),
{
    if description_allowed(d) {
        if d.contains('/') {
            let i = choose|i: int| 0 <= i < d.len() && d[i] == '/';
            assert(d[i] != '/');
        }
        if d.contains('\\') {
            let i = choose|i: int| 0 <= i < d.len() && d[i] == '\\';
            assert(d[i] != '\\');
        }
        if d.contains('\0') {
            let i = choose|i: int| 0 <= i < d.len() && d[i] == '\0';
            assert(d[i] != '\0');
        }
    } else {
        let i = choose|i: int|
            0 <= i < d.len() && !(#[trigger] d[i] != '/' && d[i] != '\\' && d[i] != '\0');
        assert(d.contains(d[i]));
    }
    lemma_normalizing_keeps_allowedness(d);
}

/// A migration created at a fourteen-digit `timestamp` with a non-empty
/// description is one that the directory scan recognises, with the timestamp
/// as its version and the same description.
pub proof fn lemma_created_migration_is_recognized(timestamp: Seq<char>, description: Seq<char>)
    requires
        is_version_text(timestamp),
        description.len() > 0,
    ensures
        up_name_kind(created_up_name(timestamp, description)) == (UpNameView::Migration {
            version: digits_value(timestamp),
            description,
        }),
{
    let name = created_up_name(timestamp, description);
    let n = name.len();
    assert(name.subrange(n - 7, n as int) =~= up_suffix());
    let stem = name.subrange(0, n - 7);
    assert(stem =~= timestamp + seq!['_'] + description);
    let k = VERSION_DIGITS as int;
    assert forall|j: int| 0 <= j < k implies stem[j] != '_' by {
        assert(stem[j] == timestamp[j]);
        assert(is_digit(timestamp[j]));
    }
    assert(stem[k] == '_');
    lemma_first_index_of(stem, '_', k);
    assert(stem.subrange(0, k) =~= timestamp);
    assert(stem.subrange(k + 1, stem.len() as int) =~= description);
}

/// The rollback script that the rollback looks for, for a migration
/// recorded under the version of a fourteen-digit `timestamp`, is the down
/// script that was created with it.
pub proof fn lemma_created_migration_rolls_back(timestamp: Seq<char>, description: Seq<char>)
    requires
        is_version_text(timestamp),
    ensures
        down_file_name(digits_value(timestamp), description) == created_down_name(
            timestamp,
            description,
        ),
{
    lemma_zero_padded_value(timestamp);
    lemma_digits_value_bound(timestamp);
}

} // verus!
