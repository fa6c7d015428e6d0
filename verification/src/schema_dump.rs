//! Preparing a schema dump for loading: `pg_dump` writes `\restrict` and
//! `\unrestrict` meta-commands that the server cannot run, so lines whose
//! first word is one of them are dropped.
use vstd::prelude::*;

use crate::text::{
    char_is_whitespace, find_char, first_index_of, is_whitespace, lemma_first_index_of_meaning,
    push_char, push_chars, to_chars,
};

verus! {

/// The version under which a loaded schema dump is recorded.
pub const SCHEMA_DUMP_VERSION: i64 = 0;

/// A line without the carriage return that ended it, if any.
pub open spec fn strip_cr(l: Seq<char>) -> Seq<char> {
    if l.len() > 0 && l.last() == '\r' {
        l.drop_last()
    } else {
        l
    }
}

#[verifier::opaque]
/// The lines of a text as std's `str::lines` yields them: split after each
/// `\n`, with the `\n` and a `\r` before it removed; a last line without `\n`
/// is kept as it is, and nothing follows a final `\n`.
pub open spec fn text_lines(s: Seq<char>) -> Seq<Seq<char>>
    decreases s.len(),
{
    if s.len() == 0 {
        seq![]
    } else {
        proof {
            lemma_first_index_of_meaning(s, '\n');
        }
        match first_index_of(s, '\n') {
            None => seq![s],
            Some(k) => seq![strip_cr(s.subrange(0, k))] + text_lines(s.subrange(k + 1, s.len() as int)),
        }
    }
}

/// The run of non-whitespace characters at the start of `l`.
pub open spec fn leading_word(l: Seq<char>) -> Seq<char>
    decreases l.len(),
{
    if l.len() == 0 || char_is_whitespace(l[0]) {
        seq![]
    } else {
        seq![l[0]] + leading_word(l.drop_first())
    }
}

/// The first whitespace-separated word of `l`, empty when there is none.
pub open spec fn first_word(l: Seq<char>) -> Seq<char>
    decreases l.len(),
{
    if l.len() == 0 {
        seq![]
    } else if char_is_whitespace(l[0]) {
        first_word(l.drop_first())
    } else {
        leading_word(l)
    }
}

/// `\restrict`
pub open spec fn restrict_command() -> Seq<char> {
    seq!['\\', 'r', 'e', 's', 't', 'r', 'i', 'c', 't']
}

/// `\unrestrict`
pub open spec fn unrestrict_command() -> Seq<char> {
    seq!['\\', 'u', 'n', 'r', 'e', 's', 't', 'r', 'i', 'c', 't']
}

/// Whether a line is a `\restrict` or `\unrestrict` meta-command.
pub open spec fn is_restrict_line(l: Seq<char>) -> bool {
    first_word(l) == restrict_command() || first_word(l) == unrestrict_command()
}

#[verifier::opaque]
/// The lines joined with `\n` between them.
pub open spec fn join_lines(ls: Seq<Seq<char>>) -> Seq<char>
    decreases ls.len(),
{
    if ls.len() == 0 {
        seq![]
    } else if ls.len() == 1 {
        ls[0]
    } else {
        join_lines(ls.drop_last()) + seq!['\n'] + ls.last()
    }
}

/// The lines that are kept.
pub open spec fn kept_lines(ls: Seq<Seq<char>>) -> Seq<Seq<char>> {
    ls.filter(|l: Seq<char>| !is_restrict_line(l))
}

/// The script that is run: the lines of the dump, without its restrict
/// meta-commands, joined with `\n`.
pub open spec fn stripped_script(s: Seq<char>) -> Seq<char> {
    join_lines(kept_lines(text_lines(s)))
}

/// Leading whitespace does not change the first word.
proof fn lemma_first_word_skip(l: Seq<char>, i: int)
    requires
        0 <= i <= l.len(),
        forall|t: int| 0 <= t < i ==> char_is_whitespace(#[trigger] l[t]),
    ensures
        first_word(l) == first_word(l.subrange(i, l.len() as int)),
    decreases i,
{
    if i > 0 {
        let rest = l.drop_first();
        assert forall|t: int| 0 <= t < i - 1 implies char_is_whitespace(#[trigger] rest[t]) by {
            assert(rest[t] == l[t + 1]);
        }
        lemma_first_word_skip(rest, i - 1);
        assert(rest.subrange(i - 1, rest.len() as int) =~= l.subrange(i, l.len() as int));
    } else {
        assert(l.subrange(0, l.len() as int) =~= l);
    }
}

/// The leading word of `l` ends at its first whitespace character.
proof fn lemma_leading_word(l: Seq<char>, j: int)
    requires
        0 <= j <= l.len(),
        forall|t: int| 0 <= t < j ==> !char_is_whitespace(#[trigger] l[t]),
        j == l.len() || char_is_whitespace(l[j]),
    ensures
        leading_word(l) == l.subrange(0, j),
    decreases j,
{
    if j > 0 {
        let rest = l.drop_first();
        assert forall|t: int| 0 <= t < j - 1 implies !char_is_whitespace(#[trigger] rest[t]) by {
            assert(rest[t] == l[t + 1]);
        }
        if j < l.len() {
            assert(rest[j - 1] == l[j]);
        }
        lemma_leading_word(rest, j - 1);
        assert(l.subrange(0, j) =~= seq![l[0]] + rest.subrange(0, j - 1));
    } else {
        assert(l.subrange(0, 0) =~= Seq::<char>::empty());
    }
}

/// Whether `l`, after its leading whitespace, begins with the word `w`,
/// followed by whitespace or by the end of the line.
pub open spec fn opens_with_word(l: Seq<char>, w: Seq<char>) -> bool {
    exists|i: int|
        0 <= i && i + w.len() <= l.len() && (forall|t: int|
            0 <= t < i ==> char_is_whitespace(#[trigger] l[t])) && #[trigger] l.subrange(
            i,
            i + w.len(),
        ) == w && (i + w.len() == l.len() || char_is_whitespace(l[i + w.len()]))
}

/// The leading word of `l` is a prefix of `l` without whitespace, followed by
/// whitespace or by the end of `l`.
proof fn lemma_leading_word_shape(l: Seq<char>)
    ensures
        leading_word(l).len() <= l.len(),
        leading_word(l) == l.subrange(0, leading_word(l).len() as int),
        forall|t: int| 0 <= t < leading_word(l).len() ==> !char_is_whitespace(#[trigger] l[t]),
        leading_word(l).len() == l.len() || char_is_whitespace(l[leading_word(l).len() as int]),
    decreases l.len(),
{
    if l.len() == 0 || char_is_whitespace(l[0]) {
        assert(l.subrange(0, 0) =~= Seq::<char>::empty());
    } else {
        let rest = l.drop_first();
        lemma_leading_word_shape(rest);
        let k: int = leading_word(rest).len() as int;
        assert(l.subrange(0, k + 1) =~= seq![l[0]] + rest.subrange(0, k));
        assert forall|t: int| 0 <= t < k + 1 implies !char_is_whitespace(#[trigger] l[t]) by {
            if t > 0 {
                assert(l[t] == rest[t - 1]);
            }
        }
        if k < rest.len() {
            assert(l[k + 1] == rest[k]);
        }
    }
}

/// For a word `w` without whitespace, the first word of `l` is `w` exactly
/// when `l` opens with `w`.
proof fn lemma_first_word_is(l: Seq<char>, w: Seq<char>)
    requires
        w.len() > 0,
        forall|t: int| 0 <= t < w.len() ==> !char_is_whitespace(#[trigger] w[t]),
    ensures
        first_word(l) == w <==> opens_with_word(l, w),
    decreases l.len(),
{
    if opens_with_word(l, w) {
        let i = choose|i: int|
            0 <= i && i + w.len() <= l.len() && (forall|t: int|
                0 <= t < i ==> char_is_whitespace(#[trigger] l[t])) && #[trigger] l.subrange(
                i,
                i + w.len(),
            ) == w && (i + w.len() == l.len() || char_is_whitespace(l[i + w.len()]));
        lemma_first_word_skip(l, i);
        let rest = l.subrange(i, l.len() as int);
        assert(rest[0] == w[0]);
        assert forall|t: int| 0 <= t < w.len() implies !char_is_whitespace(#[trigger] rest[t]) by {
            assert(rest[t] == l.subrange(i, i + w.len())[t]);
        }
        if i + w.len() < l.len() {
            assert(rest[w.len() as int] == l[i + w.len()]);
        }
        lemma_leading_word(rest, w.len() as int);
        assert(rest.subrange(0, w.len() as int) =~= w);
        assert(first_word(rest) == leading_word(rest));
        assert(first_word(l) == w);
    }
    if first_word(l) == w {
        if l.len() == 0 {
        } else if char_is_whitespace(l[0]) {
            let rest = l.drop_first();
            lemma_first_word_is(rest, w);
            let i = choose|i: int|
                0 <= i && i + w.len() <= rest.len() && (forall|t: int|
                    0 <= t < i ==> char_is_whitespace(#[trigger] rest[t])) && #[trigger] rest.subrange(
                    i,
                    i + w.len(),
                ) == w && (i + w.len() == rest.len() || char_is_whitespace(rest[i + w.len()]));
            assert(l.subrange(i + 1, i + 1 + w.len()) =~= rest.subrange(i, i + w.len()));
            assert forall|t: int| 0 <= t < i + 1 implies char_is_whitespace(#[trigger] l[t]) by {
                if t > 0 {
                    assert(l[t] == rest[t - 1]);
                }
            }
            if i + 1 + w.len() < l.len() {
                assert(l[i + 1 + w.len()] == rest[i + w.len()]);
            }
            assert(opens_with_word(l, w));
        } else {
            lemma_leading_word_shape(l);
            assert(l.subrange(0, 0 + w.len() as int) == w);
            assert(opens_with_word(l, w));
        }
    }
}

/// A line of a dump is dropped exactly when, after its leading whitespace,
/// it begins with the word `\restrict` or the word `\unrestrict`; every
/// line that begins with any other word, or holds none, is kept.
pub proof fn lemma_dropped_lines_are_restrict_commands(l: Seq<char>)
    ensures
        is_restrict_line(l) <==> (opens_with_word(
            l,
            seq!['\\', 'r', 'e', 's', 't', 'r', 'i', 'c', 't'],
        ) || opens_with_word(l, seq!['\\', 'u', 'n', 'r', 'e', 's', 't', 'r', 'i', 'c', 't'])),
{
    let r = seq!['\\', 'r', 'e', 's', 't', 'r', 'i', 'c', 't'];
    let u = seq!['\\', 'u', 'n', 'r', 'e', 's', 't', 'r', 'i', 'c', 't'];
    assert(r == restrict_command());
    assert(u == unrestrict_command());
    lemma_first_word_is(l, r);
    lemma_first_word_is(l, u);
}

/// The lines kept from a dump are its lines, in order, without those that
/// begin with the word `\restrict` or `\unrestrict`.
pub proof fn lemma_kept_lines_skip_only_restrict_commands(ls: Seq<Seq<char>>)
    ensures
        kept_lines(ls) == ls.filter(
            |l: Seq<char>|
                !(opens_with_word(l, seq!['\\', 'r', 'e', 's', 't', 'r', 'i', 'c', 't'])
                    || opens_with_word(
                    l,
                    seq!['\\', 'u', 'n', 'r', 'e', 's', 't', 'r', 'i', 'c', 't'],
                )),
        ),
{
    let f = |l: Seq<char>| !is_restrict_line(l);
    let g = |l: Seq<char>|
        !(opens_with_word(l, seq!['\\', 'r', 'e', 's', 't', 'r', 'i', 'c', 't']) || opens_with_word(
            l,
            seq!['\\', 'u', 'n', 'r', 'e', 's', 't', 'r', 'i', 'c', 't'],
        ));
    assert forall|l: Seq<char>| #[trigger] f(l) == g(l) by {
        lemma_dropped_lines_are_restrict_commands(l);
    }
    assert(f =~= g);
}

/// Whether `cs[from..to]` equals `word`.
fn chars_equal(cs: &Vec<char>, from: usize, to: usize, word: &Vec<char>) -> (r: bool)
    requires
        from <= to <= cs@.len(),
    ensures
        r == (cs@.subrange(from as int, to as int) == word@),
{
    if to - from != word.len() {
        return false;
    }
    let mut i: usize = 0;
    while i < word.len()
        invariant
            from <= to <= cs@.len(),
            to - from == word@.len(),
            i <= word@.len(),
            forall|t: int| 0 <= t < i ==> cs@[from + t] == word@[t],
        decreases word@.len() - i,
    {
        if cs[from + i] != word[i] {
            assert(cs@.subrange(from as int, to as int)[i as int] != word@[i as int]);
            return false;
        }
        i += 1;
    }
    assert(cs@.subrange(from as int, to as int) =~= word@);
    true
}

/// Whether the line `cs[from..to]` is a restrict meta-command.
fn is_restrict_line_at(cs: &Vec<char>, from: usize, to: usize) -> (r: bool)
    requires
        from <= to <= cs@.len(),
    ensures
        r == is_restrict_line(cs@.subrange(from as int, to as int)),
{
    let ghost l = cs@.subrange(from as int, to as int);
    let mut i = from;
    while i < to && is_whitespace(cs[i])
        invariant
            from <= i <= to <= cs@.len(),
            l == cs@.subrange(from as int, to as int),
            forall|t: int| 0 <= t < i - from ==> char_is_whitespace(#[trigger] l[t]),
        decreases to - i,
    {
        i += 1;
    }
    proof {
        lemma_first_word_skip(l, i - from);
    }
    let ghost rest = l.subrange(i - from, l.len() as int);
    assert(rest == cs@.subrange(i as int, to as int));
    if i == to {
        assert(rest.len() == 0);
        assert(first_word(l) == Seq::<char>::empty());
        return false;
    }
    assert(!char_is_whitespace(rest[0]));
    let mut j = i;
    while j < to && !is_whitespace(cs[j])
        invariant
            i <= j <= to <= cs@.len(),
            rest == cs@.subrange(i as int, to as int),
            forall|t: int| 0 <= t < j - i ==> !char_is_whitespace(#[trigger] rest[t]),
        decreases to - j,
    {
        j += 1;
    }
    proof {
        if j < to {
            assert(char_is_whitespace(rest[j - i]));
        }
        lemma_leading_word(rest, j - i);
        assert(first_word(rest) == leading_word(rest));
        assert(rest.subrange(0, j - i) == cs@.subrange(i as int, j as int));
    }
    let restrict: Vec<char> = vec!['\\', 'r', 'e', 's', 't', 'r', 'i', 'c', 't'];
    let unrestrict: Vec<char> = vec!['\\', 'u', 'n', 'r', 'e', 's', 't', 'r', 'i', 'c', 't'];
    assert(restrict@ == restrict_command());
    assert(unrestrict@ == unrestrict_command());
    chars_equal(cs, i, j, &restrict) || chars_equal(cs, i, j, &unrestrict)
}

/// How the lines of the text from `pos` on begin: with the line that ends at
/// the first `\n` (without a `\r` before it), or with the rest of the text.
proof fn lemma_next_line(cs: Seq<char>, pos: int, found: Option<int>, line_end: int, next: int)
    requires
        0 <= pos < cs.len(),
        first_index_of(cs.subrange(pos, cs.len() as int), '\n') == (match found {
            Some(k) => Some(k - pos),
            None => None::<int>,
        }),
        match found {
            Some(k) => pos <= k < cs.len() && next == k + 1 && line_end == (if k > pos && cs[k
                - 1] == '\r' {
                k - 1
            } else {
                k
            }),
            None => next == cs.len() && line_end == cs.len(),
        },
    ensures
        pos <= line_end <= cs.len(),
        text_lines(cs.subrange(pos, cs.len() as int)) == seq![cs.subrange(pos, line_end)]
            + text_lines(cs.subrange(next, cs.len() as int)),
{
    reveal(text_lines);
    let rest = cs.subrange(pos, cs.len() as int);
    lemma_first_index_of_meaning(rest, '\n');
    match found {
        Some(k) => {
            assert(rest.subrange(0, k - pos) == cs.subrange(pos, k));
            assert(strip_cr(cs.subrange(pos, k)) == cs.subrange(pos, line_end));
            assert(rest.subrange(k - pos + 1, rest.len() as int) == cs.subrange(
                next,
                cs.len() as int,
            ));
        },
        None => {
            assert(cs.subrange(next, cs.len() as int) == Seq::<char>::empty());
        },
    }
}

/// An empty text has no lines, and no lines join to nothing.
proof fn lemma_empty_text()
    ensures
        text_lines(Seq::<char>::empty()) == Seq::<Seq<char>>::empty(),
        join_lines(Seq::<Seq<char>>::empty()) == Seq::<char>::empty(),
        kept_lines(Seq::<Seq<char>>::empty()) == Seq::<Seq<char>>::empty(),
{
    reveal(text_lines);
    reveal(join_lines);
    reveal(Seq::filter);
}

/// Keeping or dropping one more line.
proof fn lemma_keep_line(done: Seq<Seq<char>>, line: Seq<char>)
    ensures
        !is_restrict_line(line) ==> kept_lines(done.push(line)) == kept_lines(done).push(line),
        is_restrict_line(line) ==> kept_lines(done.push(line)) == kept_lines(done),
        !is_restrict_line(line) ==> join_lines(kept_lines(done.push(line))) == join_lines(
            kept_lines(done),
        ) + (if kept_lines(done).len() > 0 {
            seq!['\n']
        } else {
            Seq::<char>::empty()
        }) + line,
{
    reveal(Seq::filter);
    reveal(join_lines);
    assert(done.push(line).drop_last() == done);
    if !is_restrict_line(line) {
        let kept2 = kept_lines(done).push(line);
        assert(kept2.drop_last() == kept_lines(done));
        if kept_lines(done).len() == 0 {
            assert(kept2.len() == 1);
            assert(kept_lines(done) =~= Seq::<Seq<char>>::empty());
            assert(join_lines(kept_lines(done)) =~= Seq::<char>::empty());
            assert(join_lines(kept2) == line);
        }
    }
}

/// Removes the `\restrict` and `\unrestrict` meta-commands from a schema
/// dump: the result is the dump's lines (as `str::lines` splits them) without
/// the lines whose first word is one of these commands, joined with `\n`.
pub fn strip_restrict_directives(script: &str) -> (r: String)
    ensures
        r@ == stripped_script(script@),
{
    let cs = to_chars(script);
    let n = cs.len();
    let mut out = String::new();
    let mut pos: usize = 0;
    let mut kept_any = false;
    let ghost mut done: Seq<Seq<char>> = Seq::empty();
    assert(cs@.subrange(0, n as int) == cs@);
    proof {
        lemma_empty_text();
        assert(done + text_lines(cs@) == text_lines(cs@));
    }
    while pos < n
        invariant
            pos <= n == cs@.len(),
            cs@ == script@,
            text_lines(cs@) == done + text_lines(cs@.subrange(pos as int, n as int)),
            out@ == join_lines(kept_lines(done)),
            kept_any == (kept_lines(done).len() > 0),
        decreases n - pos,
    {
        let found = find_char(&cs, pos, n, '\n');
        let line_end: usize;
        let next: usize;
        match found {
            Some(k) => {
                next = k + 1;
                if k > pos && cs[k - 1] == '\r' {
                    line_end = k - 1;
                } else {
                    line_end = k;
                }
            },
            None => {
                next = n;
                line_end = n;
            },
        }
        let ghost line = cs@.subrange(pos as int, line_end as int);
        proof {
            let f: Option<int> = match found {
                Some(k) => Some(k as int),
                None => None,
            };
            lemma_next_line(cs@, pos as int, f, line_end as int, next as int);
            lemma_keep_line(done, line);
            assert(done.push(line) + text_lines(cs@.subrange(next as int, n as int)) =~= done
                + (seq![line] + text_lines(cs@.subrange(next as int, n as int))));
        }
        let skip = is_restrict_line_at(&cs, pos, line_end);
        if !skip {
            let ghost joined = out@;
            if kept_any {
                push_char(&mut out, '\n');
                assert(out@ == joined + seq!['\n']);
            }
            kept_any = true;
            push_chars(&mut out, &cs, pos, line_end);
            assert(out@ == join_lines(kept_lines(done.push(line))));
        }
        proof {
            done = done.push(line);
        }
        pos = next;
    }
    proof {
        lemma_empty_text();
        assert(cs@.subrange(n as int, n as int) == Seq::<char>::empty());
        assert(done =~= text_lines(cs@));
    }
    out
}

/// What to do with a database's schema dump.
#[derive(Debug, Clone, Copy, PartialEq, Eq, Structural)]
pub enum DumpAction {
    /// It has not been loaded: load it and record it under
    /// `SCHEMA_DUMP_VERSION`.
    Load,
    /// It has been loaded already: loading it again would conflict.
    Skip,
}

/// A schema dump is loaded only when its version is not recorded as applied.
pub fn schema_dump_action(already_applied: bool) -> (a: DumpAction)
    ensures
        a == (if already_applied {
            DumpAction::Skip
        } else {
            DumpAction::Load
        }),
{
    if already_applied {
        DumpAction::Skip
    } else {
        DumpAction::Load
    }
}

} // verus!
