//! Character-level helpers shared by the name, file and script logic:
//! whitespace classification, decimal rendering and string building.
use vstd::prelude::*;

verus! {

/// Whether `c` has the Unicode `White_Space` property, the set that std's
/// `char::is_whitespace` tests: the 25 code points U+0009..=U+000D, U+0020,
/// U+0085, U+00A0, U+1680, U+2000..=U+200A, U+2028, U+2029, U+202F, U+205F
/// and U+3000.
pub open spec fn char_is_whitespace(c: char) -> bool {
    let u = c as u32;
    ||| 0x9 <= u <= 0xd
    ||| u == 0x20
    ||| u == 0x85
    ||| u == 0xa0
    ||| u == 0x1680
    ||| 0x2000 <= u <= 0x200a
    ||| u == 0x2028
    ||| u == 0x2029
    ||| u == 0x202f
    ||| u == 0x205f
    ||| u == 0x3000
}

/// Whether `c` has the Unicode `White_Space` property.
pub fn is_whitespace(c: char) -> (r: bool)
    ensures
        r == char_is_whitespace(c),
{
    let u = c as u32;
    (0x9 <= u && u <= 0xd) || u == 0x20 || u == 0x85 || u == 0xa0 || u == 0x1680 || (0x2000
        <= u && u <= 0x200a) || u == 0x2028 || u == 0x2029 || u == 0x202f || u == 0x205f || u
        == 0x3000
}

/// Calls std's `String::push`: the string grows by exactly `c` at its end.
#[verifier::external_body]
pub(crate) fn push_char(s: &mut String, c: char)
    ensures
        final(s)@ == old(s)@.push(c),
{
    s.push(c)
}

/// The characters of `s`, in order.
pub fn to_chars(s: &str) -> (out: Vec<char>)
    ensures
        out@ == s@,
{
    let mut out: Vec<char> = Vec::new();
    for c in it: s.chars()
        invariant
            out@ == it.seq().take(it.index() as int),
            it.seq() == s@,
    {
        out.push(c);
    }
    out
}

/// Appends the characters `cs[from..to]` to `s`.
pub fn push_chars(s: &mut String, cs: &Vec<char>, from: usize, to: usize)
    requires
        from <= to <= cs@.len(),
    ensures
        final(s)@ == old(s)@ + cs@.subrange(from as int, to as int),
{
    let mut i = from;
    while i < to
        invariant
            from <= i <= to <= cs@.len(),
            s@ == old(s)@ + cs@.subrange(from as int, i as int),
        decreases to - i,
    {
        push_char(s, cs[i]);
        assert(cs@.subrange(from as int, i + 1) == cs@.subrange(from as int, i as int).push(cs@[i as int]));
        i += 1;
    }
}

/// The string made of the characters `cs`, in order.
pub fn string_from_chars(cs: &Vec<char>) -> (s: String)
    ensures
        s@ == cs@,
{
    let mut s = String::new();
    push_chars(&mut s, cs, 0, cs.len());
    assert(cs@.subrange(0, cs@.len() as int) == cs@);
    s
}

/// The position of the first `c` in `s`, if `s` holds one.
pub open spec fn first_index_of(s: Seq<char>, c: char) -> Option<int> {
    if exists|i: int| 0 <= i < s.len() && s[i] == c {
        Some(choose|i: int| 0 <= i < s.len() && s[i] == c && forall|j: int| 0 <= j < i ==> s[j] != c)
    } else {
        None
    }
}

/// A position holding `c` makes a first such position exist.
proof fn lemma_first_occurrence_exists(s: Seq<char>, c: char, i: int)
    requires
        0 <= i < s.len(),
        s[i] == c,
    ensures
        exists|k: int| 0 <= k < s.len() && s[k] == c && forall|j: int| 0 <= j < k ==> s[j] != c,
    decreases i,
{
    if exists|j: int| 0 <= j < i && s[j] == c {
        let j = choose|j: int| 0 <= j < i && s[j] == c;
        lemma_first_occurrence_exists(s, c, j);
    } else {
        assert(forall|j: int| 0 <= j < i ==> s[j] != c);
    }
}

/// What `first_index_of` gives: the first position of `c`, or none when `s`
/// holds no `c`.
pub proof fn lemma_first_index_of_meaning(s: Seq<char>, c: char)
    ensures
        match first_index_of(s, c) {
            Some(k) => 0 <= k < s.len() && s[k] == c && forall|j: int| 0 <= j < k ==> s[j] != c,
            None => forall|j: int| 0 <= j < s.len() ==> s[j] != c,
        },
{
    if exists|i: int| 0 <= i < s.len() && s[i] == c {
        let i = choose|i: int| 0 <= i < s.len() && s[i] == c;
        lemma_first_occurrence_exists(s, c, i);
    }
}

/// Whether `s` ends with `suffix`.
pub open spec fn ends_with(s: Seq<char>, suffix: Seq<char>) -> bool {
    suffix.len() <= s.len() && s.subrange(s.len() - suffix.len(), s.len() as int) == suffix
}

/// A position that holds `c` and has no `c` before it is the first one.
pub proof fn lemma_first_index_of(s: Seq<char>, c: char, k: int)
    requires
        0 <= k < s.len(),
        s[k] == c,
        forall|j: int| 0 <= j < k ==> s[j] != c,
    ensures
        first_index_of(s, c) == Some(k),
{
    let w = choose|i: int| 0 <= i < s.len() && s[i] == c && forall|j: int| 0 <= j < i ==> s[j] != c;
    assert(0 <= w < s.len() && s[w] == c && forall|j: int| 0 <= j < w ==> s[j] != c);
    if w < k {
        assert(s[w] != c);
    }
    if k < w {
        assert(s[k] != c);
    }
}

/// The position of the first `c` in `cs[from..to]`, counted from the start of `cs`.
pub fn find_char(cs: &Vec<char>, from: usize, to: usize, c: char) -> (r: Option<usize>)
    requires
        from <= to <= cs@.len(),
    ensures
        match r {
            Some(k) => from <= k < to && first_index_of(cs@.subrange(from as int, to as int), c)
                == Some(k - from),
            None => first_index_of(cs@.subrange(from as int, to as int), c) is None,
        },
{
    let ghost s = cs@.subrange(from as int, to as int);
    let mut i = from;
    while i < to
        invariant
            from <= i <= to <= cs@.len(),
            s == cs@.subrange(from as int, to as int),
            forall|j: int| 0 <= j < i - from ==> s[j] != c,
        decreases to - i,
    {
        if cs[i] == c {
            proof {
                lemma_first_index_of(s, c, i - from);
            }
            return Some(i);
        }
        i += 1;
    }
    assert(!exists|i: int| 0 <= i < s.len() && s[i] == c);
    None
}

/// Whether `cs` ends with the characters of `suffix`.
pub fn ends_with_chars(cs: &Vec<char>, suffix: &Vec<char>) -> (r: bool)
    ensures
        r == ends_with(cs@, suffix@),
{
    if suffix.len() > cs.len() {
        return false;
    }
    let start = cs.len() - suffix.len();
    let mut i: usize = 0;
    while i < suffix.len()
        invariant
            start == cs@.len() - suffix@.len(),
            start + suffix@.len() == cs@.len(),
            cs@.len() <= usize::MAX,
            i <= suffix@.len(),
            forall|j: int| 0 <= j < i ==> cs@[start + j] == suffix@[j],
        decreases suffix@.len() - i,
    {
        if cs[start + i] != suffix[i] {
            assert(cs@.subrange(start as int, cs@.len() as int)[i as int] != suffix@[i as int]);
            return false;
        }
        i += 1;
    }
    assert(cs@.subrange(start as int, cs@.len() as int) == suffix@);
    true
}

/// Whether `c` is one of the ASCII digits `0` to `9`.
pub open spec fn is_digit(c: char) -> bool {
    '0' <= c && c <= '9'
}

/// The value of the ASCII digit `c`.
pub open spec fn digit_value(c: char) -> int {
    c as int - '0' as int
}

/// The ASCII digit for `d` (for `0 <= d < 10`).
pub open spec fn digit_char(d: int) -> char {
    (d + '0' as int) as char
}

/// The decimal numeral of `n`, without leading zeros ("0" for zero).
pub open spec fn decimal(n: nat) -> Seq<char>
    decreases n,
{
    if n < 10 {
        seq![digit_char(n as int)]
    } else {
        decimal(n / 10).push(digit_char((n % 10) as int))
    }
}

/// `s`, with `'0'` put in front until it is `width` characters long.
pub open spec fn zero_pad(s: Seq<char>, width: int) -> Seq<char> {
    Seq::new(if width > s.len() { (width - s.len()) as nat } else { 0 }, |i: int| '0') + s
}

/// How std renders the integer `v` with `{:0width$}`: the sign, if any, then
/// the digits, zero-padded so that sign and digits fill `width` characters.
pub open spec fn signed_zero_padded(v: int, width: int) -> Seq<char> {
    if v < 0 {
        seq!['-'] + zero_pad(decimal((-v) as nat), width - 1)
    } else {
        zero_pad(decimal(v as nat), width)
    }
}

/// The value of a string of ASCII digits, read as a decimal numeral.
pub open spec fn digits_value(s: Seq<char>) -> int
    decreases s.len(),
{
    if s.len() == 0 {
        0
    } else {
        digits_value(s.drop_last()) * 10 + digit_value(s.last())
    }
}

/// Ten to the power `n`.
pub open spec fn pow10(n: nat) -> int
    decreases n,
{
    if n == 0 {
        1
    } else {
        10 * pow10((n - 1) as nat)
    }
}

/// A numeral of `n` digits has a value below `10^n`.
pub proof fn lemma_digits_value_bound(s: Seq<char>)
    requires
        forall|i: int| 0 <= i < s.len() ==> is_digit(#[trigger] s[i]),
    ensures
        0 <= digits_value(s) < pow10(s.len()),
    decreases s.len(),
{
    if s.len() > 0 {
        let p = s.drop_last();
        assert forall|i: int| 0 <= i < p.len() implies is_digit(#[trigger] p[i]) by {
            assert(p[i] == s[i]);
        }
        lemma_digits_value_bound(p);
        let a = digits_value(p);
        let d = digit_value(s.last());
        let b = pow10(p.len());
        assert(0 <= d < 10);
        assert(a * 10 + d < b * 10) by (nonlinear_arith)
            requires
                0 <= a < b,
                0 <= d < 10,
        ;
        assert(a * 10 >= 0) by (nonlinear_arith)
            requires
                0 <= a,
        ;
    }
}

/// A numeral whose value is zero is all zeros.
proof fn lemma_zero_value_is_zeros(s: Seq<char>)
    requires
        forall|i: int| 0 <= i < s.len() ==> is_digit(#[trigger] s[i]),
        digits_value(s) == 0,
    ensures
        forall|i: int| 0 <= i < s.len() ==> #[trigger] s[i] == '0',
    decreases s.len(),
{
    if s.len() > 0 {
        let p = s.drop_last();
        assert forall|i: int| 0 <= i < p.len() implies is_digit(#[trigger] p[i]) by {
            assert(p[i] == s[i]);
        }
        lemma_digits_value_bound(p);
        assert(digits_value(p) == 0);
        lemma_zero_value_is_zeros(p);
        assert forall|i: int| 0 <= i < s.len() implies #[trigger] s[i] == '0' by {
            if i < p.len() {
                assert(p[i] == s[i]);
            }
        }
    }
}

/// Rendering the value of a non-empty numeral, zero-padded to the numeral's
/// length, gives the numeral back.
pub proof fn lemma_zero_padded_value(s: Seq<char>)
    requires
        s.len() > 0,
        forall|i: int| 0 <= i < s.len() ==> is_digit(#[trigger] s[i]),
    ensures
        zero_pad(decimal(digits_value(s) as nat), s.len() as int) == s,
        decimal(digits_value(s) as nat).len() <= s.len(),
    decreases s.len(),
{
    let p = s.drop_last();
    let c = s.last();
    assert(is_digit(c));
    let d = digit_value(c);
    assert(digit_char(d) == c);
    assert forall|i: int| 0 <= i < p.len() implies is_digit(#[trigger] p[i]) by {
        assert(p[i] == s[i]);
    }
    lemma_digits_value_bound(p);
    let vp = digits_value(p);
    let v = digits_value(s);
    assert(v == vp * 10 + d);
    if vp == 0 {
        assert(v == d);
        assert(decimal(v as nat) == seq![c]);
        lemma_zero_value_is_zeros(p);
        let z = zero_pad(seq![c], s.len() as int);
        assert(z.len() == s.len());
        assert forall|i: int| 0 <= i < s.len() implies z[i] == s[i] by {
            if i < p.len() {
                assert(p[i] == s[i]);
                assert(p[i] == '0');
            }
        }
        assert(z =~= s);
    } else {
        assert(v >= 10);
        assert(v / 10 == vp && v % 10 == d);
        assert(decimal(v as nat) == decimal(vp as nat).push(c));
        lemma_zero_padded_value(p);
        assert(zero_pad(decimal(v as nat), s.len() as int) =~= zero_pad(
            decimal(vp as nat),
            p.len() as int,
        ).push(c));
        assert(s =~= p.push(c));
    }
}

/// The ASCII digit for `d`.
fn digit(d: u64) -> (c: char)
    requires
        d < 10,
    ensures
        c == digit_char(d as int),
        is_digit(c),
{
    let b: u8 = 48u8 + d as u8;
    b as char
}

/// Appends the decimal numeral of `n` to `out`.
fn push_decimal(out: &mut Vec<char>, n: u64)
    ensures
        final(out)@ == old(out)@ + decimal(n as nat),
    decreases n,
{
    if n >= 10 {
        push_decimal(out, n / 10);
    }
    out.push(digit(n % 10));
    proof {
        if n >= 10 {
            assert(decimal(n as nat) == decimal((n / 10) as nat).push(digit_char((n % 10) as int)));
        }
    }
}

/// Renders `v` as std's `{:0width$}` does: sign, then digits zero-padded so
/// that the whole fills `width` characters.
pub fn format_zero_padded(v: i64, width: usize) -> (s: String)
    requires
        width < usize::MAX,
    ensures
        s@ == signed_zero_padded(v as int, width as int),
{
    let mut digits: Vec<char> = Vec::new();
    let magnitude: u64 = if v < 0 {
        (-(v as i128)) as u64
    } else {
        v as u64
    };
    push_decimal(&mut digits, magnitude);
    assert(digits@ == decimal(magnitude as nat));
    let mut out: Vec<char> = Vec::new();
    let target: usize = if v < 0 {
        out.push('-');
        if width > 0 { width - 1 } else { 0 }
    } else {
        width
    };
    let ghost start = out@;
    let fill: usize = if target > digits.len() { target - digits.len() } else { 0 };
    let mut i: usize = 0;
    while i < fill
        invariant
            i <= fill,
            out@ == start + Seq::new(i as nat, |k: int| '0'),
        decreases fill - i,
    {
        out.push('0');
        assert(Seq::new((i + 1) as nat, |k: int| '0') == Seq::new(i as nat, |k: int| '0').push('0'));
        i += 1;
    }
    let mut j: usize = 0;
    while j < digits.len()
        invariant
            j <= digits@.len(),
            out@ == start + Seq::new(fill as nat, |k: int| '0') + digits@.subrange(0, j as int),
        decreases digits@.len() - j,
    {
        out.push(digits[j]);
        assert(digits@.subrange(0, j + 1) == digits@.subrange(0, j as int).push(digits@[j as int]));
        j += 1;
    }
    assert(digits@.subrange(0, digits@.len() as int) == digits@);
    proof {
        if v < 0 {
            assert(start == seq!['-']);
            assert(out@ == seq!['-'] + zero_pad(decimal(magnitude as nat), width as int - 1));
        } else {
            assert(start == Seq::<char>::empty());
            assert(out@ == zero_pad(decimal(magnitude as nat), width as int));
        }
    }
    string_from_chars(&out)
}

} // verus!
