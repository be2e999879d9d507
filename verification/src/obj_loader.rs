//! A line-oriented parser for the OBJ model format and its companion
//! MTL material format.
//!
//! The parser works on lines that the caller has already read;
//! opening files, following `mtllib` references and decoding texture
//! images are left to the surrounding program.  Numeric vertex data
//! is validated against the float grammar and kept as its source
//! text, so that the rendering shell can convert it to whatever
//! machine format its graphics API wants.

use vstd::prelude::*;

verus! {

/// Why a model file was rejected.
#[derive(Clone, Copy, Debug, PartialEq, Eq, Structural)]
pub enum ParseError {
    /// A line has no blank after its keyword.
    MissingType,
    /// A `v`, `vn` or `vt` line ends before its first coordinate.
    MissingX,
    /// A `v`, `vn` or `vt` line ends before its second coordinate.
    MissingY,
    /// A `v` or `vn` line ends before its third coordinate.
    MissingZ,
    /// A face vertex has no texture-coordinate part.
    MissingVt,
    /// A face vertex has no normal part.
    MissingVn,
    /// A numeric field does not parse as a number of its kind.
    InvalidNumber,
}

/// The blank characters that separate fields of a line.
pub open spec fn is_space(c: char) -> bool {
    c == ' ' || c == '\t' || c == '\n' || c == '\r' || c == '\u{b}' || c == '\u{c}'
}

/// Decimal digits.
pub open spec fn is_digit(c: char) -> bool {
    '0' <= c && c <= '9'
}

/// The numeric value of a decimal digit.
pub open spec fn digit_val(c: char) -> int {
    c as int - '0' as int
}

/// Whether a text is digits only.
pub open spec fn all_digits(s: Seq<char>) -> bool {
    forall|i: int| 0 <= i < s.len() ==> is_digit(#[trigger] s[i])
}

/// The value of a digit string, most significant digit first.
pub open spec fn digits_val(s: Seq<char>) -> int
    decreases s.len(),
{
    if s.len() == 0 {
        0
    } else {
        digits_val(s.drop_last()) * 10 + digit_val(s.last())
    }
}

/// The digit part of an unsigned decimal text: an optional leading
/// `+` is allowed.
pub open spec fn spec_strip_plus(s: Seq<char>) -> Seq<char> {
    if s.len() > 0 && s[0] == '+' {
        s.skip(1)
    } else {
        s
    }
}

/// Whether a text spells an unsigned decimal number.
pub open spec fn is_uint_text(s: Seq<char>) -> bool {
    spec_strip_plus(s).len() > 0 && all_digits(spec_strip_plus(s))
}

/// The value spelled by an unsigned decimal text.
pub open spec fn uint_text_val(s: Seq<char>) -> int {
    digits_val(spec_strip_plus(s))
}

/// The first position in `s`, at `from` or after, whose character is
/// `c`; the length of `s` when there is none.
pub open spec fn spec_find(s: Seq<char>, c: char, from: int) -> int
    decreases s.len() - from,
{
    if from < 0 || from >= s.len() {
        s.len() as int
    } else if s[from] == c {
        from
    } else {
        spec_find(s, c, from + 1)
    }
}

/// The first position in `s`, at `from` or after, whose character is
/// not a digit; the length of `s` when digits run to the end.
pub open spec fn spec_digits_end(s: Seq<char>, from: int) -> int
    decreases s.len() - from,
{
    if from < 0 || from >= s.len() {
        s.len() as int
    } else if is_digit(s[from]) {
        spec_digits_end(s, from + 1)
    } else {
        from
    }
}

/// The first position in `s`, at `from` or after, whose character is
/// not a blank; the length of `s` when blanks run to the end.
pub open spec fn spec_skip_spaces(s: Seq<char>, from: int) -> int
    decreases s.len() - from,
{
    if from < 0 || from >= s.len() {
        s.len() as int
    } else if is_space(s[from]) {
        spec_skip_spaces(s, from + 1)
    } else {
        from
    }
}

/// `spec_find` names a position in `from..=s.len()`, `c` stands
/// there if anywhere, and nowhere before it.
pub proof fn lemma_find_props(s: Seq<char>, c: char, from: int)
    requires
        0 <= from <= s.len(),
    ensures
        from <= spec_find(s, c, from) <= s.len(),
        spec_find(s, c, from) < s.len() ==> s[spec_find(s, c, from)] == c,
        forall|i: int| from <= i < spec_find(s, c, from) ==> s[i] != c,
    decreases s.len() - from,
{
    if from < s.len() && s[from] != c {
        lemma_find_props(s, c, from + 1);
    }
}

/// `spec_digits_end` names a position in `from..=s.len()`, digits
/// fill everything before it, and a non-digit stands there if it is
/// inside the text.
pub proof fn lemma_digits_end_props(s: Seq<char>, from: int)
    requires
        0 <= from <= s.len(),
    ensures
        from <= spec_digits_end(s, from) <= s.len(),
        spec_digits_end(s, from) < s.len() ==> !is_digit(s[spec_digits_end(s, from)]),
        forall|i: int| from <= i < spec_digits_end(s, from) ==> is_digit(s[i]),
    decreases s.len() - from,
{
    if from < s.len() && is_digit(s[from]) {
        lemma_digits_end_props(s, from + 1);
    }
}

/// Finds the position of the first `c` in `s` at `from` or later.
fn find_char(s: &str, c: char, from: usize) -> (r: usize)
    requires
        from <= s@.len(),
    ensures
        r == spec_find(s@, c, from as int),
{
    let n = s.unicode_len();
    let mut i = from;
    while i < n
        invariant
            from <= i <= n,
            n == s@.len(),
            spec_find(s@, c, from as int) == spec_find(s@, c, i as int),
        decreases n - i,
    {
        if s.get_char(i) == c {
            return i;
        }
        i += 1;
    }
    n
}

/// A digit string's value is never negative.
proof fn lemma_digits_val_nonneg(s: Seq<char>)
    requires
        all_digits(s),
    ensures
        digits_val(s) >= 0,
    decreases s.len(),
{
    if s.len() > 0 {
        assert(all_digits(s.drop_last())) by {
            assert(forall|i: int| 0 <= i < s.len() - 1 ==> is_digit(#[trigger] s[i]));
        }
        lemma_digits_val_nonneg(s.drop_last());
    }
}

/// Extending a digit string can only raise its value.
proof fn lemma_digits_val_prefix(s: Seq<char>, i: int)
    requires
        all_digits(s),
        0 <= i <= s.len(),
    ensures
        digits_val(s) >= digits_val(s.take(i)),
    decreases s.len() - i,
{
    if i < s.len() {
        lemma_digits_val_prefix(s, i + 1);
        assert(s.take(i + 1).drop_last() =~= s.take(i));
        assert(all_digits(s.take(i + 1))) by {
            assert(forall|k: int| 0 <= k < i + 1 ==> is_digit(#[trigger] s[k]));
        }
        lemma_digits_val_nonneg(s.take(i + 1).drop_last());
        assert(digits_val(s.take(i + 1)) >= digits_val(s.take(i)));
    } else {
        assert(s.take(i) =~= s);
    }
}

/// Reads an unsigned decimal, exactly as wide as the machine word
/// allows; an optional leading `+` is accepted, anything else is
/// refused.
pub fn parse_usize(s: &str) -> (r: Option<usize>)
    ensures
        match r {
            Some(v) => is_uint_text(s@) && uint_text_val(s@) == v as int,
            None => !is_uint_text(s@) || uint_text_val(s@) > usize::MAX,
        },
{
    let n = s.unicode_len();
    let start: usize = if n > 0 && s.get_char(0) == '+' {
        1
    } else {
        0
    };
    let ghost ds = spec_strip_plus(s@);
    proof {
        assert(ds =~= s@.skip(start as int));
    }
    if start >= n {
        // no digits at all
        return None;
    }
    let mut v: usize = 0;
    let mut i = start;
    while i < n
        invariant
            n == s@.len(),
            start <= i <= n,
            start < n,
            ds == s@.skip(start as int),
            ds == spec_strip_plus(s@),
            all_digits(ds.take(i - start)),
            v as int == digits_val(ds.take(i - start)),
        decreases n - i,
    {
        let c = s.get_char(i);
        proof {
            assert(ds[i - start] == c);
        }
        if !('0' <= c && c <= '9') {
            proof {
                assert(!is_digit(ds[i - start]));
            }
            return None;
        }
        let d: usize = (c as u32 as usize) - 48;
        proof {
            assert(d == digit_val(c));
            assert(ds.take(i - start + 1).drop_last() =~= ds.take(i - start));
            assert(all_digits(ds.take(i - start + 1))) by {
                assert(forall|k: int|
                    0 <= k < i - start ==> is_digit(#[trigger] ds.take(i - start)[k]));
            }
        }
        if v > (usize::MAX - d) / 10 {
            proof {
                assert(10 * v + d > usize::MAX) by (nonlinear_arith)
                    requires
                        v > (usize::MAX - d) / 10,
                        d <= 9,
                {}
                assert(digits_val(ds.take(i - start + 1)) > usize::MAX);
                if is_uint_text(s@) {
                    lemma_digits_val_prefix(ds, i - start + 1);
                }
            }
            return None;
        }
        v = v * 10 + d;
        i += 1;
    }
    proof {
        assert(ds.take(n - start) =~= ds);
    }
    Some(v)
}

/// Reads an unsigned decimal that must fit in 32 bits.
pub fn parse_u32(s: &str) -> (r: Option<u32>)
    ensures
        match r {
            Some(v) => is_uint_text(s@) && uint_text_val(s@) == v as int,
            None => !is_uint_text(s@) || uint_text_val(s@) > u32::MAX,
        },
{
    match parse_usize(s) {
        None => None,
        Some(v) => {
            if v <= u32::MAX as usize {
                Some(v as u32)
            } else {
                None
            }
        },
    }
}

/// Whether `c` is the letter `lower`, in either case; `lower` is
/// given in lower case.
pub open spec fn eq_ci(c: char, lower: char) -> bool {
    c == lower || c as int == lower as int - 32
}

/// The spellings `inf`, `infinity` and `nan`, in any mix of case,
/// that the float grammar accepts in place of a number.
pub open spec fn is_inf_nan_text(b: Seq<char>) -> bool {
    (b.len() == 3 && eq_ci(b[0], 'i') && eq_ci(b[1], 'n') && eq_ci(b[2], 'f')) || (b.len() == 8
        && eq_ci(b[0], 'i') && eq_ci(b[1], 'n') && eq_ci(b[2], 'f') && eq_ci(b[3], 'i') && eq_ci(
        b[4],
        'n',
    ) && eq_ci(b[5], 'i') && eq_ci(b[6], 't') && eq_ci(b[7], 'y')) || (b.len() == 3 && eq_ci(
        b[0],
        'n',
    ) && eq_ci(b[1], 'a') && eq_ci(b[2], 'n'))
}

/// An exponent tail: an optional sign and then at least one digit.
pub open spec fn is_exp_tail(t: Seq<char>) -> bool {
    let d = if t.len() > 0 && (t[0] == '+' || t[0] == '-') {
        t.skip(1)
    } else {
        t
    };
    d.len() > 0 && all_digits(d)
}

/// An exponent marker at position `i` of `b`, followed by a valid
/// tail.
pub open spec fn is_exp_at(b: Seq<char>, i: int) -> bool {
    0 <= i < b.len() && (b[i] == 'e' || b[i] == 'E') && is_exp_tail(b.skip(i + 1))
}

/// An unsigned float body: digits with at most one point — at least
/// one digit in all — optionally followed by an exponent.
pub open spec fn is_float_body(b: Seq<char>) -> bool {
    let d1 = spec_digits_end(b, 0);
    if d1 == b.len() {
        d1 > 0
    } else if b[d1] == '.' {
        let d2 = spec_digits_end(b, d1 + 1);
        if d2 == b.len() {
            d1 > 0 || d2 > d1 + 1
        } else {
            (d1 > 0 || d2 > d1 + 1) && is_exp_at(b, d2)
        }
    } else {
        d1 > 0 && is_exp_at(b, d1)
    }
}

/// The text form a float accepts: an optional sign, then a number,
/// an infinity or a not-a-number spelling.
pub open spec fn is_float_text(s: Seq<char>) -> bool {
    let b = if s.len() > 0 && (s[0] == '+' || s[0] == '-') {
        s.skip(1)
    } else {
        s
    };
    is_inf_nan_text(b) || is_float_body(b)
}

/// Decides membership in the float grammar, character by character.
pub fn check_float(s: &str) -> (r: bool)
    ensures
        r == is_float_text(s@),
{
    let n = s.unicode_len();
    let start: usize = if n > 0 && {
        let c = s.get_char(0);
        c == '+' || c == '-'
    } {
        1
    } else {
        0
    };
    let ghost b = if s@.len() > 0 && (s@[0] == '+' || s@[0] == '-') {
        s@.skip(1)
    } else {
        s@
    };
    proof {
        assert(b =~= s@.skip(start as int));
    }
    let m = n - start;

    // the word spellings first
    if m == 3 || m == 8 {
        let c0 = s.get_char(start);
        let c1 = s.get_char(start + 1);
        let c2 = s.get_char(start + 2);
        if m == 3 {
            if (c0 == 'i' || c0 == 'I') && (c1 == 'n' || c1 == 'N') && (c2 == 'f' || c2 == 'F') {
                return true;
            }
            if (c0 == 'n' || c0 == 'N') && (c1 == 'a' || c1 == 'A') && (c2 == 'n' || c2 == 'N') {
                return true;
            }
        } else {
            let c3 = s.get_char(start + 3);
            let c4 = s.get_char(start + 4);
            let c5 = s.get_char(start + 5);
            let c6 = s.get_char(start + 6);
            let c7 = s.get_char(start + 7);
            if (c0 == 'i' || c0 == 'I') && (c1 == 'n' || c1 == 'N') && (c2 == 'f' || c2 == 'F') && (
            c3 == 'i' || c3 == 'I') && (c4 == 'n' || c4 == 'N') && (c5 == 'i' || c5 == 'I') && (c6
                == 't' || c6 == 'T') && (c7 == 'y' || c7 == 'Y') {
                return true;
            }
        }
    }
    proof {
        assert(!is_inf_nan_text(b));
    }

    let d1 = digits_end(s, start);
    let ghost gd1 = spec_digits_end(b, 0);
    proof {
        lemma_digits_end_skip_one(s@, start as int, start as int);
        assert(gd1 == d1 - start);
        lemma_digits_end_props(b, 0);
        lemma_digits_end_props(s@, start as int);
    }
    if d1 == n {
        return d1 > start;
    }
    let cd = s.get_char(d1);
    proof {
        assert(b[gd1] == cd);
    }
    if cd == '.' {
        let d2 = digits_end(s, d1 + 1);
        let ghost gd2 = spec_digits_end(b, gd1 + 1);
        proof {
            lemma_digits_end_skip_one(s@, start as int, d1 as int + 1);
            assert(gd2 == d2 - start);
            lemma_digits_end_props(s@, d1 as int + 1);
        }
        if d2 == n {
            return d1 > start || d2 > d1 + 1;
        }
        if !(d1 > start || d2 > d1 + 1) {
            return false;
        }
        check_exp(s, d2, start)
    } else {
        if d1 == start {
            return false;
        }
        check_exp(s, d1, start)
    }
}

/// `spec_digits_end` looks only at the text from its start position
/// on, so a common prefix may be cut off.
proof fn lemma_digits_end_skip_one(s: Seq<char>, start: int, i: int)
    requires
        0 <= start <= i <= s.len(),
    ensures
        spec_digits_end(s.skip(start), i - start) == spec_digits_end(s, i) - start,
    decreases s.len() - i,
{
    if i < s.len() && is_digit(s[i]) {
        lemma_digits_end_skip_one(s, start, i + 1);
    }
}

/// Finds where the digit run beginning at `from` ends.
fn digits_end(s: &str, from: usize) -> (r: usize)
    requires
        from <= s@.len(),
    ensures
        r == spec_digits_end(s@, from as int),
{
    let n = s.unicode_len();
    let mut i = from;
    while i < n
        invariant
            from <= i <= n,
            n == s@.len(),
            spec_digits_end(s@, from as int) == spec_digits_end(s@, i as int),
        decreases n - i,
    {
        let c = s.get_char(i);
        if !('0' <= c && c <= '9') {
            return i;
        }
        i += 1;
    }
    n
}

/// Checks an exponent beginning at absolute position `at`, for a
/// body that begins at absolute position `start`.
fn check_exp(s: &str, at: usize, start: usize) -> (r: bool)
    requires
        start <= at < s@.len(),
    ensures
        r == is_exp_at(s@.skip(start as int), at - start),
{
    let ghost b = s@.skip(start as int);
    let n = s.unicode_len();
    let c = s.get_char(at);
    proof {
        assert(b[at - start] == c);
    }
    if !(c == 'e' || c == 'E') {
        return false;
    }
    let ghost t = b.skip(at - start + 1);
    let mut i = at + 1;
    proof {
        assert(t =~= s@.skip(i as int));
    }
    if i < n {
        let c1 = s.get_char(i);
        proof {
            assert(t[0] == c1);
        }
        if c1 == '+' || c1 == '-' {
            i += 1;
        }
    }
    let ghost d = if t.len() > 0 && (t[0] == '+' || t[0] == '-') {
        t.skip(1)
    } else {
        t
    };
    proof {
        assert(d =~= s@.skip(i as int));
    }
    if i >= n {
        proof {
            assert(d.len() == 0);
        }
        return false;
    }
    let e = digits_end(s, i);
    proof {
        lemma_digits_end_skip_one(s@, i as int, i as int);
        lemma_digits_end_props(d, 0);
        if e == n {
            assert(all_digits(d)) by {
                assert(forall|k: int|
                    0 <= k < d.len() ==> is_digit(#[trigger] d[k]));
            }
        } else {
            assert(!is_digit(d[e - i]));
        }
    }
    e == n
}

/// The first position in `s`, at `from` or after, whose character is
/// a blank; the length of `s` when there is none.
pub open spec fn spec_find_space(s: Seq<char>, from: int) -> int
    decreases s.len() - from,
{
    if from < 0 || from >= s.len() {
        s.len() as int
    } else if is_space(s[from]) {
        from
    } else {
        spec_find_space(s, from + 1)
    }
}

/// `spec_find_space` names a position in `from..=s.len()`, a blank
/// stands there if anywhere, and nowhere before it.
pub proof fn lemma_find_space_props(s: Seq<char>, from: int)
    requires
        0 <= from <= s.len(),
    ensures
        from <= spec_find_space(s, from) <= s.len(),
        spec_find_space(s, from) < s.len() ==> is_space(s[spec_find_space(s, from)]),
        forall|i: int| from <= i < spec_find_space(s, from) ==> !is_space(s[i]),
    decreases s.len() - from,
{
    if from < s.len() && !is_space(s[from]) {
        lemma_find_space_props(s, from + 1);
    }
}

/// `spec_skip_spaces` names a position in `from..=s.len()`, blanks
/// fill everything before it, and a non-blank stands there if it is
/// inside the text.
pub proof fn lemma_skip_spaces_props(s: Seq<char>, from: int)
    requires
        0 <= from <= s.len(),
    ensures
        from <= spec_skip_spaces(s, from) <= s.len(),
        spec_skip_spaces(s, from) < s.len() ==> !is_space(s[spec_skip_spaces(s, from)]),
        forall|i: int| from <= i < spec_skip_spaces(s, from) ==> is_space(s[i]),
    decreases s.len() - from,
{
    if from < s.len() && is_space(s[from]) {
        lemma_skip_spaces_props(s, from + 1);
    }
}

/// One past the last non-blank character; `0` for an all-blank text.
pub open spec fn spec_trim_end_idx(s: Seq<char>) -> int
    decreases s.len(),
{
    if s.len() == 0 {
        0
    } else if is_space(s.last()) {
        spec_trim_end_idx(s.drop_last())
    } else {
        s.len() as int
    }
}

/// The text with leading and trailing blanks removed.
pub open spec fn spec_trim(s: Seq<char>) -> Seq<char> {
    let a = spec_skip_spaces(s, 0);
    let e = spec_trim_end_idx(s);
    if a <= e {
        s.subrange(a, e)
    } else {
        Seq::empty()
    }
}

proof fn lemma_trim_end_props(s: Seq<char>)
    ensures
        0 <= spec_trim_end_idx(s) <= s.len(),
        spec_trim_end_idx(s) > 0 ==> !is_space(s[spec_trim_end_idx(s) - 1]),
        forall|i: int| spec_trim_end_idx(s) <= i < s.len() ==> is_space(s[i]),
    decreases s.len(),
{
    if s.len() > 0 && is_space(s.last()) {
        lemma_trim_end_props(s.drop_last());
        assert(forall|i: int|
            spec_trim_end_idx(s) <= i < s.len() - 1 ==> s.drop_last()[i] == s[i]);
    }
}

/// Skips blanks, starting at `from`.
fn skip_spaces(s: &str, from: usize) -> (r: usize)
    requires
        from <= s@.len(),
    ensures
        r == spec_skip_spaces(s@, from as int),
{
    let n = s.unicode_len();
    let mut i = from;
    while i < n
        invariant
            from <= i <= n,
            n == s@.len(),
            spec_skip_spaces(s@, from as int) == spec_skip_spaces(s@, i as int),
        decreases n - i,
    {
        let c = s.get_char(i);
        if !(c == ' ' || c == '\t' || c == '\n' || c == '\r' || c == '\u{b}' || c == '\u{c}') {
            return i;
        }
        i += 1;
    }
    n
}

/// Finds the first blank at `from` or later.
fn find_space(s: &str, from: usize) -> (r: usize)
    requires
        from <= s@.len(),
    ensures
        r == spec_find_space(s@, from as int),
{
    let n = s.unicode_len();
    let mut i = from;
    while i < n
        invariant
            from <= i <= n,
            n == s@.len(),
            spec_find_space(s@, from as int) == spec_find_space(s@, i as int),
        decreases n - i,
    {
        let c = s.get_char(i);
        if c == ' ' || c == '\t' || c == '\n' || c == '\r' || c == '\u{b}' || c == '\u{c}' {
            return i;
        }
        i += 1;
    }
    n
}

/// Cuts leading and trailing blanks off a text.
fn trim_str(s: &str) -> (t: &str)
    ensures
        t@ == spec_trim(s@),
{
    let n = s.unicode_len();
    proof {
        assert(s@.take(n as int) =~= s@);
    }
    let a = skip_spaces(s, 0);
    let mut e = n;
    while e > 0
        invariant
            e <= n,
            n == s@.len(),
            spec_trim_end_idx(s@) == spec_trim_end_idx(s@.take(e as int)),
        ensures
            e <= n,
            n == s@.len(),
            e == spec_trim_end_idx(s@),
        decreases e,
    {
        let c = s.get_char(e - 1);
        proof {
            assert(s@.take(e as int).last() == c);
            assert(s@.take(e as int).drop_last() =~= s@.take(e as int - 1));
        }
        if !(c == ' ' || c == '\t' || c == '\n' || c == '\r' || c == '\u{b}' || c == '\u{c}') {
            proof {
                assert(spec_trim_end_idx(s@.take(e as int)) == e);
            }
            break ;
        }
        e -= 1;
    }
    proof {
        if e == 0 {
            assert(s@.take(0) =~= Seq::<char>::empty());
        }
        lemma_skip_spaces_props(s@, 0);
        lemma_trim_end_props(s@);
    }
    if a >= e {
        let t = s.substring_char(0, 0);
        proof {
            // nothing but blanks before the trimmed end
            assert(spec_trim(s@) =~= Seq::<char>::empty());
            assert(t@ =~= spec_trim(s@));
        }
        t
    } else {
        let t = s.substring_char(a, e);
        t
    }
}

/// `spec_find_space` looks only at the text from its start position
/// on, so a common prefix may be cut off.
proof fn lemma_find_space_skip_one(s: Seq<char>, start: int, i: int)
    requires
        0 <= start <= i <= s.len(),
    ensures
        spec_find_space(s.skip(start), i - start) == spec_find_space(s, i) - start,
    decreases s.len() - i,
{
    if i < s.len() && !is_space(s[i]) {
        lemma_find_space_skip_one(s, start, i + 1);
    }
}

/// Whether two texts hold the same characters.
pub(crate) fn str_eq(a: &str, b: &str) -> (r: bool)
    ensures
        r == (a@ == b@),
{
    let n = a.unicode_len();
    if n != b.unicode_len() {
        proof {
            assert(a@ != b@) by {
                assert(a@.len() != b@.len());
            }
        }
        return false;
    }
    let mut i: usize = 0;
    while i < n
        invariant
            i <= n,
            n == a@.len(),
            n == b@.len(),
            forall|k: int| 0 <= k < i ==> a@[k] == b@[k],
        decreases n - i,
    {
        if a.get_char(i) != b.get_char(i) {
            return false;
        }
        i += 1;
    }
    proof {
        assert(a@ =~= b@);
    }
    true
}

/// A face corner: indices of a position, a texture coordinate and a
/// normal, as written in the file (so starting at one).
pub type VAIdx = (usize, usize, usize);

/// Whether a text is an unsigned decimal whose value fits the
/// machine word.
pub open spec fn spec_usize_ok(p: Seq<char>) -> bool {
    is_uint_text(p) && uint_text_val(p) <= usize::MAX
}

/// What reading `v/vt/vn` from a face vertex yields: each of the
/// three slash-separated parts must be an in-range unsigned decimal.
/// A part after a third slash is ignored.  A bad number in an
/// earlier part wins over a missing later part.
pub open spec fn spec_parse_f_vertex(s: Seq<char>) -> Result<VAIdx, ParseError> {
    let j = spec_find(s, '/', 0);
    let p1 = s.take(j);
    if !spec_usize_ok(p1) {
        Err(ParseError::InvalidNumber)
    } else if j >= s.len() {
        Err(ParseError::MissingVt)
    } else {
        let k = spec_find(s, '/', j + 1);
        let p2 = s.subrange(j + 1, k);
        if !spec_usize_ok(p2) {
            Err(ParseError::InvalidNumber)
        } else if k >= s.len() {
            Err(ParseError::MissingVn)
        } else {
            let l = spec_find(s, '/', k + 1);
            let p3 = s.subrange(k + 1, l);
            if !spec_usize_ok(p3) {
                Err(ParseError::InvalidNumber)
            } else {
                Ok(
                    (
                        uint_text_val(p1) as usize,
                        uint_text_val(p2) as usize,
                        uint_text_val(p3) as usize,
                    ),
                )
            }
        }
    }
}

/// What reading a whole `f` line yields: every blank-separated token
/// must be a well-formed face vertex; they are kept in order.
pub open spec fn spec_parse_f_data(d: Seq<char>) -> Result<Seq<VAIdx>, ParseError>
    decreases d.len(),
{
    if d.len() == 0 {
        Ok(Seq::empty())
    } else if is_space(d[0]) {
        spec_parse_f_data(d.skip(1))
    } else {
        let e0 = spec_find_space(d, 0);
        // the token ends at the first blank; the clamp never bites —
        // a token at a non-blank start is one to `d.len()` characters
        // long — and keeps the recursion visibly well-founded
        let e = if 1 <= e0 && e0 <= d.len() {
            e0
        } else {
            1
        };
        match spec_parse_f_vertex(d.take(e)) {
            Err(er) => Err(er),
            Ok(t) => match spec_parse_f_data(d.skip(e)) {
                Err(er) => Err(er),
                Ok(rest) => Ok(seq![t] + rest),
            },
        }
    }
}

/// Blanks in front of the remaining input never change what parsing
/// the rest of a face line yields.
proof fn lemma_parse_f_skip_spaces(d: Seq<char>, k: int)
    requires
        0 <= k <= d.len(),
        forall|i: int| 0 <= i < k ==> is_space(d[i]),
    ensures
        spec_parse_f_data(d) == spec_parse_f_data(d.skip(k)),
    decreases k,
{
    if k > 0 {
        assert(is_space(d[0]));
        lemma_parse_f_skip_spaces(d.skip(1), k - 1);
        assert(d.skip(1).skip(k - 1) =~= d.skip(k));
    } else {
        assert(d.skip(0) =~= d);
    }
}

/// The kept fields of an OBJ file in simple form, as mathematical
/// values.
pub struct SimpleObjV {
    pub v: Seq<(Seq<char>, Seq<char>, Seq<char>)>,
    pub vn: Seq<(Seq<char>, Seq<char>, Seq<char>)>,
    pub vt: Seq<(Seq<char>, Seq<char>, Seq<char>)>,
    pub g: Seq<char>,
    pub f: Seq<Seq<VAIdx>>,
}

/// Raw OBJ data without material or group structure: positions,
/// normals and texture coordinates as their source tokens, the last
/// group name, and the faces.
pub struct SimpleObj {
    pub v: Vec<(String, String, String)>,
    pub vn: Vec<(String, String, String)>,
    pub vt: Vec<(String, String, String)>,
    pub g: String,
    pub f: Vec<Vec<VAIdx>>,
}

impl View for SimpleObj {
    type V = SimpleObjV;

    open spec fn view(&self) -> SimpleObjV {
        SimpleObjV {
            v: self.v.deep_view(),
            vn: self.vn.deep_view(),
            vt: self.vt.deep_view(),
            g: self.g@,
            f: self.f.deep_view(),
        }
    }
}

impl SimpleObj {
    /// Fans every face of the model out into triangles, keeping the
    /// winding order of the face.
    pub fn trigs(&self) -> (r: Vec<(VAIdx, VAIdx, VAIdx)>)
        requires
            forall|i: int| 0 <= i < self@.f.len() ==> (#[trigger] self@.f[i]).len() >= 1,
        ensures
            r@ == spec_fan_trigs(self@.f),
    {
        let ghost fv = self@.f;
        let mut r: Vec<(VAIdx, VAIdx, VAIdx)> = Vec::new();
        let mut i: usize = 0;
        while i < self.f.len()
            invariant
                fv == self@.f,
                forall|k: int| 0 <= k < fv.len() ==> (#[trigger] fv[k]).len() >= 1,
                i <= fv.len(),
                fv.len() == self.f.len(),
                r@ == spec_fan_trigs(fv.take(i as int)),
            decreases fv.len() - i,
        {
            let face = &self.f[i];
            proof {
                assert(fv[i as int] == face.deep_view());
                assert(face.deep_view() =~= face@);
            }
            let v0 = face[0];
            let ghost at_entry = r@;
            if face.len() >= 3 {
                let m = face.len() - 2;
                let mut k: usize = 0;
                while k < m
                    invariant
                        m == face@.len() - 2,
                        m + 2 <= usize::MAX,
                        face@.len() >= 3,
                        v0 == face@[0],
                        k <= m,
                        r@ == at_entry + spec_face_fan(face@).take(k as int),
                    decreases m - k,
                {
                    let t = (v0, face[k + 1], face[k + 2]);
                    r.push(t);
                    proof {
                        assert(spec_face_fan(face@).take(k as int + 1) =~= spec_face_fan(
                            face@,
                        ).take(k as int).push(t));
                        assert(r@ =~= at_entry + spec_face_fan(face@).take(k as int + 1));
                    }
                    k += 1;
                }
                proof {
                    assert(spec_face_fan(face@).take(m as int) =~= spec_face_fan(face@));
                }
            } else {
                proof {
                    assert(spec_face_fan(face@) =~= Seq::<(VAIdx, VAIdx, VAIdx)>::empty());
                    assert(r@ =~= at_entry + spec_face_fan(face@));
                }
            }
            proof {
                assert(fv.take(i as int + 1).drop_last() =~= fv.take(i as int));
                assert(fv.take(i as int + 1).last() == face@);
                assert(r@ =~= spec_fan_trigs(fv.take(i as int + 1)));
            }
            i += 1;
        }
        proof {
            assert(fv.take(fv.len() as int) =~= fv);
        }
        r
    }
}

/// One `g` group of an OBJ file, as mathematical values.
pub struct GroupV {
    pub name: Seq<char>,
    pub f: Seq<Seq<VAIdx>>,
    pub usemtl: Option<Seq<char>>,
}

/// A named group of faces, with the material chosen for it.
pub struct Group {
    pub name: String,
    pub f: Vec<Vec<VAIdx>>,
    pub usemtl: Option<String>,
}

impl View for Group {
    type V = GroupV;

    open spec fn view(&self) -> GroupV {
        GroupV {
            name: self.name@,
            f: self.f.deep_view(),
            usemtl: match self.usemtl {
                Some(ref s) => Some(s@),
                None => None,
            },
        }
    }
}

/// The group a parse starts in: named `Default`, no faces, no
/// material.
pub open spec fn spec_group_default() -> GroupV {
    GroupV { name: "Default"@, f: Seq::empty(), usemtl: None }
}

/// The triangle fan of one face: corner zero stays, each further
/// edge closes one triangle.
pub open spec fn spec_face_fan(face: Seq<VAIdx>) -> Seq<(VAIdx, VAIdx, VAIdx)> {
    Seq::new(if face.len() >= 3 {
        (face.len() - 2) as nat
    } else {
        0
    }, |i: int| (face[0], face[i + 1], face[i + 2]))
}

/// The triangle fans of a face list, in order.
pub open spec fn spec_fan_trigs(faces: Seq<Seq<VAIdx>>) -> Seq<(VAIdx, VAIdx, VAIdx)>
    decreases faces.len(),
{
    if faces.len() == 0 {
        Seq::empty()
    } else {
        spec_fan_trigs(faces.drop_last()) + spec_face_fan(faces.last())
    }
}

impl Group {
    /// Makes the starting group.
    pub fn new_default() -> (g: Group)
        ensures
            g@ == spec_group_default(),
    {
        let g = Group { name: String::from_str("Default"), f: Vec::new(), usemtl: None };
        proof {
            assert(g@.f =~= spec_group_default().f);
        }
        g
    }

    /// Whether the group still is the starting group, so that it
    /// need not be kept.
    pub fn is_default(&self) -> (r: bool)
        ensures
            r == (self@ == spec_group_default()),
    {
        let name_default = str_eq(self.name.as_str(), "Default");
        let r = name_default && self.f.len() == 0 && self.usemtl.is_none();
        proof {
            if r {
                assert(self@.f =~= spec_group_default().f);
            }
        }
        r
    }

    /// Fans every face of the group out into triangles, keeping the
    /// winding order of the face.
    pub fn trigs(&self) -> (r: Vec<(VAIdx, VAIdx, VAIdx)>)
        requires
            forall|i: int| 0 <= i < self@.f.len() ==> (#[trigger] self@.f[i]).len() >= 1,
        ensures
            r@ == spec_fan_trigs(self@.f),
    {
        let ghost fv = self@.f;
        let mut r: Vec<(VAIdx, VAIdx, VAIdx)> = Vec::new();
        let mut i: usize = 0;
        while i < self.f.len()
            invariant
                fv == self@.f,
                forall|k: int| 0 <= k < fv.len() ==> (#[trigger] fv[k]).len() >= 1,
                i <= fv.len(),
                fv.len() == self.f.len(),
                r@ == spec_fan_trigs(fv.take(i as int)),
            decreases fv.len() - i,
        {
            let face = &self.f[i];
            proof {
                assert(fv[i as int] == face.deep_view());
                assert(face.deep_view() =~= face@);
            }
            let v0 = face[0];
            let ghost at_entry = r@;
            if face.len() >= 3 {
                let m = face.len() - 2;
                let mut k: usize = 0;
                while k < m
                    invariant
                        m == face@.len() - 2,
                        m + 2 <= usize::MAX,
                        face@.len() >= 3,
                        v0 == face@[0],
                        k <= m,
                        r@ == at_entry + spec_face_fan(face@).take(k as int),
                    decreases m - k,
                {
                    let t = (v0, face[k + 1], face[k + 2]);
                    r.push(t);
                    proof {
                        assert(spec_face_fan(face@).take(k as int + 1) =~= spec_face_fan(
                            face@,
                        ).take(k as int).push(t));
                        assert(r@ =~= at_entry + spec_face_fan(face@).take(k as int + 1));
                    }
                    k += 1;
                }
                proof {
                    assert(spec_face_fan(face@).take(m as int) =~= spec_face_fan(face@));
                }
            } else {
                proof {
                    assert(spec_face_fan(face@) =~= Seq::<(VAIdx, VAIdx, VAIdx)>::empty());
                    assert(r@ =~= at_entry + spec_face_fan(face@));
                }
            }
            proof {
                assert(fv.take(i as int + 1).drop_last() =~= fv.take(i as int));
                assert(fv.take(i as int + 1).last() == face@);
                assert(r@ =~= spec_fan_trigs(fv.take(i as int + 1)));
            }
            i += 1;
        }
        proof {
            assert(fv.take(fv.len() as int) =~= fv);
        }
        r
    }
}

/// What reading three blank-separated float tokens yields.  The
/// tokens are kept as text; only their float shape is checked.
pub open spec fn spec_parse_vec3(d: Seq<char>) -> Result<
    (Seq<char>, Seq<char>, Seq<char>),
    ParseError,
> {
    let a1 = spec_skip_spaces(d, 0);
    if a1 >= d.len() {
        Err(ParseError::MissingX)
    } else {
        let e1 = spec_find_space(d, a1);
        let t1 = d.subrange(a1, e1);
        if !is_float_text(t1) {
            Err(ParseError::InvalidNumber)
        } else {
            let a2 = spec_skip_spaces(d, e1);
            if a2 >= d.len() {
                Err(ParseError::MissingY)
            } else {
                let e2 = spec_find_space(d, a2);
                let t2 = d.subrange(a2, e2);
                if !is_float_text(t2) {
                    Err(ParseError::InvalidNumber)
                } else {
                    let a3 = spec_skip_spaces(d, e2);
                    if a3 >= d.len() {
                        Err(ParseError::MissingZ)
                    } else {
                        let e3 = spec_find_space(d, a3);
                        let t3 = d.subrange(a3, e3);
                        if !is_float_text(t3) {
                            Err(ParseError::InvalidNumber)
                        } else {
                            Ok((t1, t2, t3))
                        }
                    }
                }
            }
        }
    }
}

/// What reading two or three float tokens yields: a missing third
/// token stands for zero.
pub open spec fn spec_parse_vec2or3(d: Seq<char>) -> Result<
    (Seq<char>, Seq<char>, Seq<char>),
    ParseError,
> {
    let a1 = spec_skip_spaces(d, 0);
    if a1 >= d.len() {
        Err(ParseError::MissingX)
    } else {
        let e1 = spec_find_space(d, a1);
        let t1 = d.subrange(a1, e1);
        if !is_float_text(t1) {
            Err(ParseError::InvalidNumber)
        } else {
            let a2 = spec_skip_spaces(d, e1);
            if a2 >= d.len() {
                Err(ParseError::MissingY)
            } else {
                let e2 = spec_find_space(d, a2);
                let t2 = d.subrange(a2, e2);
                if !is_float_text(t2) {
                    Err(ParseError::InvalidNumber)
                } else {
                    let a3 = spec_skip_spaces(d, e2);
                    if a3 >= d.len() {
                        Ok((t1, t2, "0.0"@))
                    } else {
                        let e3 = spec_find_space(d, a3);
                        let t3 = d.subrange(a3, e3);
                        if !is_float_text(t3) {
                            Err(ParseError::InvalidNumber)
                        } else {
                            Ok((t1, t2, t3))
                        }
                    }
                }
            }
        }
    }
}

/// One material of an MTL library, as mathematical values.
pub struct MtlV {
    pub name: Seq<char>,
    pub ns: Seq<char>,
    pub ni: Seq<char>,
    pub d: Seq<char>,
    pub tr: Seq<char>,
    pub tf: (Seq<char>, Seq<char>, Seq<char>),
    pub illum: u32,
    pub ka: (Seq<char>, Seq<char>, Seq<char>),
    pub kd: (Seq<char>, Seq<char>, Seq<char>),
    pub ks: (Seq<char>, Seq<char>, Seq<char>),
    pub ke: (Seq<char>, Seq<char>, Seq<char>),
    pub map_ka: Option<Seq<char>>,
    pub map_kd: Option<Seq<char>>,
    pub map_ks: Option<Seq<char>>,
    pub map_bump: Option<Seq<char>>,
}

/// One material: shading scalars and colour triples as their source
/// tokens, and the paths of its texture maps.
pub struct Mtl {
    pub name: String,
    pub ns: String,
    pub ni: String,
    pub d: String,
    pub tr: String,
    pub tf: (String, String, String),
    pub illum: u32,
    pub ka: (String, String, String),
    pub kd: (String, String, String),
    pub ks: (String, String, String),
    pub ke: (String, String, String),
    pub map_ka: Option<String>,
    pub map_kd: Option<String>,
    pub map_ks: Option<String>,
    pub map_bump: Option<String>,
}

/// The view of an optional text.
pub open spec fn spec_opt_view(o: Option<String>) -> Option<Seq<char>> {
    match o {
        Some(s) => Some(s@),
        None => None,
    }
}

impl View for Mtl {
    type V = MtlV;

    open spec fn view(&self) -> MtlV {
        MtlV {
            name: self.name@,
            ns: self.ns@,
            ni: self.ni@,
            d: self.d@,
            tr: self.tr@,
            tf: self.tf.deep_view(),
            illum: self.illum,
            ka: self.ka.deep_view(),
            kd: self.kd.deep_view(),
            ks: self.ks.deep_view(),
            ke: self.ke.deep_view(),
            map_ka: spec_opt_view(self.map_ka),
            map_kd: spec_opt_view(self.map_kd),
            map_ks: spec_opt_view(self.map_ks),
            map_bump: spec_opt_view(self.map_bump),
        }
    }
}

/// The material a parse starts with: named `Default`, zero in every
/// number, no maps.
pub open spec fn spec_mtl_default() -> MtlV {
    MtlV {
        name: "Default"@,
        ns: "0"@,
        ni: "0"@,
        d: "0"@,
        tr: "0"@,
        tf: ("0"@, "0"@, "0"@),
        illum: 0,
        ka: ("0"@, "0"@, "0"@),
        kd: ("0"@, "0"@, "0"@),
        ks: ("0"@, "0"@, "0"@),
        ke: ("0"@, "0"@, "0"@),
        map_ka: None,
        map_kd: None,
        map_ks: None,
        map_bump: None,
    }
}

impl Mtl {
    /// Makes the starting material.
    pub fn new_default() -> (m: Mtl)
        ensures
            m@ == spec_mtl_default(),
    {
        Mtl {
            name: String::from_str("Default"),
            ns: String::from_str("0"),
            ni: String::from_str("0"),
            d: String::from_str("0"),
            tr: String::from_str("0"),
            tf: (String::from_str("0"), String::from_str("0"), String::from_str("0")),
            illum: 0,
            ka: (String::from_str("0"), String::from_str("0"), String::from_str("0")),
            kd: (String::from_str("0"), String::from_str("0"), String::from_str("0")),
            ks: (String::from_str("0"), String::from_str("0"), String::from_str("0")),
            ke: (String::from_str("0"), String::from_str("0"), String::from_str("0")),
            map_ka: None,
            map_kd: None,
            map_ks: None,
            map_bump: None,
        }
    }

    /// Whether the material still is the starting material, so that
    /// it need not be kept.
    pub fn is_default(&self) -> (r: bool)
        ensures
            r == (self@ == spec_mtl_default()),
    {
        str_eq(self.name.as_str(), "Default") && str_eq(self.ns.as_str(), "0") && str_eq(
            self.ni.as_str(),
            "0",
        ) && str_eq(self.d.as_str(), "0") && str_eq(self.tr.as_str(), "0") && str_eq(
            self.tf.0.as_str(),
            "0",
        ) && str_eq(self.tf.1.as_str(), "0") && str_eq(self.tf.2.as_str(), "0") && self.illum == 0
            && str_eq(self.ka.0.as_str(), "0") && str_eq(self.ka.1.as_str(), "0") && str_eq(
            self.ka.2.as_str(),
            "0",
        ) && str_eq(self.kd.0.as_str(), "0") && str_eq(self.kd.1.as_str(), "0") && str_eq(
            self.kd.2.as_str(),
            "0",
        ) && str_eq(self.ks.0.as_str(), "0") && str_eq(self.ks.1.as_str(), "0") && str_eq(
            self.ks.2.as_str(),
            "0",
        ) && str_eq(self.ke.0.as_str(), "0") && str_eq(self.ke.1.as_str(), "0") && str_eq(
            self.ke.2.as_str(),
            "0",
        ) && self.map_ka.is_none() && self.map_kd.is_none() && self.map_ks.is_none()
            && self.map_bump.is_none()
    }
}

/// A material library: the materials of one MTL file, in file
/// order.
pub struct MtlLib {
    pub mtls: Vec<Mtl>,
}

impl View for MtlLib {
    type V = Seq<MtlV>;

    open spec fn view(&self) -> Seq<MtlV> {
        Seq::new(self.mtls@.len(), |i: int| self.mtls@[i]@)
    }
}

impl MtlLib {
    /// Makes an empty library.
    pub fn new_empty() -> (l: MtlLib)
        ensures
            l@ == Seq::<MtlV>::empty(),
    {
        let l = MtlLib { mtls: Vec::new() };
        proof {
            assert(l@ =~= Seq::<MtlV>::empty());
        }
        l
    }
}

/// A full OBJ model, as mathematical values.
pub struct ObjV {
    pub v: Seq<(Seq<char>, Seq<char>, Seq<char>)>,
    pub vn: Seq<(Seq<char>, Seq<char>, Seq<char>)>,
    pub vt: Seq<(Seq<char>, Seq<char>, Seq<char>)>,
    pub mtl_lib: Seq<MtlV>,
    pub groups: Seq<GroupV>,
}

/// A full OBJ model: the vertex tables, the material library, and
/// the face groups.
pub struct Obj {
    pub v: Vec<(String, String, String)>,
    pub vn: Vec<(String, String, String)>,
    pub vt: Vec<(String, String, String)>,
    pub mtl_lib: MtlLib,
    pub groups: Vec<Group>,
}

impl View for Obj {
    type V = ObjV;

    open spec fn view(&self) -> ObjV {
        ObjV {
            v: self.v.deep_view(),
            vn: self.vn.deep_view(),
            vt: self.vt.deep_view(),
            mtl_lib: self.mtl_lib@,
            groups: Seq::new(self.groups@.len(), |i: int| self.groups@[i]@),
        }
    }
}

/// Where a file named inside a model file lives: next to the model,
/// unless the name is absolute.
pub open spec fn spec_path_join(base: Seq<char>, name: Seq<char>) -> Seq<char> {
    if name.len() > 0 && name[0] == '/' {
        name
    } else if base.len() == 0 {
        name
    } else if base.last() == '/' {
        base + name
    } else {
        base + "/"@ + name
    }
}

/// Joins a directory and a name into one path.
pub fn path_join(base: &str, name: &str) -> (r: String)
    ensures
        r@ == spec_path_join(base@, name@),
{
    let bn = base.unicode_len();
    let nn = name.unicode_len();
    if nn > 0 && name.get_char(0) == '/' {
        return name.to_owned();
    }
    if bn == 0 {
        return name.to_owned();
    }
    let mut r = base.to_owned();
    if !(base.get_char(bn - 1) == '/') {
        r.append("/");
    }
    r.append(name);
    r
}

/// The position of the last `/` in a path; `-1` when there is none.
pub open spec fn spec_rfind_slash(s: Seq<char>) -> int
    decreases s.len(),
{
    if s.len() == 0 {
        -1
    } else if s.last() == '/' {
        s.len() - 1
    } else {
        spec_rfind_slash(s.drop_last())
    }
}

/// The directory part of a path: everything before the last `/`,
/// the root for a path directly under it, the empty text for a bare
/// file name.
pub open spec fn spec_dir_of(s: Seq<char>) -> Seq<char> {
    let k = spec_rfind_slash(s);
    if k < 0 {
        Seq::empty()
    } else if k == 0 {
        "/"@
    } else {
        s.take(k)
    }
}

/// The empty simple model a parse starts from.
pub open spec fn spec_simple_init() -> SimpleObjV {
    SimpleObjV {
        v: Seq::empty(),
        vn: Seq::empty(),
        vt: Seq::empty(),
        g: Seq::empty(),
        f: Seq::empty(),
    }
}

/// What one line does to a simple model.  Blank lines and `#`
/// comments change nothing; a line without a blank after its keyword
/// is refused; unknown keywords are ignored.
pub open spec fn spec_simple_line(st: SimpleObjV, line: Seq<char>) -> Result<
    SimpleObjV,
    ParseError,
> {
    let t = spec_trim(line);
    if t.len() == 0 || t[0] == '#' {
        Ok(st)
    } else {
        let sp = spec_find(t, ' ', 0);
        if sp >= t.len() {
            Err(ParseError::MissingType)
        } else {
            let ty = t.take(sp);
            let data = spec_trim(t.skip(sp + 1));
            if ty == "v"@ {
                match spec_parse_vec3(data) {
                    Ok(c) => Ok(SimpleObjV { v: st.v.push(c), ..st }),
                    Err(e) => Err(e),
                }
            } else if ty == "vn"@ {
                match spec_parse_vec3(data) {
                    Ok(c) => Ok(SimpleObjV { vn: st.vn.push(c), ..st }),
                    Err(e) => Err(e),
                }
            } else if ty == "vt"@ {
                match spec_parse_vec2or3(data) {
                    Ok(c) => Ok(SimpleObjV { vt: st.vt.push(c), ..st }),
                    Err(e) => Err(e),
                }
            } else if ty == "g"@ {
                Ok(SimpleObjV { g: data, ..st })
            } else if ty == "f"@ {
                match spec_parse_f_data(data) {
                    Ok(c) => Ok(SimpleObjV { f: st.f.push(c), ..st }),
                    Err(e) => Err(e),
                }
            } else {
                Ok(st)
            }
        }
    }
}

/// Folds `spec_simple_line` over the lines of a file, stopping at
/// the first refusal.
pub open spec fn spec_simple_lines(st: SimpleObjV, lines: Seq<Seq<char>>) -> Result<
    SimpleObjV,
    ParseError,
>
    decreases lines.len(),
{
    if lines.len() == 0 {
        Ok(st)
    } else {
        match spec_simple_line(st, lines[0]) {
            Err(e) => Err(e),
            Ok(st2) => spec_simple_lines(st2, lines.skip(1)),
        }
    }
}

/// The running state of a full OBJ parse, as mathematical values:
/// the vertex tables, the closed groups, the group still being
/// filled, and the material libraries named so far.
pub struct ObjParseV {
    pub v: Seq<(Seq<char>, Seq<char>, Seq<char>)>,
    pub vn: Seq<(Seq<char>, Seq<char>, Seq<char>)>,
    pub vt: Seq<(Seq<char>, Seq<char>, Seq<char>)>,
    pub groups: Seq<GroupV>,
    pub current: GroupV,
    pub mtl_paths: Seq<Seq<char>>,
}

/// The state a full OBJ parse starts from.
pub open spec fn spec_obj_init() -> ObjParseV {
    ObjParseV {
        v: Seq::empty(),
        vn: Seq::empty(),
        vt: Seq::empty(),
        groups: Seq::empty(),
        current: spec_group_default(),
        mtl_paths: Seq::empty(),
    }
}

/// What one line does to a full OBJ parse.  A `g` line closes the
/// group being filled — unless it is still untouched — and starts a
/// fresh one; `usemtl` and `f` write into the group being filled;
/// `mtllib` records the named library, resolved against `base`.
pub open spec fn spec_obj_line(base: Seq<char>, st: ObjParseV, line: Seq<char>) -> Result<
    ObjParseV,
    ParseError,
> {
    let t = spec_trim(line);
    if t.len() == 0 || t[0] == '#' {
        Ok(st)
    } else {
        let sp = spec_find(t, ' ', 0);
        if sp >= t.len() {
            Err(ParseError::MissingType)
        } else {
            let ty = t.take(sp);
            let data = spec_trim(t.skip(sp + 1));
            if ty == "mtllib"@ {
                Ok(ObjParseV { mtl_paths: st.mtl_paths.push(spec_path_join(base, data)), ..st })
            } else if ty == "v"@ {
                match spec_parse_vec3(data) {
                    Ok(c) => Ok(ObjParseV { v: st.v.push(c), ..st }),
                    Err(e) => Err(e),
                }
            } else if ty == "vn"@ {
                match spec_parse_vec3(data) {
                    Ok(c) => Ok(ObjParseV { vn: st.vn.push(c), ..st }),
                    Err(e) => Err(e),
                }
            } else if ty == "vt"@ {
                match spec_parse_vec2or3(data) {
                    Ok(c) => Ok(ObjParseV { vt: st.vt.push(c), ..st }),
                    Err(e) => Err(e),
                }
            } else if ty == "g"@ {
                let groups2 = if st.current == spec_group_default() {
                    st.groups
                } else {
                    st.groups.push(st.current)
                };
                Ok(
                    ObjParseV {
                        groups: groups2,
                        current: GroupV { name: data, f: Seq::empty(), usemtl: None },
                        ..st
                    },
                )
            } else if ty == "usemtl"@ {
                Ok(ObjParseV { current: GroupV { usemtl: Some(data), ..st.current }, ..st })
            } else if ty == "f"@ {
                match spec_parse_f_data(data) {
                    Ok(c) => Ok(
                        ObjParseV { current: GroupV { f: st.current.f.push(c), ..st.current }, ..st },
                    ),
                    Err(e) => Err(e),
                }
            } else {
                Ok(st)
            }
        }
    }
}

/// Folds `spec_obj_line` over the lines of a file, stopping at the
/// first refusal.
pub open spec fn spec_obj_lines(base: Seq<char>, st: ObjParseV, lines: Seq<Seq<char>>) -> Result<
    ObjParseV,
    ParseError,
>
    decreases lines.len(),
{
    if lines.len() == 0 {
        Ok(st)
    } else {
        match spec_obj_line(base, st, lines[0]) {
            Err(e) => Err(e),
            Ok(st2) => spec_obj_lines(base, st2, lines.skip(1)),
        }
    }
}

/// The groups of the finished model: the closed ones, and the last
/// open one unless it is still untouched.
pub open spec fn spec_obj_final_groups(st: ObjParseV) -> Seq<GroupV> {
    if st.current == spec_group_default() {
        st.groups
    } else {
        st.groups.push(st.current)
    }
}

/// The views of a list of groups, in order.
pub open spec fn spec_groups_view(groups: Seq<Group>) -> Seq<GroupV> {
    Seq::new(groups.len(), |i: int| groups[i]@)
}

/// The running state of an MTL parse, as mathematical values: the
/// closed materials, the material still being filled, and the
/// texture images named so far.
pub struct MtlParseV {
    pub mtls: Seq<MtlV>,
    pub current: MtlV,
    pub img_paths: Seq<Seq<char>>,
}

/// The state an MTL parse starts from.
pub open spec fn spec_mtl_init() -> MtlParseV {
    MtlParseV { mtls: Seq::empty(), current: spec_mtl_default(), img_paths: Seq::empty() }
}

/// What one line does to an MTL parse.  A `newmtl` line closes the
/// material being filled — unless it is still untouched — and starts
/// a fresh one under the given name; the other keywords write into
/// the material being filled.  A `map_*` keyword records the named
/// image, resolved against `base`.
pub open spec fn spec_mtl_line(base: Seq<char>, st: MtlParseV, line: Seq<char>) -> Result<
    MtlParseV,
    ParseError,
> {
    let t = spec_trim(line);
    if t.len() == 0 || t[0] == '#' {
        Ok(st)
    } else {
        let sp = spec_find(t, ' ', 0);
        if sp >= t.len() {
            Err(ParseError::MissingType)
        } else {
            let ty = t.take(sp);
            let data = spec_trim(t.skip(sp + 1));
            if ty == "newmtl"@ {
                let mtls2 = if st.current == spec_mtl_default() {
                    st.mtls
                } else {
                    st.mtls.push(st.current)
                };
                Ok(
                    MtlParseV {
                        mtls: mtls2,
                        current: MtlV { name: data, ..spec_mtl_default() },
                        ..st
                    },
                )
            } else if ty == "Ns"@ {
                if is_float_text(data) {
                    Ok(MtlParseV { current: MtlV { ns: data, ..st.current }, ..st })
                } else {
                    Err(ParseError::InvalidNumber)
                }
            } else if ty == "Ni"@ {
                if is_float_text(data) {
                    Ok(MtlParseV { current: MtlV { ni: data, ..st.current }, ..st })
                } else {
                    Err(ParseError::InvalidNumber)
                }
            } else if ty == "d"@ {
                if is_float_text(data) {
                    Ok(MtlParseV { current: MtlV { d: data, ..st.current }, ..st })
                } else {
                    Err(ParseError::InvalidNumber)
                }
            } else if ty == "Tr"@ {
                if is_float_text(data) {
                    Ok(MtlParseV { current: MtlV { tr: data, ..st.current }, ..st })
                } else {
                    Err(ParseError::InvalidNumber)
                }
            } else if ty == "Tf"@ {
                match spec_parse_vec3(data) {
                    Ok(c) => Ok(MtlParseV { current: MtlV { tf: c, ..st.current }, ..st }),
                    Err(e) => Err(e),
                }
            } else if ty == "illum"@ {
                if is_uint_text(data) && uint_text_val(data) <= u32::MAX {
                    Ok(
                        MtlParseV {
                            current: MtlV { illum: uint_text_val(data) as u32, ..st.current },
                            ..st
                        },
                    )
                } else {
                    Err(ParseError::InvalidNumber)
                }
            } else if ty == "Ka"@ {
                match spec_parse_vec3(data) {
                    Ok(c) => Ok(MtlParseV { current: MtlV { ka: c, ..st.current }, ..st }),
                    Err(e) => Err(e),
                }
            } else if ty == "Kd"@ {
                match spec_parse_vec3(data) {
                    Ok(c) => Ok(MtlParseV { current: MtlV { kd: c, ..st.current }, ..st }),
                    Err(e) => Err(e),
                }
            } else if ty == "Ks"@ {
                match spec_parse_vec3(data) {
                    Ok(c) => Ok(MtlParseV { current: MtlV { ks: c, ..st.current }, ..st }),
                    Err(e) => Err(e),
                }
            } else if ty == "Ke"@ {
                match spec_parse_vec3(data) {
                    Ok(c) => Ok(MtlParseV { current: MtlV { ke: c, ..st.current }, ..st }),
                    Err(e) => Err(e),
                }
            } else if ty == "map_Ka"@ {
                let p = spec_path_join(base, data);
                Ok(
                    MtlParseV {
                        current: MtlV { map_ka: Some(p), ..st.current },
                        img_paths: st.img_paths.push(p),
                        ..st
                    },
                )
            } else if ty == "map_Kd"@ {
                let p = spec_path_join(base, data);
                Ok(
                    MtlParseV {
                        current: MtlV { map_kd: Some(p), ..st.current },
                        img_paths: st.img_paths.push(p),
                        ..st
                    },
                )
            } else if ty == "map_Ks"@ {
                let p = spec_path_join(base, data);
                Ok(
                    MtlParseV {
                        current: MtlV { map_ks: Some(p), ..st.current },
                        img_paths: st.img_paths.push(p),
                        ..st
                    },
                )
            } else if ty == "map_bump"@ {
                let p = spec_path_join(base, data);
                Ok(
                    MtlParseV {
                        current: MtlV { map_bump: Some(p), ..st.current },
                        img_paths: st.img_paths.push(p),
                        ..st
                    },
                )
            } else {
                Ok(st)
            }
        }
    }
}

/// Folds `spec_mtl_line` over the lines of a file, stopping at the
/// first refusal.
pub open spec fn spec_mtl_lines(base: Seq<char>, st: MtlParseV, lines: Seq<Seq<char>>) -> Result<
    MtlParseV,
    ParseError,
>
    decreases lines.len(),
{
    if lines.len() == 0 {
        Ok(st)
    } else {
        match spec_mtl_line(base, st, lines[0]) {
            Err(e) => Err(e),
            Ok(st2) => spec_mtl_lines(base, st2, lines.skip(1)),
        }
    }
}

/// The materials of the finished library: the closed ones, and the
/// last open one unless it is still untouched.
pub open spec fn spec_mtl_final(st: MtlParseV) -> Seq<MtlV> {
    if st.current == spec_mtl_default() {
        st.mtls
    } else {
        st.mtls.push(st.current)
    }
}

/// The views of a list of materials, in order.
pub open spec fn spec_mtls_view(mtls: Seq<Mtl>) -> Seq<MtlV> {
    Seq::new(mtls.len(), |i: int| mtls[i]@)
}

/// Cuts one line into its keyword and its data, both trimmed.
/// Blank lines and `#` comments yield nothing; a line whose trimmed
/// text has no blank is refused.
fn split_line(line: &str) -> (r: Result<Option<(&str, &str)>, ParseError>)
    ensures
        ({
            let t = spec_trim(line@);
            let sp = spec_find(t, ' ', 0);
            match r {
                Ok(None) => t.len() == 0 || t[0] == '#',
                Ok(Some((ty, data))) => t.len() > 0 && t[0] != '#' && sp < t.len() && ty@
                    == t.take(sp) && data@ == spec_trim(t.skip(sp + 1)),
                Err(e) => t.len() > 0 && t[0] != '#' && sp >= t.len() && e
                    == ParseError::MissingType,
            }
        }),
{
    let t = trim_str(line);
    let n = t.unicode_len();
    if n == 0 {
        return Ok(None);
    }
    if t.get_char(0) == '#' {
        return Ok(None);
    }
    let sp = find_char(t, ' ', 0);
    proof {
        lemma_find_props(t@, ' ', 0);
    }
    if sp >= n {
        return Err(ParseError::MissingType);
    }
    let ty = t.substring_char(0, sp);
    let raw = t.substring_char(sp + 1, n);
    let data = trim_str(raw);
    proof {
        assert(ty@ =~= t@.take(sp as int));
        assert(raw@ =~= t@.skip(sp as int + 1));
    }
    Ok(Some((ty, data)))
}

/// Reads lines of the OBJ and MTL formats.  The loader remembers the
/// directory of the model file, so that companion files named inside
/// it resolve next to it.
pub struct ObjLoader {
    /// The directory part of the model file's path.
    pub base: String,
}

impl ObjLoader {
    /// Makes a loader for the model file at the given path;
    /// companion files named inside it will resolve to the same
    /// directory.  The path must name a file, so it is neither empty
    /// nor the root alone.
    pub fn new(obj_path: &str) -> (l: ObjLoader)
        requires
            obj_path@.len() > 0,
            !(obj_path@.len() == 1 && obj_path@[0] == '/'),
        ensures
            l.base@ == spec_dir_of(obj_path@),
    {
        let n = obj_path.unicode_len();
        proof {
            assert(obj_path@.take(n as int) =~= obj_path@);
        }
        let mut e = n;
        while e > 0
            invariant
                e <= n,
                n == obj_path@.len(),
                spec_rfind_slash(obj_path@) == spec_rfind_slash(obj_path@.take(e as int)),
            ensures
                e <= n,
                n == obj_path@.len(),
                spec_rfind_slash(obj_path@) == e as int - 1,
            decreases e,
        {
            let c = obj_path.get_char(e - 1);
            proof {
                assert(obj_path@.take(e as int).last() == c);
                assert(obj_path@.take(e as int).drop_last() =~= obj_path@.take(e as int - 1));
            }
            if c == '/' {
                break ;
            }
            e -= 1;
        }
        proof {
            if e == 0 {
                assert(obj_path@.take(0) =~= Seq::<char>::empty());
            }
        }
        if e == 0 {
            let l = ObjLoader { base: String::new() };
            proof {
                assert(l.base@ =~= spec_dir_of(obj_path@));
            }
            l
        } else if e == 1 {
            ObjLoader { base: String::from_str("/") }
        } else {
            let base = obj_path.substring_char(0, e - 1);
            proof {
                assert(base@ =~= obj_path@.take(e as int - 1));
            }
            ObjLoader { base: base.to_owned() }
        }
    }

    /// Picks one float token starting at `from`; `miss` is returned
    /// when the data ends first.  Returns the token's text and where
    /// it ended.
    fn take_float_token(data: &str, from: usize, miss: ParseError) -> (r: Result<
        (String, usize),
        ParseError,
    >)
        requires
            from <= data@.len(),
        ensures
            ({
                let a = spec_skip_spaces(data@, from as int);
                let e = spec_find_space(data@, a);
                let t = data@.subrange(a, e);
                match r {
                    Ok((tok, end)) => a < data@.len() && is_float_text(t) && tok@ == t && end == e
                        && a < e <= data@.len(),
                    Err(er) => (a >= data@.len() && er == miss) || (a < data@.len()
                        && !is_float_text(t) && er == ParseError::InvalidNumber),
                }
            }),
    {
        let n = data.unicode_len();
        let a = skip_spaces(data, from);
        proof {
            lemma_skip_spaces_props(data@, from as int);
        }
        if a >= n {
            return Err(miss);
        }
        let e = find_space(data, a);
        proof {
            lemma_find_space_props(data@, a as int);
            assert(!is_space(data@[a as int]));
            assert(e > a);
        }
        let tok = data.substring_char(a, e);
        if !check_float(tok) {
            return Err(ParseError::InvalidNumber);
        }
        Ok((tok.to_owned(), e))
    }

    /// Reads three float coordinates, as their tokens.
    pub fn parse_vec3f(&self, line: &str) -> (r: Result<(String, String, String), ParseError>)
        ensures
            match (r, spec_parse_vec3(line@)) {
                (Ok(t), Ok(s)) => t.0@ == s.0 && t.1@ == s.1 && t.2@ == s.2,
                (Err(e1), Err(e2)) => e1 == e2,
                _ => false,
            },
    {
        let (x, e1) = match Self::take_float_token(line, 0, ParseError::MissingX) {
            Ok(p) => p,
            Err(er) => {
                return Err(er);
            },
        };
        let (y, e2) = match Self::take_float_token(line, e1, ParseError::MissingY) {
            Ok(p) => p,
            Err(er) => {
                return Err(er);
            },
        };
        let (z, _e3) = match Self::take_float_token(line, e2, ParseError::MissingZ) {
            Ok(p) => p,
            Err(er) => {
                return Err(er);
            },
        };
        Ok((x, y, z))
    }

    /// Reads a position line; a `v` line carries three coordinates.
    pub fn parse_v(&self, line: &str) -> (r: Result<(String, String, String), ParseError>)
        ensures
            match (r, spec_parse_vec3(line@)) {
                (Ok(t), Ok(s)) => t.0@ == s.0 && t.1@ == s.1 && t.2@ == s.2,
                (Err(e1), Err(e2)) => e1 == e2,
                _ => false,
            },
    {
        self.parse_vec3f(line)
    }

    /// Reads a texture-coordinate line; the third coordinate may be
    /// left out and is then zero.
    pub fn parse_vec2f_or_vec3f(&self, line: &str) -> (r: Result<
        (String, String, String),
        ParseError,
    >)
        ensures
            match (r, spec_parse_vec2or3(line@)) {
                (Ok(t), Ok(s)) => t.0@ == s.0 && t.1@ == s.1 && t.2@ == s.2,
                (Err(e1), Err(e2)) => e1 == e2,
                _ => false,
            },
    {
        let (x, e1) = match Self::take_float_token(line, 0, ParseError::MissingX) {
            Ok(p) => p,
            Err(er) => {
                return Err(er);
            },
        };
        let (y, e2) = match Self::take_float_token(line, e1, ParseError::MissingY) {
            Ok(p) => p,
            Err(er) => {
                return Err(er);
            },
        };
        let n = line.unicode_len();
        let a3 = skip_spaces(line, e2);
        if a3 >= n {
            let z = String::from_str("0.0");
            return Ok((x, y, z));
        }
        let (z, _e3) = match Self::take_float_token(line, e2, ParseError::MissingZ) {
            Ok(p) => p,
            Err(er) => {
                return Err(er);
            },
        };
        Ok((x, y, z))
    }

    /// Takes a text field as it stands.
    pub fn parse_str(&self, line: &str) -> (r: Result<String, ParseError>)
        ensures
            match r {
                Ok(o) => o@ == line@,
                Err(_) => false,
            },
    {
        Ok(line.to_owned())
    }

    /// Reads one `v/vt/vn` corner of a face.
    pub fn parse_f_vertex(&self, vert: &str) -> (r: Result<VAIdx, ParseError>)
        ensures
            r == spec_parse_f_vertex(vert@),
    {
        let n = vert.unicode_len();
        let j = find_char(vert, '/', 0);
        proof {
            lemma_find_props(vert@, '/', 0);
        }
        let p1 = vert.substring_char(0, j);
        proof {
            assert(p1@ =~= vert@.take(j as int));
        }
        let v = match parse_usize(p1) {
            Some(v) => v,
            None => {
                return Err(ParseError::InvalidNumber);
            },
        };
        if j >= n {
            return Err(ParseError::MissingVt);
        }
        let k = find_char(vert, '/', j + 1);
        proof {
            lemma_find_props(vert@, '/', j as int + 1);
        }
        let p2 = vert.substring_char(j + 1, k);
        let vt = match parse_usize(p2) {
            Some(v) => v,
            None => {
                return Err(ParseError::InvalidNumber);
            },
        };
        if k >= n {
            return Err(ParseError::MissingVn);
        }
        let l = find_char(vert, '/', k + 1);
        proof {
            lemma_find_props(vert@, '/', k as int + 1);
        }
        let p3 = vert.substring_char(k + 1, l);
        let vn = match parse_usize(p3) {
            Some(v) => v,
            None => {
                return Err(ParseError::InvalidNumber);
            },
        };
        Ok((v, vt, vn))
    }

    /// Reads a whole OBJ file, already split into lines, into its
    /// simple form: every vertex table as tokens, the last group
    /// name, and all faces in file order.
    #[verifier::rlimit(100)]
    pub fn parse_simple(&self, lines: &Vec<String>) -> (r: Result<SimpleObj, ParseError>)
        ensures
            match (r, spec_simple_lines(spec_simple_init(), lines.deep_view())) {
                (Ok(o), Ok(st)) => o@ == st,
                (Err(e1), Err(e2)) => e1 == e2,
                _ => false,
            },
    {
        let ghost ld = lines.deep_view();
        let mut obj = SimpleObj {
            v: Vec::new(),
            vn: Vec::new(),
            vt: Vec::new(),
            g: String::new(),
            f: Vec::new(),
        };
        proof {
            assert(obj@.v =~= spec_simple_init().v);
            assert(obj@.vn =~= spec_simple_init().vn);
            assert(obj@.vt =~= spec_simple_init().vt);
            assert(obj@.f =~= spec_simple_init().f);
            assert(obj@ == spec_simple_init());
            assert(ld.skip(0) =~= ld);
        }
        let mut i: usize = 0;
        while i < lines.len()
            invariant
                i <= lines@.len(),
                ld == lines.deep_view(),
                ld.len() == lines@.len(),
                spec_simple_lines(obj@, ld.skip(i as int)) == spec_simple_lines(
                    spec_simple_init(),
                    ld,
                ),
            decreases lines@.len() - i,
        {
            let ghost st0 = obj@;
            let line = &lines[i];
            proof {
                assert(ld[i as int] == lines@[i as int]@);
                assert(ld.skip(i as int)[0] == ld[i as int]);
                assert(ld.skip(i as int).skip(1) =~= ld.skip(i as int + 1));
            }
            match split_line(line.as_str()) {
                Err(e) => {
                    proof {
                        assert(spec_simple_line(st0, ld[i as int]) == Err::<SimpleObjV, ParseError>(
                            e,
                        ));
                    }
                    return Err(e);
                },
                Ok(None) => {
                    proof {
                        assert(spec_simple_line(st0, ld[i as int]) == Ok::<SimpleObjV, ParseError>(
                            st0,
                        ));
                    }
                },
                Ok(Some((ty, data))) => {
                    if str_eq(ty, "v") {
                        match self.parse_v(data) {
                            Err(e) => {
                                return Err(e);
                            },
                            Ok(c) => {
                                let ghost cv = (c.0@, c.1@, c.2@);
                                obj.v.push(c);
                                proof {
                                    assert(obj@.v =~= st0.v.push(cv));
                                    assert(spec_simple_line(st0, ld[i as int]) == Ok::<
                                        SimpleObjV,
                                        ParseError,
                                    >(obj@));
                                }
                            },
                        }
                    } else if str_eq(ty, "vn") {
                        match self.parse_vec3f(data) {
                            Err(e) => {
                                return Err(e);
                            },
                            Ok(c) => {
                                let ghost cv = (c.0@, c.1@, c.2@);
                                obj.vn.push(c);
                                proof {
                                    assert(obj@.vn =~= st0.vn.push(cv));
                                    assert(spec_simple_line(st0, ld[i as int]) == Ok::<
                                        SimpleObjV,
                                        ParseError,
                                    >(obj@));
                                }
                            },
                        }
                    } else if str_eq(ty, "vt") {
                        match self.parse_vec2f_or_vec3f(data) {
                            Err(e) => {
                                return Err(e);
                            },
                            Ok(c) => {
                                let ghost cv = (c.0@, c.1@, c.2@);
                                obj.vt.push(c);
                                proof {
                                    assert(obj@.vt =~= st0.vt.push(cv));
                                    assert(spec_simple_line(st0, ld[i as int]) == Ok::<
                                        SimpleObjV,
                                        ParseError,
                                    >(obj@));
                                }
                            },
                        }
                    } else if str_eq(ty, "g") {
                        match self.parse_str(data) {
                            Err(e) => {
                                return Err(e);
                            },
                            Ok(name) => {
                                obj.g = name;
                                proof {
                                    assert(spec_simple_line(st0, ld[i as int]) == Ok::<
                                        SimpleObjV,
                                        ParseError,
                                    >(obj@));
                                }
                            },
                        }
                    } else if str_eq(ty, "f") {
                        match self.parse_f(data) {
                            Err(e) => {
                                return Err(e);
                            },
                            Ok(face) => {
                                let ghost facev = face@;
                                proof {
                                    assert(face.deep_view() =~= facev);
                                }
                                obj.f.push(face);
                                proof {
                                    assert(obj@.f =~= st0.f.push(facev));
                                    assert(spec_simple_line(st0, ld[i as int]) == Ok::<
                                        SimpleObjV,
                                        ParseError,
                                    >(obj@));
                                }
                            },
                        }
                    } else {
                        proof {
                            assert(spec_simple_line(st0, ld[i as int]) == Ok::<
                                SimpleObjV,
                                ParseError,
                            >(st0));
                        }
                    }
                },
            }
            i += 1;
        }
        proof {
            assert(ld.skip(ld.len() as int) =~= Seq::<Seq<char>>::empty());
        }
        Ok(obj)
    }

    /// Reads a whole OBJ file, already split into lines, into a
    /// model with its face groups.  The material libraries the file
    /// names are not read here — reading them takes the file system —
    /// but are returned as resolved paths, in file order: the caller
    /// reads each in turn with `parse_mtl_lib`, and the last one
    /// becomes the model's library.  The returned model starts with
    /// an empty library.
    #[verifier::rlimit(100)]
    pub fn parse(&self, lines: &Vec<String>) -> (r: Result<(Obj, Vec<String>), ParseError>)
        ensures
            match (r, spec_obj_lines(self.base@, spec_obj_init(), lines.deep_view())) {
                (Ok(p), Ok(st)) => p.0@.v == st.v && p.0@.vn == st.vn && p.0@.vt == st.vt && p.0@.groups
                    == spec_obj_final_groups(st) && p.0@.mtl_lib == Seq::<MtlV>::empty()
                    && p.1.deep_view() == st.mtl_paths,
                (Err(e1), Err(e2)) => e1 == e2,
                _ => false,
            },
    {
        let ghost ld = lines.deep_view();
        let ghost base = self.base@;
        let mut v: Vec<(String, String, String)> = Vec::new();
        let mut vn: Vec<(String, String, String)> = Vec::new();
        let mut vt: Vec<(String, String, String)> = Vec::new();
        let mut groups: Vec<Group> = Vec::new();
        let mut cur: Group = Group::new_default();
        let mut paths: Vec<String> = Vec::new();
        proof {
            let st = ObjParseV {
                v: v.deep_view(),
                vn: vn.deep_view(),
                vt: vt.deep_view(),
                groups: spec_groups_view(groups@),
                current: cur@,
                mtl_paths: paths.deep_view(),
            };
            assert(st.v =~= spec_obj_init().v);
            assert(st.vn =~= spec_obj_init().vn);
            assert(st.vt =~= spec_obj_init().vt);
            assert(st.groups =~= spec_obj_init().groups);
            assert(st.mtl_paths =~= spec_obj_init().mtl_paths);
            assert(st == spec_obj_init());
            assert(ld.skip(0) =~= ld);
        }
        let mut i: usize = 0;
        while i < lines.len()
            invariant
                i <= lines@.len(),
                ld == lines.deep_view(),
                ld.len() == lines@.len(),
                base == self.base@,
                spec_obj_lines(
                    base,
                    ObjParseV {
                        v: v.deep_view(),
                        vn: vn.deep_view(),
                        vt: vt.deep_view(),
                        groups: spec_groups_view(groups@),
                        current: cur@,
                        mtl_paths: paths.deep_view(),
                    },
                    ld.skip(i as int),
                ) == spec_obj_lines(base, spec_obj_init(), ld),
            decreases lines@.len() - i,
        {
            let ghost st0 = ObjParseV {
                v: v.deep_view(),
                vn: vn.deep_view(),
                vt: vt.deep_view(),
                groups: spec_groups_view(groups@),
                current: cur@,
                mtl_paths: paths.deep_view(),
            };
            let line = &lines[i];
            proof {
                assert(ld[i as int] == lines@[i as int]@);
                assert(ld.skip(i as int)[0] == ld[i as int]);
                assert(ld.skip(i as int).skip(1) =~= ld.skip(i as int + 1));
            }
            match split_line(line.as_str()) {
                Err(e) => {
                    proof {
                        assert(spec_obj_line(base, st0, ld[i as int]) == Err::<
                            ObjParseV,
                            ParseError,
                        >(e));
                    }
                    return Err(e);
                },
                Ok(None) => {
                    proof {
                        assert(spec_obj_line(base, st0, ld[i as int]) == Ok::<
                            ObjParseV,
                            ParseError,
                        >(st0));
                    }
                },
                Ok(Some((ty, data))) => {
                    if str_eq(ty, "mtllib") {
                        let p = path_join(self.base.as_str(), data);
                        let ghost pv = p@;
                        paths.push(p);
                        proof {
                            assert(paths.deep_view() =~= st0.mtl_paths.push(pv));
                            assert(spec_obj_line(base, st0, ld[i as int]) == Ok::<
                                ObjParseV,
                                ParseError,
                            >(
                                ObjParseV {
                                    v: v.deep_view(),
                                    vn: vn.deep_view(),
                                    vt: vt.deep_view(),
                                    groups: spec_groups_view(groups@),
                                    current: cur@,
                                    mtl_paths: paths.deep_view(),
                                },
                            ));
                        }
                    } else if str_eq(ty, "v") {
                        match self.parse_v(data) {
                            Err(e) => {
                                return Err(e);
                            },
                            Ok(c) => {
                                let ghost cv = (c.0@, c.1@, c.2@);
                                v.push(c);
                                proof {
                                    assert(v.deep_view() =~= st0.v.push(cv));
                                    assert(spec_obj_line(base, st0, ld[i as int]) == Ok::<
                                        ObjParseV,
                                        ParseError,
                                    >(
                                        ObjParseV {
                                            v: v.deep_view(),
                                            vn: vn.deep_view(),
                                            vt: vt.deep_view(),
                                            groups: spec_groups_view(groups@),
                                            current: cur@,
                                            mtl_paths: paths.deep_view(),
                                        },
                                    ));
                                }
                            },
                        }
                    } else if str_eq(ty, "vn") {
                        match self.parse_vec3f(data) {
                            Err(e) => {
                                return Err(e);
                            },
                            Ok(c) => {
                                let ghost cv = (c.0@, c.1@, c.2@);
                                vn.push(c);
                                proof {
                                    assert(vn.deep_view() =~= st0.vn.push(cv));
                                    assert(spec_obj_line(base, st0, ld[i as int]) == Ok::<
                                        ObjParseV,
                                        ParseError,
                                    >(
                                        ObjParseV {
                                            v: v.deep_view(),
                                            vn: vn.deep_view(),
                                            vt: vt.deep_view(),
                                            groups: spec_groups_view(groups@),
                                            current: cur@,
                                            mtl_paths: paths.deep_view(),
                                        },
                                    ));
                                }
                            },
                        }
                    } else if str_eq(ty, "vt") {
                        match self.parse_vec2f_or_vec3f(data) {
                            Err(e) => {
                                return Err(e);
                            },
                            Ok(c) => {
                                let ghost cv = (c.0@, c.1@, c.2@);
                                vt.push(c);
                                proof {
                                    assert(vt.deep_view() =~= st0.vt.push(cv));
                                    assert(spec_obj_line(base, st0, ld[i as int]) == Ok::<
                                        ObjParseV,
                                        ParseError,
                                    >(
                                        ObjParseV {
                                            v: v.deep_view(),
                                            vn: vn.deep_view(),
                                            vt: vt.deep_view(),
                                            groups: spec_groups_view(groups@),
                                            current: cur@,
                                            mtl_paths: paths.deep_view(),
                                        },
                                    ));
                                }
                            },
                        }
                    } else if str_eq(ty, "g") {
                        let keep = !cur.is_default();
                        let ghost curv = cur@;
                        if keep {
                            groups.push(cur);
                            proof {
                                assert(spec_groups_view(groups@) =~= st0.groups.push(curv));
                            }
                        } else {
                            proof {
                                assert(curv == spec_group_default());
                            }
                        }
                        cur = Group { name: data.to_owned(), f: Vec::new(), usemtl: None };
                        proof {
                            assert(cur@.f =~= Seq::<Seq<VAIdx>>::empty());
                            assert(spec_obj_line(base, st0, ld[i as int]) == Ok::<
                                ObjParseV,
                                ParseError,
                            >(
                                ObjParseV {
                                    v: v.deep_view(),
                                    vn: vn.deep_view(),
                                    vt: vt.deep_view(),
                                    groups: spec_groups_view(groups@),
                                    current: cur@,
                                    mtl_paths: paths.deep_view(),
                                },
                            ));
                        }
                    } else if str_eq(ty, "usemtl") {
                        cur.usemtl = Some(data.to_owned());
                        proof {
                            assert(spec_obj_line(base, st0, ld[i as int]) == Ok::<
                                ObjParseV,
                                ParseError,
                            >(
                                ObjParseV {
                                    v: v.deep_view(),
                                    vn: vn.deep_view(),
                                    vt: vt.deep_view(),
                                    groups: spec_groups_view(groups@),
                                    current: cur@,
                                    mtl_paths: paths.deep_view(),
                                },
                            ));
                        }
                    } else if str_eq(ty, "f") {
                        match self.parse_f(data) {
                            Err(e) => {
                                return Err(e);
                            },
                            Ok(face) => {
                                let ghost facev = face@;
                                proof {
                                    assert(face.deep_view() =~= facev);
                                }
                                cur.f.push(face);
                                proof {
                                    assert(cur@.f =~= st0.current.f.push(facev));
                                    assert(spec_obj_line(base, st0, ld[i as int]) == Ok::<
                                        ObjParseV,
                                        ParseError,
                                    >(
                                        ObjParseV {
                                            v: v.deep_view(),
                                            vn: vn.deep_view(),
                                            vt: vt.deep_view(),
                                            groups: spec_groups_view(groups@),
                                            current: cur@,
                                            mtl_paths: paths.deep_view(),
                                        },
                                    ));
                                }
                            },
                        }
                    } else {
                        proof {
                            assert(spec_obj_line(base, st0, ld[i as int]) == Ok::<
                                ObjParseV,
                                ParseError,
                            >(st0));
                        }
                    }
                },
            }
            i += 1;
        }
        proof {
            assert(ld.skip(ld.len() as int) =~= Seq::<Seq<char>>::empty());
        }
        let ghost groups0 = spec_groups_view(groups@);
        let ghost curv = cur@;
        let keep = !cur.is_default();
        if keep {
            groups.push(cur);
            proof {
                assert(spec_groups_view(groups@) =~= groups0.push(curv));
            }
        }
        let obj = Obj { v, vn, vt, mtl_lib: MtlLib::new_empty(), groups };
        proof {
            assert(obj@.mtl_lib =~= Seq::<MtlV>::empty());
            assert(obj@.groups =~= spec_groups_view(obj.groups@));
        }
        Ok((obj, paths))
    }

    /// Reads a whole MTL file, already split into lines, into a
    /// material library.  The texture images the file names are not
    /// decoded here — that takes the file system — but are returned
    /// as resolved paths, in file order, for the caller to open; the
    /// materials keep the same paths in their map fields.
    #[verifier::rlimit(100)]
    pub fn parse_mtl_lib(&self, lines: &Vec<String>) -> (r: Result<(MtlLib, Vec<String>), ParseError>)
        ensures
            match (r, spec_mtl_lines(self.base@, spec_mtl_init(), lines.deep_view())) {
                (Ok(p), Ok(st)) => p.0@ == spec_mtl_final(st) && p.1.deep_view() == st.img_paths,
                (Err(e1), Err(e2)) => e1 == e2,
                _ => false,
            },
    {
        let ghost ld = lines.deep_view();
        let ghost base = self.base@;
        let mut mtls: Vec<Mtl> = Vec::new();
        let mut cur: Mtl = Mtl::new_default();
        let mut imgs: Vec<String> = Vec::new();
        proof {
            let st = MtlParseV {
                mtls: spec_mtls_view(mtls@),
                current: cur@,
                img_paths: imgs.deep_view(),
            };
            assert(st.mtls =~= spec_mtl_init().mtls);
            assert(st.img_paths =~= spec_mtl_init().img_paths);
            assert(st == spec_mtl_init());
            assert(ld.skip(0) =~= ld);
        }
        let mut i: usize = 0;
        while i < lines.len()
            invariant
                i <= lines@.len(),
                ld == lines.deep_view(),
                ld.len() == lines@.len(),
                base == self.base@,
                spec_mtl_lines(
                    base,
                    MtlParseV {
                        mtls: spec_mtls_view(mtls@),
                        current: cur@,
                        img_paths: imgs.deep_view(),
                    },
                    ld.skip(i as int),
                ) == spec_mtl_lines(base, spec_mtl_init(), ld),
            decreases lines@.len() - i,
        {
            let ghost st0 = MtlParseV {
                mtls: spec_mtls_view(mtls@),
                current: cur@,
                img_paths: imgs.deep_view(),
            };
            let line = &lines[i];
            proof {
                assert(ld[i as int] == lines@[i as int]@);
                assert(ld.skip(i as int)[0] == ld[i as int]);
                assert(ld.skip(i as int).skip(1) =~= ld.skip(i as int + 1));
            }
            match split_line(line.as_str()) {
                Err(e) => {
                    proof {
                        assert(spec_mtl_line(base, st0, ld[i as int]) == Err::<
                            MtlParseV,
                            ParseError,
                        >(e));
                    }
                    return Err(e);
                },
                Ok(None) => {
                    proof {
                        assert(spec_mtl_line(base, st0, ld[i as int]) == Ok::<
                            MtlParseV,
                            ParseError,
                        >(st0));
                    }
                },
                Ok(Some((ty, data))) => {
                    if str_eq(ty, "newmtl") {
                        let keep = !cur.is_default();
                        let ghost curv = cur@;
                        if keep {
                            mtls.push(cur);
                            proof {
                                assert(spec_mtls_view(mtls@) =~= st0.mtls.push(curv));
                            }
                        }
                        cur = Mtl::new_default();
                        cur.name = data.to_owned();
                    } else if str_eq(ty, "Ns") {
                        if !check_float(data) {
                            return Err(ParseError::InvalidNumber);
                        }
                        cur.ns = data.to_owned();
                    } else if str_eq(ty, "Ni") {
                        if !check_float(data) {
                            return Err(ParseError::InvalidNumber);
                        }
                        cur.ni = data.to_owned();
                    } else if str_eq(ty, "d") {
                        if !check_float(data) {
                            return Err(ParseError::InvalidNumber);
                        }
                        cur.d = data.to_owned();
                    } else if str_eq(ty, "Tr") {
                        if !check_float(data) {
                            return Err(ParseError::InvalidNumber);
                        }
                        cur.tr = data.to_owned();
                    } else if str_eq(ty, "Tf") {
                        match self.parse_vec3f(data) {
                            Err(e) => {
                                return Err(e);
                            },
                            Ok(c) => {
                                cur.tf = c;
                            },
                        }
                    } else if str_eq(ty, "illum") {
                        match parse_u32(data) {
                            None => {
                                return Err(ParseError::InvalidNumber);
                            },
                            Some(n) => {
                                cur.illum = n;
                            },
                        }
                    } else if str_eq(ty, "Ka") {
                        match self.parse_vec3f(data) {
                            Err(e) => {
                                return Err(e);
                            },
                            Ok(c) => {
                                cur.ka = c;
                            },
                        }
                    } else if str_eq(ty, "Kd") {
                        match self.parse_vec3f(data) {
                            Err(e) => {
                                return Err(e);
                            },
                            Ok(c) => {
                                cur.kd = c;
                            },
                        }
                    } else if str_eq(ty, "Ks") {
                        match self.parse_vec3f(data) {
                            Err(e) => {
                                return Err(e);
                            },
                            Ok(c) => {
                                cur.ks = c;
                            },
                        }
                    } else if str_eq(ty, "Ke") {
                        match self.parse_vec3f(data) {
                            Err(e) => {
                                return Err(e);
                            },
                            Ok(c) => {
                                cur.ke = c;
                            },
                        }
                    } else if str_eq(ty, "map_Ka") {
                        let p = path_join(self.base.as_str(), data);
                        let ghost pv = p@;
                        cur.map_ka = Some(p.clone());
                        imgs.push(p);
                        proof {
                            assert(imgs.deep_view() =~= st0.img_paths.push(pv));
                        }
                    } else if str_eq(ty, "map_Kd") {
                        let p = path_join(self.base.as_str(), data);
                        let ghost pv = p@;
                        cur.map_kd = Some(p.clone());
                        imgs.push(p);
                        proof {
                            assert(imgs.deep_view() =~= st0.img_paths.push(pv));
                        }
                    } else if str_eq(ty, "map_Ks") {
                        let p = path_join(self.base.as_str(), data);
                        let ghost pv = p@;
                        cur.map_ks = Some(p.clone());
                        imgs.push(p);
                        proof {
                            assert(imgs.deep_view() =~= st0.img_paths.push(pv));
                        }
                    } else if str_eq(ty, "map_bump") {
                        let p = path_join(self.base.as_str(), data);
                        let ghost pv = p@;
                        cur.map_bump = Some(p.clone());
                        imgs.push(p);
                        proof {
                            assert(imgs.deep_view() =~= st0.img_paths.push(pv));
                        }
                    }
                    proof {
                        let stn = MtlParseV {
                            mtls: spec_mtls_view(mtls@),
                            current: cur@,
                            img_paths: imgs.deep_view(),
                        };
                        assert(spec_mtl_line(base, st0, ld[i as int]) == Ok::<
                            MtlParseV,
                            ParseError,
                        >(stn));
                    }
                },
            }
            i += 1;
        }
        proof {
            assert(ld.skip(ld.len() as int) =~= Seq::<Seq<char>>::empty());
        }
        let ghost mtls0 = spec_mtls_view(mtls@);
        let ghost curv = cur@;
        let keep = !cur.is_default();
        if keep {
            mtls.push(cur);
            proof {
                assert(spec_mtls_view(mtls@) =~= mtls0.push(curv));
            }
        }
        let lib = MtlLib { mtls };
        proof {
            assert(lib@ =~= spec_mtls_view(lib.mtls@));
        }
        Ok((lib, imgs))
    }

    /// Reads the corner list of an `f` line.
    #[verifier::rlimit(100)]
    pub fn parse_f(&self, line: &str) -> (r: Result<Vec<VAIdx>, ParseError>)
        ensures
            match (r, spec_parse_f_data(line@)) {
                (Ok(v), Ok(s)) => v@ == s,
                (Err(e1), Err(e2)) => e1 == e2,
                _ => false,
            },
    {
        let n = line.unicode_len();
        let mut vec: Vec<VAIdx> = Vec::new();
        let mut i: usize = 0;
        proof {
            assert(line@.skip(0) =~= line@);
            if let Ok(rest) = spec_parse_f_data(line@) {
                assert(vec@ + rest =~= rest);
            }
        }
        loop
            invariant
                i <= n,
                n == line@.len(),
                (match spec_parse_f_data(line@.skip(i as int)) {
                    Ok(rest) => spec_parse_f_data(line@) == Ok::<Seq<VAIdx>, ParseError>(
                        vec@ + rest,
                    ),
                    Err(er) => spec_parse_f_data(line@) == Err::<Seq<VAIdx>, ParseError>(er),
                }),
            decreases n - i,
        {
            let ghost d0 = line@.skip(i as int);
            let a = skip_spaces(line, i);
            let ghost d = line@.skip(a as int);
            proof {
                lemma_skip_spaces_props(line@, i as int);
                assert(d0.skip(a - i) =~= d);
                lemma_parse_f_skip_spaces(d0, a - i);
                assert(spec_parse_f_data(d0) == spec_parse_f_data(d));
            }
            if a >= n {
                proof {
                    assert(d =~= Seq::<char>::empty());
                    assert(vec@ + Seq::<VAIdx>::empty() =~= vec@);
                }
                return Ok(vec);
            }
            let e = find_space(line, a);
            proof {
                lemma_find_space_props(line@, a as int);
                lemma_find_space_skip_one(line@, a as int, a as int);
                assert(d[0] == line@[a as int]);
                assert(!is_space(d[0]));
                assert(spec_find_space(d, 0) == e - a);
                assert(1 <= e - a && e - a <= d.len());
            }
            let tok = line.substring_char(a, e);
            proof {
                assert(tok@ =~= d.take(e - a));
                assert(d.skip(e - a) =~= line@.skip(e as int));
            }
            let res = self.parse_f_vertex(tok);
            let t = match res {
                Ok(t) => t,
                Err(er) => {
                    proof {
                        assert(spec_parse_f_data(d) == Err::<Seq<VAIdx>, ParseError>(er));
                    }
                    return Err(er);
                },
            };
            let ghost vec0 = vec@;
            vec.push(t);
            proof {
                assert(vec@ =~= vec0.push(t));
                match spec_parse_f_data(line@.skip(e as int)) {
                    Ok(rest2) => {
                        assert(spec_parse_f_data(d) == Ok::<Seq<VAIdx>, ParseError>(
                            seq![t] + rest2,
                        ));
                        assert(vec0 + (seq![t] + rest2) =~= vec@ + rest2);
                        assert(spec_parse_f_data(line@) == Ok::<Seq<VAIdx>, ParseError>(
                            vec@ + rest2,
                        ));
                    },
                    Err(er) => {
                        assert(spec_parse_f_data(d) == Err::<Seq<VAIdx>, ParseError>(er));
                    },
                }
            }
            i = e;
        }
    }
}

} // verus!
