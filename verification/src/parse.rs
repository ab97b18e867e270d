//! Text utilities shared by the instance and solution file formats.
//!
//! Both wire formats are line oriented: lines are separated by `'\n'` (an
//! optional `'\r'` before the separator is dropped, and a final line ending
//! is optional), and fields within a line are separated by single spaces.
//! Numbers are non-empty runs of decimal digits.
//!
//! The spec functions here define those conventions over `Seq<char>`; the
//! executable functions are verified against them.

use vstd::prelude::*;
use vstd::string::*;

verus! {

/// Why a file refused to parse.  Parsing aborts at the first problem: no
/// partial record is ever returned.
#[derive(Clone, Copy, PartialEq, Eq, Structural, Debug)]
pub enum ParseError {
    /// The expected section header line was never found.
    MalformedHeader,
    /// A required line is absent, or a line has too few fields.
    MissingField,
    /// A field that should be a decimal number is not one, or is out of range.
    NumberFormat,
}

// ------------------------------------------------------------------
// Decimal numbers
// ------------------------------------------------------------------

/// A decimal digit `'0'..='9'`.
pub open spec fn is_digit(c: char) -> bool {
    48 <= c as u32 && c as u32 <= 57
}

/// Numeric value of one digit.
pub open spec fn digit_val(c: char) -> int {
    c as u32 - 48
}

/// Every character of `s` is a decimal digit.
pub open spec fn all_digits(s: Seq<char>) -> bool {
    forall|i: int| 0 <= i < s.len() ==> is_digit(#[trigger] s[i])
}

/// Value of a digit string read in base 10.
pub open spec fn digits_val(s: Seq<char>) -> int
    decreases s.len(),
{
    if s.len() == 0 {
        0
    } else {
        digits_val(s.drop_last()) * 10 + digit_val(s.last())
    }
}

/// A well-formed number field: non-empty and all digits.
pub open spec fn is_num_token(s: Seq<char>) -> bool {
    s.len() > 0 && all_digits(s)
}

/// A number field whose value fits in `u32`.
pub open spec fn is_u32_token(s: Seq<char>) -> bool {
    is_num_token(s) && digits_val(s) <= u32::MAX
}

/// A number field whose value fits in `u64`.
pub open spec fn is_u64_token(s: Seq<char>) -> bool {
    is_num_token(s) && digits_val(s) <= u64::MAX
}

pub proof fn lemma_digits_val_nonneg(s: Seq<char>)
    requires
        all_digits(s),
    ensures
        digits_val(s) >= 0,
    decreases s.len(),
{
    if s.len() > 0 {
        assert(all_digits(s.drop_last()));
        lemma_digits_val_nonneg(s.drop_last());
    }
}

/// The value of a digit string is at least the value of any of its prefixes.
pub proof fn lemma_digits_val_prefix_le(s: Seq<char>, i: int)
    requires
        all_digits(s),
        0 <= i <= s.len(),
    ensures
        digits_val(s.take(i)) <= digits_val(s),
    decreases s.len() - i,
{
    if i < s.len() {
        lemma_digits_val_prefix_le(s, i + 1);
        let t = s.take(i + 1);
        assert(t.drop_last() =~= s.take(i));
        assert(all_digits(s.take(i)));
        lemma_digits_val_nonneg(s.take(i));
        assert(digits_val(t) == digits_val(s.take(i)) * 10 + digit_val(s[i]));
        assert(digits_val(s.take(i)) <= digits_val(s.take(i)) * 10 + digit_val(s[i]));
    } else {
        assert(s.take(i) =~= s);
    }
}

/// Parses a `u32` field: the whole string must be digits and the value must
/// fit, exactly as [`is_u32_token`] demands; anything else is a
/// [`ParseError::NumberFormat`].
pub fn parse_u32(s: &str) -> (r: Result<u32, ParseError>)
    ensures
        is_u32_token(s@) ==> 0 <= digits_val(s@) && r == Ok::<u32, ParseError>(
            digits_val(s@) as u32,
        ),
        !is_u32_token(s@) ==> r == Err::<u32, ParseError>(ParseError::NumberFormat),
{
    let n = s.unicode_len();
    if n == 0 {
        return Err(ParseError::NumberFormat);
    }
    let mut i: usize = 0;
    let mut val: u64 = 0;
    while i < n
        invariant
            0 <= i <= n,
            n == s@.len(),
            all_digits(s@.take(i as int)),
            val == digits_val(s@.take(i as int)),
            val <= u32::MAX,
        decreases n - i,
    {
        let c = s.get_char(i);
        let cv = c as u32;
        proof {
            assert(s@.take(i + 1).drop_last() =~= s@.take(i as int));
            assert(s@.take(i + 1).last() == s@[i as int]);
        }
        if cv < 48 || cv > 57 {
            assert(!is_digit(s@[i as int]));
            return Err(ParseError::NumberFormat);
        }
        let nv: u64 = val * 10 + (cv - 48) as u64;
        assert(all_digits(s@.take(i + 1)));
        assert(nv == digits_val(s@.take(i + 1)));
        if nv > u32::MAX as u64 {
            proof {
                if all_digits(s@) {
                    lemma_digits_val_prefix_le(s@, i + 1);
                }
            }
            return Err(ParseError::NumberFormat);
        }
        val = nv;
        i = i + 1;
    }
    proof {
        assert(s@.take(n as int) =~= s@);
    }
    Ok(val as u32)
}

/// Parses a `u64` field, as [`parse_u32`] does for `u32`.
pub fn parse_u64(s: &str) -> (r: Result<u64, ParseError>)
    ensures
        is_u64_token(s@) ==> 0 <= digits_val(s@) && r == Ok::<u64, ParseError>(
            digits_val(s@) as u64,
        ),
        !is_u64_token(s@) ==> r == Err::<u64, ParseError>(ParseError::NumberFormat),
{
    let n = s.unicode_len();
    if n == 0 {
        return Err(ParseError::NumberFormat);
    }
    let mut i: usize = 0;
    let mut val: u128 = 0;
    while i < n
        invariant
            0 <= i <= n,
            n == s@.len(),
            all_digits(s@.take(i as int)),
            val == digits_val(s@.take(i as int)),
            val <= u64::MAX,
        decreases n - i,
    {
        let c = s.get_char(i);
        let cv = c as u32;
        proof {
            assert(s@.take(i + 1).drop_last() =~= s@.take(i as int));
            assert(s@.take(i + 1).last() == s@[i as int]);
        }
        if cv < 48 || cv > 57 {
            assert(!is_digit(s@[i as int]));
            return Err(ParseError::NumberFormat);
        }
        let nv: u128 = val * 10 + (cv - 48) as u128;
        assert(all_digits(s@.take(i + 1)));
        assert(nv == digits_val(s@.take(i + 1)));
        if nv > u64::MAX as u128 {
            proof {
                if all_digits(s@) {
                    lemma_digits_val_prefix_le(s@, i + 1);
                }
            }
            return Err(ParseError::NumberFormat);
        }
        val = nv;
        i = i + 1;
    }
    proof {
        assert(s@.take(n as int) =~= s@);
    }
    Ok(val as u64)
}

// ------------------------------------------------------------------
// Decimal formatting
// ------------------------------------------------------------------

/// The digit character for a value in `0..=9`.
pub open spec fn dec_digit_char(d: int) -> char {
    if d == 0 {
        '0'
    } else if d == 1 {
        '1'
    } else if d == 2 {
        '2'
    } else if d == 3 {
        '3'
    } else if d == 4 {
        '4'
    } else if d == 5 {
        '5'
    } else if d == 6 {
        '6'
    } else if d == 7 {
        '7'
    } else if d == 8 {
        '8'
    } else {
        '9'
    }
}

/// Decimal representation of a non-negative number, most significant digit
/// first, without leading zeros (a lone zero for 0).
pub open spec fn dec_str(n: int) -> Seq<char>
    decreases n,
{
    if n < 10 {
        seq![dec_digit_char(n)]
    } else {
        dec_str(n / 10).push(dec_digit_char(n % 10))
    }
}

/// A decimal representation is a number token and reads back to its value.
pub proof fn lemma_dec_str_round_trip(n: int)
    requires
        0 <= n,
    ensures
        dec_str(n).len() >= 1,
        all_digits(dec_str(n)),
        digits_val(dec_str(n)) == n,
    decreases n,
{
    if n < 10 {
        let s = dec_str(n);
        assert(s =~= seq![dec_digit_char(n)]);
        assert(is_digit(dec_digit_char(n)));
        assert(s.drop_last() =~= Seq::<char>::empty());
        assert(digits_val(Seq::<char>::empty()) == 0);
        assert(s.last() == dec_digit_char(n));
        assert(digits_val(s) == digits_val(s.drop_last()) * 10 + digit_val(s.last()));
        assert(digit_val(dec_digit_char(n)) == n);
    } else {
        lemma_dec_str_round_trip(n / 10);
        let s = dec_str(n);
        assert(s == dec_str(n / 10).push(dec_digit_char(n % 10)));
        assert(s.drop_last() =~= dec_str(n / 10));
        assert(s.last() == dec_digit_char(n % 10));
        assert(is_digit(dec_digit_char(n % 10)));
        assert(forall|i: int|
            0 <= i < s.len() ==> is_digit(#[trigger] s[i])) by {
            assert(forall|i: int| 0 <= i < s.len() - 1 ==> s[i] == dec_str(n / 10)[i]);
        }
        assert(digit_val(dec_digit_char(n % 10)) == n % 10);
        assert(digits_val(s) == (n / 10) * 10 + n % 10);
        assert((n / 10) * 10 + n % 10 == n) by (nonlinear_arith)
            requires n >= 0;
    }
}

/// The single-character string for a digit value.
fn digit_str(d: u32) -> (r: &'static str)
    requires
        d < 10,
    ensures
        r@ =~= seq![dec_digit_char(d as int)],
{
    proof {
        reveal_strlit("0");
        reveal_strlit("1");
        reveal_strlit("2");
        reveal_strlit("3");
        reveal_strlit("4");
        reveal_strlit("5");
        reveal_strlit("6");
        reveal_strlit("7");
        reveal_strlit("8");
        reveal_strlit("9");
    }
    if d == 0 {
        "0"
    } else if d == 1 {
        "1"
    } else if d == 2 {
        "2"
    } else if d == 3 {
        "3"
    } else if d == 4 {
        "4"
    } else if d == 5 {
        "5"
    } else if d == 6 {
        "6"
    } else if d == 7 {
        "7"
    } else if d == 8 {
        "8"
    } else {
        "9"
    }
}

/// Formats a number in decimal, matching [`dec_str`].
pub fn fmt_u64(n: u64) -> (r: String)
    ensures
        r@ == dec_str(n as int),
    decreases n,
{
    if n < 10 {
        let mut s = String::new();
        s.append(digit_str(n as u32));
        proof {
            assert(s@ =~= dec_str(n as int));
        }
        s
    } else {
        let mut s = fmt_u64(n / 10);
        s.append(digit_str((n % 10) as u32));
        proof {
            assert(s@ =~= dec_str(n as int));
        }
        s
    }
}

// ------------------------------------------------------------------
// Splitting on a separator character
// ------------------------------------------------------------------

/// Splits `s` at every occurrence of `c`, keeping empty pieces; the empty
/// string yields one empty piece.  This matches splitting on a single
/// character separator where `n` separators yield `n + 1` pieces.
pub open spec fn split_ch(s: Seq<char>, c: char) -> Seq<Seq<char>>
    decreases s.len(),
{
    if s.len() == 0 {
        seq![Seq::<char>::empty()]
    } else if s[0] == c {
        seq![Seq::<char>::empty()] + split_ch(s.drop_first(), c)
    } else {
        let rest = split_ch(s.drop_first(), c);
        rest.update(0, seq![s[0]] + rest[0])
    }
}

pub proof fn lemma_split_ch_len(s: Seq<char>, c: char)
    ensures
        split_ch(s, c).len() >= 1,
    decreases s.len(),
{
    if s.len() > 0 {
        lemma_split_ch_len(s.drop_first(), c);
    }
}

/// A string without the separator is one piece.
pub proof fn lemma_split_ch_no_sep(s: Seq<char>, c: char)
    requires
        forall|j: int| 0 <= j < s.len() ==> s[j] != c,
    ensures
        split_ch(s, c) =~~= seq![s],
    decreases s.len(),
{
    if s.len() > 0 {
        lemma_split_ch_no_sep(s.drop_first(), c);
        let rest = split_ch(s.drop_first(), c);
        assert(rest =~~= seq![s.drop_first()]);
        assert(seq![s[0]] + s.drop_first() =~= s);
    }
}

/// Splitting at the first separator: one piece, then the split of the rest.
pub proof fn lemma_split_ch_sep(s: Seq<char>, c: char, i: int)
    requires
        0 <= i < s.len(),
        s[i] == c,
        forall|j: int| 0 <= j < i ==> s[j] != c,
    ensures
        split_ch(s, c) =~~= seq![s.take(i)] + split_ch(s.skip(i + 1), c),
    decreases i,
{
    if i == 0 {
        assert(s.take(0) =~= Seq::<char>::empty());
        assert(s.skip(1) =~= s.drop_first());
    } else {
        let d = s.drop_first();
        assert(forall|j: int| 0 <= j < i - 1 ==> d[j] != c);
        lemma_split_ch_sep(d, c, i - 1);
        lemma_split_ch_len(d.skip(i), c);
        let rest = split_ch(d, c);
        assert(rest =~~= seq![d.take(i - 1)] + split_ch(d.skip(i), c));
        assert(rest[0] == d.take(i - 1));
        assert(seq![s[0]] + d.take(i - 1) =~= s.take(i));
        assert(d.skip(i) =~= s.skip(i + 1));
        assert(split_ch(s, c) =~~= rest.update(0, s.take(i)));
    }
}

/// Finds the first occurrence of `c` in `s` at or after `from`.
pub fn find_from(s: &str, from: usize, c: char) -> (r: Option<usize>)
    requires
        from <= s@.len(),
    ensures
        match r {
            Some(i) => from <= i < s@.len() && s@[i as int] == c && forall|j: int|
                from <= j < i ==> s@[j] != c,
            None => forall|j: int| from <= j < s@.len() ==> s@[j] != c,
        },
{
    let n = s.unicode_len();
    let mut i: usize = from;
    while i < n
        invariant
            from <= i <= n,
            n == s@.len(),
            forall|j: int| from <= j < i ==> s@[j] != c,
        decreases n - i,
    {
        if s.get_char(i) == c {
            return Some(i);
        }
        i = i + 1;
    }
    None
}

/// Appends the pieces of `s` split on `c` to `out`.
fn split_push<'a>(s: &'a str, c: char, out: &mut Vec<&'a str>)
    ensures
        final(out).deep_view() == old(out).deep_view() + split_ch(s@, c),
    decreases s@.len(),
{
    let n = s.unicode_len();
    match find_from(s, 0, c) {
        None => {
            proof {
                lemma_split_ch_no_sep(s@, c);
            }
            out.push(s);
            proof {
                assert(out.deep_view() =~~= old(out).deep_view() + split_ch(s@, c));
            }
        },
        Some(i) => {
            let head = s.substring_char(0, i);
            let tail = s.substring_char(i + 1, n);
            proof {
                lemma_split_ch_sep(s@, c, i as int);
                assert(head@ =~= s@.take(i as int));
                assert(tail@ =~= s@.skip(i + 1));
            }
            let ghost mid = *out;
            out.push(head);
            proof {
                assert(out.deep_view() =~~= old(out).deep_view() + seq![s@.take(i as int)]);
            }
            split_push(tail, c, out);
            proof {
                assert(out.deep_view() =~~= old(out).deep_view() + split_ch(s@, c));
            }
        },
    }
}

/// Splits `s` on the character `c`, keeping empty pieces.
pub fn split_str<'a>(s: &'a str, c: char) -> (r: Vec<&'a str>)
    ensures
        r.deep_view() == split_ch(s@, c),
        r@.len() >= 1,
{
    let mut out: Vec<&'a str> = Vec::new();
    proof {
        assert(out.deep_view() =~~= Seq::<Seq<char>>::empty());
        lemma_split_ch_len(s@, c);
    }
    split_push(s, c, &mut out);
    proof {
        assert(out.deep_view() =~~= split_ch(s@, c));
        assert(out.deep_view().len() == out@.len());
    }
    out
}

// ------------------------------------------------------------------
// Lines
// ------------------------------------------------------------------

/// Drops one carriage return at the end of a line, if present.
pub open spec fn strip_cr(s: Seq<char>) -> Seq<char> {
    if s.len() > 0 && s.last() == '\r' {
        s.drop_last()
    } else {
        s
    }
}

/// The lines of a text: pieces split on `'\n'`, each complete line stripped
/// of a trailing `'\r'`; a final line ending yields no empty last line.
pub open spec fn lines_spec(s: Seq<char>) -> Seq<Seq<char>> {
    let parts = split_ch(s, '\n');
    let full = parts.take(parts.len() - 1).map_values(|p: Seq<char>| strip_cr(p));
    if parts.last().len() == 0 {
        full
    } else {
        full.push(parts.last())
    }
}

/// Drops one trailing carriage return, matching [`strip_cr`].
fn strip_cr_str<'a>(p: &'a str) -> (r: &'a str)
    ensures
        r@ == strip_cr(p@),
{
    let n = p.unicode_len();
    if n > 0 && p.get_char(n - 1) == '\r' {
        let r = p.substring_char(0, n - 1);
        proof {
            assert(r@ =~= strip_cr(p@));
        }
        r
    } else {
        p
    }
}

/// Splits a text into lines, matching [`lines_spec`].
pub fn split_lines<'a>(s: &'a str) -> (r: Vec<&'a str>)
    ensures
        r.deep_view() == lines_spec(s@),
{
    let parts = split_str(s, '\n');
    let mut out: Vec<&'a str> = Vec::new();
    let ghost pv = parts.deep_view();
    let full_count = parts.len() - 1;
    let mut k: usize = 0;
    while k < full_count
        invariant
            0 <= k <= full_count,
            full_count == parts@.len() - 1,
            pv == parts.deep_view(),
            pv.len() == parts@.len(),
            out.deep_view() =~~= pv.take(k as int).map_values(|p: Seq<char>| strip_cr(p)),
        decreases full_count - k,
    {
        let piece = strip_cr_str(parts[k]);
        out.push(piece);
        proof {
            assert(pv.take(k + 1).map_values(|p: Seq<char>| strip_cr(p)) =~~= pv.take(
                k as int,
            ).map_values(|p: Seq<char>| strip_cr(p)).push(strip_cr(pv[k as int])));
        }
        k = k + 1;
    }
    let last = parts[full_count];
    proof {
        assert(pv.take(pv.len() - 1) =~~= pv.take(full_count as int));
        assert(pv.last() == pv[full_count as int]);
    }
    if last.unicode_len() > 0 {
        out.push(last);
        proof {
            assert(out.deep_view() =~~= lines_spec(s@));
        }
    } else {
        proof {
            assert(out.deep_view() =~~= lines_spec(s@));
        }
    }
    out
}

// ------------------------------------------------------------------
// Round-trip lemmas: how serialized text splits back
// ------------------------------------------------------------------

/// A digit string holds no separator and no carriage return.
pub proof fn lemma_digits_clean(s: Seq<char>)
    requires
        all_digits(s),
    ensures
        forall|j: int| 0 <= j < s.len() ==> s[j] != '\n' && s[j] != ' ' && s[j] != '\r',
        strip_cr(s) == s,
{
    assert forall|j: int| 0 <= j < s.len() implies s[j] != '\n' && s[j] != ' ' && s[j]
        != '\r' by {
        assert(is_digit(s[j]));
        assert('\n' as u32 == 10);
        assert(' ' as u32 == 32);
        assert('\r' as u32 == 13);
    }
    if s.len() > 0 {
        assert(s.last() != '\r');
    }
}

/// Splitting text that begins with a separator-free token and a separator:
/// the token comes off, the rest splits on its own.
pub proof fn lemma_split_prepend_token(tok: Seq<char>, rest: Seq<char>, c: char)
    requires
        forall|j: int| 0 <= j < tok.len() ==> tok[j] != c,
    ensures
        split_ch(tok + seq![c] + rest, c) == seq![tok] + split_ch(rest, c),
{
    let s = tok + seq![c] + rest;
    assert(s[tok.len() as int] == c);
    assert(forall|j: int| 0 <= j < tok.len() ==> s[j] == tok[j]);
    lemma_split_ch_sep(s, c, tok.len() as int);
    assert(s.take(tok.len() as int) =~= tok);
    assert(s.skip(tok.len() as int + 1) =~= rest);
    assert(split_ch(s, c) =~~= seq![tok] + split_ch(rest, c));
}

/// The lines of text that begins with a clean line: that line, then the
/// lines of the rest.
pub proof fn lemma_lines_prepend(line: Seq<char>, rest: Seq<char>)
    requires
        forall|j: int| 0 <= j < line.len() ==> line[j] != '\n',
        strip_cr(line) == line,
    ensures
        lines_spec(line + seq!['\n'] + rest) == seq![line] + lines_spec(rest),
{
    let s = line + seq!['\n'] + rest;
    lemma_split_prepend_token(line, rest, '\n');
    let parts = split_ch(s, '\n');
    let pr = split_ch(rest, '\n');
    lemma_split_ch_len(rest, '\n');
    assert(parts == seq![line] + pr);
    assert(parts.len() == 1 + pr.len());
    assert(parts.take(parts.len() - 1) =~= seq![line] + pr.take(pr.len() - 1));
    let strip = |p: Seq<char>| strip_cr(p);
    assert(parts.take(parts.len() - 1).map_values(strip) =~= seq![line] + pr.take(
        pr.len() - 1,
    ).map_values(strip));
    assert(parts.last() == pr.last());
    if pr.last().len() == 0 {
        assert(lines_spec(s) =~~= seq![line] + lines_spec(rest));
    } else {
        assert(lines_spec(s) =~~= seq![line] + lines_spec(rest));
    }
}

/// The empty text has no lines.
pub proof fn lemma_lines_empty()
    ensures
        lines_spec(Seq::<char>::empty()) == Seq::<Seq<char>>::empty(),
{
    let parts = split_ch(Seq::<char>::empty(), '\n');
    assert(parts =~~= seq![Seq::<char>::empty()]);
    assert(lines_spec(Seq::<char>::empty()) =~~= Seq::<Seq<char>>::empty());
}

// ------------------------------------------------------------------
// Prefix tests and header lines
// ------------------------------------------------------------------

/// Whether `p` is a prefix of `s`.
pub fn starts_with_str(s: &str, p: &str) -> (r: bool)
    ensures
        r == p@.is_prefix_of(s@),
{
    let np = p.unicode_len();
    let ns = s.unicode_len();
    if np > ns {
        return false;
    }
    let mut i: usize = 0;
    while i < np
        invariant
            0 <= i <= np,
            np == p@.len(),
            ns == s@.len(),
            np <= ns,
            forall|j: int| 0 <= j < i ==> s@[j] == p@[j],
        decreases np - i,
    {
        if s.get_char(i) != p.get_char(i) {
            assert(s@.subrange(0, np as int)[i as int] != p@[i as int]);
            return false;
        }
        i = i + 1;
    }
    proof {
        assert(p@ =~= s@.subrange(0, np as int));
    }
    true
}

/// Index of the first line that begins with the header `h`, or `-1`.
pub open spec fn find_prefix_line(ls: Seq<Seq<char>>, h: Seq<char>) -> int
    decreases ls.len(),
{
    if ls.len() == 0 {
        -1
    } else if h.is_prefix_of(ls[0]) {
        0
    } else {
        let r = find_prefix_line(ls.drop_first(), h);
        if r == -1 {
            -1
        } else {
            r + 1
        }
    }
}

pub proof fn lemma_find_prefix_line(ls: Seq<Seq<char>>, h: Seq<char>)
    ensures
        ({
            let r = find_prefix_line(ls, h);
            &&& r == -1 ==> forall|j: int| 0 <= j < ls.len() ==> !h.is_prefix_of(#[trigger] ls[j])
            &&& r != -1 ==> 0 <= r < ls.len() && h.is_prefix_of(ls[r]) && forall|j: int|
                0 <= j < r ==> !h.is_prefix_of(#[trigger] ls[j])
        }),
    decreases ls.len(),
{
    if ls.len() > 0 && !h.is_prefix_of(ls[0]) {
        lemma_find_prefix_line(ls.drop_first(), h);
        assert(forall|j: int| 1 <= j < ls.len() ==> #[trigger] ls[j] == ls.drop_first()[j - 1]);
    }
}

/// Finds the first line beginning with `h`, matching [`find_prefix_line`].
pub fn find_header_line(ls: &Vec<&str>, h: &str) -> (r: Option<usize>)
    ensures
        match r {
            Some(i) => i < ls@.len() && find_prefix_line(ls.deep_view(), h@) == i,
            None => find_prefix_line(ls.deep_view(), h@) == -1,
        },
{
    let ghost lv = ls.deep_view();
    let n = ls.len();
    let mut i: usize = 0;
    while i < n
        invariant
            0 <= i <= n,
            n == ls@.len(),
            lv == ls.deep_view(),
            lv.len() == n,
            forall|j: int| 0 <= j < i ==> !h@.is_prefix_of(#[trigger] lv[j]),
        decreases n - i,
    {
        if starts_with_str(ls[i], h) {
            proof {
                assert(lv[i as int] == ls@[i as int]@);
                lemma_find_prefix_line(lv, h@);
            }
            return Some(i);
        }
        i = i + 1;
    }
    proof {
        lemma_find_prefix_line(lv, h@);
    }
    None
}

} // verus!
