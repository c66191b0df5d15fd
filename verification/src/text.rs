//! Character-level utilities shared by the template engine and the job
//! pipeline: whitespace classification, end trimming, line-ending removal,
//! decimal rendering of job ids, and conversion between `String` and
//! `Vec<char>` working buffers.

use vstd::prelude::*;
use vstd::string::*;

verus! {

/// The characters with the Unicode `White_Space` property, the set that
/// `str::trim` removes at either end of a string.
pub open spec fn is_space(c: char) -> bool {
    c == ' ' || c == '\t' || c == '\n' || c == '\r' || c == '\u{b}' || c == '\u{c}'
        || c == '\u{85}' || c == '\u{a0}' || c == '\u{1680}' || c == '\u{2000}'
        || c == '\u{2001}' || c == '\u{2002}' || c == '\u{2003}' || c == '\u{2004}'
        || c == '\u{2005}' || c == '\u{2006}' || c == '\u{2007}' || c == '\u{2008}'
        || c == '\u{2009}' || c == '\u{200a}' || c == '\u{2028}' || c == '\u{2029}'
        || c == '\u{202f}' || c == '\u{205f}' || c == '\u{3000}'
}

/// Executable counterpart of [`is_space`].
pub fn char_is_space(c: char) -> (r: bool)
    ensures
        r == is_space(c),
{
    c == ' ' || c == '\t' || c == '\n' || c == '\r' || c == '\u{b}' || c == '\u{c}'
        || c == '\u{85}' || c == '\u{a0}' || c == '\u{1680}' || c == '\u{2000}'
        || c == '\u{2001}' || c == '\u{2002}' || c == '\u{2003}' || c == '\u{2004}'
        || c == '\u{2005}' || c == '\u{2006}' || c == '\u{2007}' || c == '\u{2008}'
        || c == '\u{2009}' || c == '\u{200a}' || c == '\u{2028}' || c == '\u{2029}'
        || c == '\u{202f}' || c == '\u{205f}' || c == '\u{3000}'
}

/// A line is blank when every character is whitespace; blank lines never
/// become jobs.
pub open spec fn is_blank(s: Seq<char>) -> bool {
    forall|i: int| 0 <= i < s.len() ==> is_space(s[i])
}

/// Executable blankness test over the characters of `s`.
pub fn line_is_blank(s: &str) -> (r: bool)
    ensures
        r == is_blank(s@),
{
    let n: usize = s.unicode_len();
    let mut i: usize = 0;
    while i < n
        invariant
            i <= n,
            n == s@.len(),
            forall|j: int| 0 <= j < i ==> is_space(s@[j]),
        decreases n - i,
    {
        if !char_is_space(s.get_char(i)) {
            return false;
        }
        i += 1;
    }
    true
}

/// `s` with every trailing whitespace character removed.
pub open spec fn trimmed_end(s: Seq<char>) -> Seq<char>
    decreases s.len(),
{
    if s.len() > 0 && is_space(s.last()) {
        trimmed_end(s.drop_last())
    } else {
        s
    }
}

/// Executable end trim: the result holds exactly the characters of `s` up to
/// and including the last non-whitespace one.
pub fn trim_end_str(s: &str) -> (r: String)
    ensures
        r@ == trimmed_end(s@),
{
    let n: usize = s.unicode_len();
    let mut k: usize = n;
    proof {
        assert(s@.take(n as int) =~= s@);
    }
    while k > 0 && char_is_space(s.get_char(k - 1))
        invariant
            k <= n,
            n == s@.len(),
            trimmed_end(s@) == trimmed_end(s@.take(k as int)),
        decreases k,
    {
        proof {
            assert(s@.take(k as int).drop_last() =~= s@.take(k - 1));
        }
        k -= 1;
    }
    proof {
        assert(s@.take(k as int) =~= trimmed_end(s@.take(k as int)));
    }
    let piece = s.substring_char(0, k);
    let r = piece.to_owned();
    proof {
        assert(piece@ =~= s@.take(k as int));
    }
    r
}

/// `s` with one trailing `'\n'` removed, together with the `'\r'` just
/// before it if there is one; anything else is kept as it stands.
pub open spec fn strip_eol(s: Seq<char>) -> Seq<char> {
    if s.len() > 0 && s.last() == '\n' {
        if s.len() > 1 && s[s.len() - 2] == '\r' {
            s.take(s.len() - 2)
        } else {
            s.drop_last()
        }
    } else {
        s
    }
}

/// Removes a final `"\n"` or `"\r\n"` from a line as read from the input
/// stream, leaving every other character in place.
pub fn strip_line_ending(s: &str) -> (r: String)
    ensures
        r@ == strip_eol(s@),
{
    let n: usize = s.unicode_len();
    let mut k: usize = n;
    if n > 0 && s.get_char(n - 1) == '\n' {
        if n > 1 && s.get_char(n - 2) == '\r' {
            k = n - 2;
        } else {
            k = n - 1;
        }
    }
    let piece = s.substring_char(0, k);
    let r = piece.to_owned();
    proof {
        assert(piece@ =~= strip_eol(s@));
    }
    r
}

/// The character for one decimal digit.
pub open spec fn digit_char(d: nat) -> char {
    if d == 0 { '0' }
    else if d == 1 { '1' }
    else if d == 2 { '2' }
    else if d == 3 { '3' }
    else if d == 4 { '4' }
    else if d == 5 { '5' }
    else if d == 6 { '6' }
    else if d == 7 { '7' }
    else if d == 8 { '8' }
    else { '9' }
}

/// The usual decimal rendering of `n`, most significant digit first, with
/// no leading zeros (`0` itself renders as `"0"`).
pub open spec fn dec_digits(n: nat) -> Seq<char>
    decreases n,
{
    if n < 10 {
        seq![digit_char(n)]
    } else {
        dec_digits(n / 10).push(digit_char(n % 10))
    }
}

/// Executable counterpart of [`digit_char`].
fn digit_to_char(d: usize) -> (r: char)
    requires
        d < 10,
    ensures
        r == digit_char(d as nat),
{
    if d == 0 { '0' }
    else if d == 1 { '1' }
    else if d == 2 { '2' }
    else if d == 3 { '3' }
    else if d == 4 { '4' }
    else if d == 5 { '5' }
    else if d == 6 { '6' }
    else if d == 7 { '7' }
    else if d == 8 { '8' }
    else { '9' }
}

/// Appends the decimal rendering of `n` to `out`.
fn push_decimal(n: usize, out: &mut Vec<char>)
    ensures
        final(out)@ == old(out)@ + dec_digits(n as nat),
    decreases n,
{
    if n >= 10 {
        push_decimal(n / 10, out);
    }
    out.push(digit_to_char(n % 10));
    proof {
        assert(final(out)@ =~= old(out)@ + dec_digits(n as nat));
    }
}

/// The decimal rendering of `n` as a `String`; used to tag output with the
/// originating job id.
pub fn usize_to_string(n: usize) -> (r: String)
    ensures
        r@ == dec_digits(n as nat),
{
    let mut v: Vec<char> = Vec::new();
    push_decimal(n, &mut v);
    chars_to_string(&v)
}

/// The characters of `s`, as a growable buffer with the same view.
pub fn str_to_chars(s: &str) -> (r: Vec<char>)
    ensures
        r@ == s@,
{
    let n: usize = s.unicode_len();
    let mut r: Vec<char> = Vec::new();
    let mut i: usize = 0;
    while i < n
        invariant
            i <= n,
            n == s@.len(),
            r@ == s@.take(i as int),
        decreases n - i,
    {
        r.push(s.get_char(i));
        proof {
            assert(r@ =~= s@.take(i + 1));
        }
        i += 1;
    }
    proof {
        assert(r@ =~= s@);
    }
    r
}

/// An ASCII decimal digit.
pub open spec fn is_digit(c: char) -> bool {
    '0' <= c && c <= '9'
}

/// Executable counterpart of [`is_digit`].
pub fn char_is_digit(c: char) -> (r: bool)
    ensures
        r == is_digit(c),
{
    '0' <= c && c <= '9'
}

/// The numeric value of one decimal digit character.
pub open spec fn digit_val(c: char) -> nat {
    (c as int - '0' as int) as nat
}

/// The number written by a string of decimal digits, most significant
/// first.
pub open spec fn digits_val(s: Seq<char>) -> nat
    decreases s.len(),
{
    if s.len() == 0 {
        0
    } else {
        digits_val(s.drop_last()) * 10 + digit_val(s.last())
    }
}

/// Parses a run of decimal digits; `None` reports a value too large for
/// `usize`.
pub fn parse_digits(ds: &Vec<char>) -> (r: Option<usize>)
    requires
        forall|j: int| 0 <= j < ds@.len() ==> is_digit(ds@[j]),
    ensures
        r matches Some(n) ==> n as nat == digits_val(ds@),
        r is None ==> digits_val(ds@) > usize::MAX,
{
    let mut acc: usize = 0;
    let mut over = false;
    let mut i: usize = 0;
    while i < ds.len()
        invariant
            i <= ds@.len(),
            forall|j: int| 0 <= j < ds@.len() ==> is_digit(ds@[j]),
            !over ==> acc as nat == digits_val(ds@.take(i as int)),
            over ==> digits_val(ds@.take(i as int)) > usize::MAX,
        decreases ds@.len() - i,
    {
        let c = ds[i];
        let d: usize = (c as usize) - ('0' as usize);
        proof {
            assert(is_digit(ds@[i as int]));
            assert(d == digit_val(ds@[i as int]));
            assert(ds@.take(i + 1).drop_last() =~= ds@.take(i as int));
            assert(ds@.take(i + 1).last() == ds@[i as int]);
        }
        if over || acc > usize::MAX / 10 || (acc == usize::MAX / 10 && d > usize::MAX % 10) {
            proof {
                if !over {
                    assert(acc * 10 + d > usize::MAX) by (nonlinear_arith)
                        requires
                            acc > usize::MAX / 10 || (acc == usize::MAX / 10 && d > usize::MAX % 10),
                            usize::MAX / 10 == (usize::MAX as int) / 10,
                            usize::MAX % 10 == (usize::MAX as int) % 10,
                    {}
                }
                assert(digits_val(ds@.take(i as int)) * 10 + d >= digits_val(ds@.take(i as int)))
                    by (nonlinear_arith) {}
                assert(digits_val(ds@.take(i as int)) * 10 + d
                    >= acc * 10 + d || over) by (nonlinear_arith)
                    requires
                        over || acc as nat == digits_val(ds@.take(i as int)),
                {}
            }
            over = true;
        } else {
            proof {
                assert(acc * 10 + d <= usize::MAX) by (nonlinear_arith)
                    requires
                        acc <= usize::MAX / 10,
                        acc == usize::MAX / 10 ==> d <= usize::MAX % 10,
                        d <= 9,
                        usize::MAX / 10 == (usize::MAX as int) / 10,
                        usize::MAX % 10 == (usize::MAX as int) % 10,
                {}
            }
            acc = acc * 10 + d;
        }
        i += 1;
    }
    proof {
        assert(ds@.take(ds@.len() as int) =~= ds@);
    }
    if over {
        None
    } else {
        Some(acc)
    }
}

/// Whether `c` occurs in `v`.
pub fn contains_char(v: &Vec<char>, c: char) -> (r: bool)
    ensures
        r == v@.contains(c),
{
    let mut i: usize = 0;
    while i < v.len()
        invariant
            i <= v@.len(),
            forall|j: int| 0 <= j < i ==> v@[j] != c,
        decreases v@.len() - i,
    {
        if v[i] == c {
            return true;
        }
        i += 1;
    }
    false
}

/// Appends every character of `src` to `dst`.
pub fn extend_chars(dst: &mut Vec<char>, src: &Vec<char>)
    ensures
        final(dst)@ == old(dst)@ + src@,
{
    let mut i: usize = 0;
    while i < src.len()
        invariant
            i <= src@.len(),
            dst@ == old(dst)@ + src@.take(i as int),
        decreases src@.len() - i,
    {
        dst.push(src[i]);
        proof {
            assert(dst@ =~= old(dst)@ + src@.take(i + 1));
        }
        i += 1;
    }
    proof {
        assert(old(dst)@ + src@.take(src@.len() as int) =~= old(dst)@ + src@);
    }
}

/// A fresh buffer holding the characters of `v` between `from` and `to`.
pub fn copy_range(v: &Vec<char>, from: usize, to: usize) -> (r: Vec<char>)
    requires
        from <= to <= v@.len(),
    ensures
        r@ == v@.subrange(from as int, to as int),
{
    let mut r: Vec<char> = Vec::new();
    let mut i: usize = from;
    while i < to
        invariant
            from <= i <= to <= v@.len(),
            r@ == v@.subrange(from as int, i as int),
        decreases to - i,
    {
        r.push(v[i]);
        proof {
            assert(r@ =~= v@.subrange(from as int, i + 1));
        }
        i += 1;
    }
    r
}

/// Relies on `String::push`: appends the given character to the end of the
/// string.
#[verifier::external_body]
fn push_char(s: &mut String, c: char)
    ensures
        final(s)@ == old(s)@.push(c),
{
    s.push(c);
}

/// A `String` holding exactly the characters of `v`.
pub fn chars_to_string(v: &Vec<char>) -> (r: String)
    ensures
        r@ == v@,
{
    let mut r = String::new();
    let mut i: usize = 0;
    while i < v.len()
        invariant
            i <= v.len(),
            r@ == v@.take(i as int),
        decreases v.len() - i,
    {
        push_char(&mut r, v[i]);
        proof {
            assert(r@ =~= v@.take(i + 1));
        }
        i += 1;
    }
    proof {
        assert(r@ =~= v@);
    }
    r
}

} // verus!
