//! The template expansion engine. A template is scanned in four fixed
//! passes — sed-style substitution, field access, regex capture, literal
//! placeholder — each rewriting the constructs it recognises. Every
//! construct's substitution text is computed from the original input line,
//! never from an earlier pass's output, while the rewritten template text
//! flows from one pass to the next.

use vstd::prelude::*;
use crate::fields::{FieldMod, field_expansion, find_first, lemma_find_first_bounds};
use crate::rx::{capture_of, regex_valid, replace_all_of, replace_first_of};
use crate::text::{digits_val, is_digit};

verus! {

/// How many decimal digit characters stand at the front of `t`.
pub open spec fn leading_digits(t: Seq<char>) -> int
    decreases t.len(),
{
    if t.len() == 0 || !is_digit(t[0]) {
        0
    } else {
        1 + leading_digits(t.drop_first())
    }
}

/// The digit run is within bounds, all digits, and maximal.
pub proof fn lemma_leading_digits(t: Seq<char>)
    ensures
        0 <= leading_digits(t) <= t.len(),
        forall|j: int| 0 <= j < leading_digits(t) ==> is_digit(t[j]),
        leading_digits(t) < t.len() ==> !is_digit(t[leading_digits(t)]),
    decreases t.len(),
{
    if t.len() != 0 && is_digit(t[0]) {
        lemma_leading_digits(t.drop_first());
        assert(forall|j: int| 1 <= j < t.len() ==> t[j] == t.drop_first()[j - 1]);
    }
}

/// A sed construct `<open>s/PATTERN/REPLACEMENT/FLAGS<close>` at the start
/// of `t`: the pattern (non-empty, up to the first `/`), the replacement
/// (up to the next `/`), the flags (up to the first close delimiter after
/// that), and the construct's length.
pub open spec fn parse_sed(t: Seq<char>, open: char, close: char) -> Option<(Seq<char>, Seq<char>, Seq<char>, int)> {
    if t.len() >= 3 && t[0] == open && t[1] == 's' && t[2] == '/' {
        let body = t.skip(3);
        match find_first(body, seq!['/']) {
            Some(i1) => {
                if i1 >= 1 {
                    let pat = body.subrange(0, i1);
                    let rest1 = body.skip(i1 + 1);
                    match find_first(rest1, seq!['/']) {
                        Some(i2) => {
                            let rep = rest1.subrange(0, i2);
                            let rest2 = rest1.skip(i2 + 1);
                            match find_first(rest2, seq![close]) {
                                Some(i3) => Some(
                                    (pat, rep, rest2.subrange(0, i3), 3 + i1 + 1 + i2 + 1 + i3 + 1),
                                ),
                                None => None,
                            }
                        },
                        None => None,
                    }
                } else {
                    None
                }
            },
            None => None,
        }
    } else {
        None
    }
}

/// A recognised sed construct spans at least one and at most all of `t`'s
/// characters.
pub proof fn lemma_parse_sed_len(t: Seq<char>, open: char, close: char)
    ensures
        parse_sed(t, open, close) matches Some(p) ==> 1 <= p.3 <= t.len(),
{
    if t.len() >= 3 && t[0] == open && t[1] == 's' && t[2] == '/' {
        let body = t.skip(3);
        lemma_find_first_bounds(body, seq!['/']);
        match find_first(body, seq!['/']) {
            Some(i1) => {
                let rest1 = body.skip(i1 + 1);
                lemma_find_first_bounds(rest1, seq!['/']);
                match find_first(rest1, seq!['/']) {
                    Some(i2) => {
                        let rest2 = rest1.skip(i2 + 1);
                        lemma_find_first_bounds(rest2, seq![close]);
                    },
                    None => {},
                }
            },
            None => {},
        }
    }
}

/// A field construct `<open>N<close>`, `<open>N+<close>` or
/// `<open>N-<close>` at the start of `t`: the digit run, the requested
/// form, and the construct's length.
pub open spec fn parse_field(t: Seq<char>, open: char, close: char) -> Option<(Seq<char>, FieldMod, int)> {
    if t.len() >= 1 && t[0] == open {
        let d = leading_digits(t.skip(1));
        if d == 0 {
            None
        } else {
            let ds = t.subrange(1, 1 + d);
            let after = 1 + d;
            if after + 1 < t.len() && t[after] == '+' && t[after + 1] == close {
                Some((ds, FieldMod::Tail, after + 2))
            } else if after + 1 < t.len() && t[after] == '-' && t[after + 1] == close {
                Some((ds, FieldMod::Head, after + 2))
            } else if after < t.len() && t[after] == close {
                Some((ds, FieldMod::Plain, after + 1))
            } else {
                None
            }
        }
    } else {
        None
    }
}

/// A recognised field construct spans at least one and at most all of
/// `t`'s characters.
pub proof fn lemma_parse_field_len(t: Seq<char>, open: char, close: char)
    ensures
        parse_field(t, open, close) matches Some(p) ==> 1 <= p.2 <= t.len(),
{
    if t.len() >= 1 && t[0] == open {
        lemma_leading_digits(t.skip(1));
    }
}

/// A capture construct `<open>/PATTERN/G<close>` at the start of `t`: the
/// pattern (non-empty, up to the next `/`), the group's digit run, and the
/// construct's length.
pub open spec fn parse_capture(t: Seq<char>, open: char, close: char) -> Option<(Seq<char>, Seq<char>, int)> {
    if t.len() >= 2 && t[0] == open && t[1] == '/' {
        let body = t.skip(2);
        match find_first(body, seq!['/']) {
            Some(i1) => {
                if i1 >= 1 {
                    let pat = body.subrange(0, i1);
                    let rest1 = body.skip(i1 + 1);
                    let d = leading_digits(rest1);
                    if d >= 1 && d < rest1.len() && rest1[d] == close {
                        Some((pat, rest1.subrange(0, d), 2 + i1 + 1 + d + 1))
                    } else {
                        None
                    }
                } else {
                    None
                }
            },
            None => None,
        }
    } else {
        None
    }
}

/// A recognised capture construct spans at least one and at most all of
/// `t`'s characters.
pub proof fn lemma_parse_capture_len(t: Seq<char>, open: char, close: char)
    ensures
        parse_capture(t, open, close) matches Some(p) ==> 1 <= p.2 <= t.len(),
{
    if t.len() >= 2 && t[0] == open && t[1] == '/' {
        let body = t.skip(2);
        lemma_find_first_bounds(body, seq!['/']);
        match find_first(body, seq!['/']) {
            Some(i1) => {
                lemma_leading_digits(body.skip(i1 + 1));
            },
            None => {},
        }
    }
}

/// What one sed construct turns into: the pattern — case-insensitive when
/// flag `i` is present — is run against the input line, replacing all
/// matches with flag `g` and otherwise the first; a pattern that does not
/// compile leaves the construct's own text (`span`) unchanged.
pub open spec fn sed_replacement(
    pat: Seq<char>,
    rep: Seq<char>,
    flags: Seq<char>,
    line: Seq<char>,
    span: Seq<char>,
) -> Seq<char> {
    let full_pat = if flags.contains('i') {
        seq!['(', '?', 'i', ')'] + pat
    } else {
        pat
    };
    if regex_valid(full_pat) {
        if flags.contains('g') {
            replace_all_of(full_pat, line, rep)
        } else {
            replace_first_of(full_pat, line, rep)
        }
    } else {
        span
    }
}

/// What one capture construct turns into: the requested group's text, or
/// the empty string when the pattern does not compile, does not match the
/// line, or the group is absent. A group index too large to address any
/// group yields the empty string as well.
pub open spec fn capture_replacement(pat: Seq<char>, ds: Seq<char>, line: Seq<char>) -> Seq<char> {
    if digits_val(ds) > usize::MAX as nat {
        Seq::empty()
    } else {
        match capture_of(pat, line, digits_val(ds)) {
            Some(s) => s,
            None => Seq::empty(),
        }
    }
}

/// Pass 1: rewrite every sed construct, left to right, non-overlapping.
pub open spec fn sed_pass(t: Seq<char>, line: Seq<char>, open: char, close: char) -> Seq<char>
    decreases t.len(),
    via sed_pass_decreases
{
    if t.len() == 0 {
        Seq::empty()
    } else {
        match parse_sed(t, open, close) {
            Some((pat, rep, flags, len)) => sed_replacement(pat, rep, flags, line, t.subrange(0, len))
                + sed_pass(t.skip(len), line, open, close),
            None => seq![t[0]] + sed_pass(t.drop_first(), line, open, close),
        }
    }
}

#[via_fn]
proof fn sed_pass_decreases(t: Seq<char>, line: Seq<char>, open: char, close: char) {
    lemma_parse_sed_len(t, open, close);
}

/// Pass 2: rewrite every field construct, left to right, non-overlapping.
pub open spec fn field_pass(
    t: Seq<char>,
    line: Seq<char>,
    sep: Seq<char>,
    open: char,
    close: char,
) -> Seq<char>
    decreases t.len(),
    via field_pass_decreases
{
    if t.len() == 0 {
        Seq::empty()
    } else {
        match parse_field(t, open, close) {
            Some((ds, m, len)) => field_expansion(line, sep, digits_val(ds), m)
                + field_pass(t.skip(len), line, sep, open, close),
            None => seq![t[0]] + field_pass(t.drop_first(), line, sep, open, close),
        }
    }
}

#[via_fn]
proof fn field_pass_decreases(t: Seq<char>, line: Seq<char>, sep: Seq<char>, open: char, close: char) {
    lemma_parse_field_len(t, open, close);
}

/// Pass 3: rewrite every capture construct, left to right, non-overlapping.
pub open spec fn capture_pass(t: Seq<char>, line: Seq<char>, open: char, close: char) -> Seq<char>
    decreases t.len(),
    via capture_pass_decreases
{
    if t.len() == 0 {
        Seq::empty()
    } else {
        match parse_capture(t, open, close) {
            Some((pat, ds, len)) => capture_replacement(pat, ds, line)
                + capture_pass(t.skip(len), line, open, close),
            None => seq![t[0]] + capture_pass(t.drop_first(), line, open, close),
        }
    }
}

#[via_fn]
proof fn capture_pass_decreases(t: Seq<char>, line: Seq<char>, open: char, close: char) {
    lemma_parse_capture_len(t, open, close);
}

/// Pass 4: replace every remaining literal occurrence of the full
/// placeholder string with the full, unmodified line.
pub open spec fn literal_pass(t: Seq<char>, line: Seq<char>, ph: Seq<char>) -> Seq<char>
    decreases t.len(),
{
    if ph.len() == 0 || t.len() == 0 {
        t
    } else if t.len() >= ph.len() && t.subrange(0, ph.len() as int) == ph {
        line + literal_pass(t.skip(ph.len() as int), line, ph)
    } else {
        seq![t[0]] + literal_pass(t.drop_first(), line, ph)
    }
}

/// The whole expansion: the four passes in order, with the open and close
/// delimiters taken from the first and last characters of the placeholder
/// string. An empty placeholder leaves the template untouched.
pub open spec fn spec_expand(
    template: Seq<char>,
    line: Seq<char>,
    sep: Seq<char>,
    ph: Seq<char>,
) -> Seq<char> {
    if ph.len() == 0 {
        template
    } else {
        let open = ph[0];
        let close = ph.last();
        literal_pass(
            capture_pass(field_pass(sed_pass(template, line, open, close), line, sep, open, close), line, open, close),
            line,
            ph,
        )
    }
}

/// A sed construct whose pattern does not compile leaves its own text
/// verbatim in the pass's output: nothing is substituted and no error is
/// raised.
pub proof fn lemma_bad_sed_pattern_verbatim(
    t: Seq<char>,
    line: Seq<char>,
    open: char,
    close: char,
    pat: Seq<char>,
    rep: Seq<char>,
    flags: Seq<char>,
    len: int,
)
    requires
        parse_sed(t, open, close) == Some((pat, rep, flags, len)),
        !regex_valid(
            if flags.contains('i') {
                seq!['(', '?', 'i', ')'] + pat
            } else {
                pat
            },
        ),
    ensures
        sed_pass(t, line, open, close) == t.subrange(0, len) + sed_pass(
            t.skip(len),
            line,
            open,
            close,
        ),
{
    lemma_parse_sed_len(t, open, close);
}

/// Whether `v` begins with `prefix`.
fn starts_with(v: &Vec<char>, prefix: &Vec<char>) -> (r: bool)
    ensures
        r == (v@.len() >= prefix@.len() && v@.subrange(0, prefix@.len() as int) == prefix@),
{
    if v.len() < prefix.len() {
        return false;
    }
    let mut k: usize = 0;
    while k < prefix.len()
        invariant
            k <= prefix@.len() <= v@.len(),
            v@.subrange(0, k as int) =~= prefix@.subrange(0, k as int),
        decreases prefix@.len() - k,
    {
        if v[k] != prefix[k] {
            proof {
                assert(v@.subrange(0, prefix@.len() as int)[k as int] == v@[k as int]);
                assert(prefix@.subrange(0, prefix@.len() as int) =~= prefix@);
            }
            return false;
        }
        proof {
            assert(v@.subrange(0, k + 1) =~= v@.subrange(0, k as int).push(v@[k as int]));
            assert(prefix@.subrange(0, k + 1)
                =~= prefix@.subrange(0, k as int).push(prefix@[k as int]));
        }
        k += 1;
    }
    proof {
        assert(prefix@.subrange(0, prefix@.len() as int) =~= prefix@);
    }
    true
}

/// Length of the run of decimal digits in `t` starting at `start`.
fn scan_digits(t: &Vec<char>, start: usize) -> (d: usize)
    requires
        start <= t@.len(),
    ensures
        d as int == leading_digits(t@.skip(start as int)),
        start + d <= t@.len(),
{
    proof {
        lemma_leading_digits(t@.skip(start as int));
    }
    let ghost s = t@.skip(start as int);
    let mut i: usize = start;
    while i < t.len() && crate::text::char_is_digit(t[i])
        invariant
            start <= i <= t@.len(),
            s == t@.skip(start as int),
            forall|j: int| 0 <= j < i - start ==> is_digit(s[j]),
        decreases t@.len() - i,
    {
        i += 1;
    }
    proof {
        let cnt = i - start;
        let d = leading_digits(s);
        if cnt < d {
            assert(is_digit(s[cnt as int]));
            assert(s[cnt as int] == t@[i as int]);
            assert(false);
        }
        if d < cnt {
            assert(is_digit(s[d]));
            assert(!is_digit(s[d]));
        }
    }
    i - start
}

/// Executable recogniser for a sed construct at the start of `t`.
fn parse_sed_at(t: &Vec<char>, open: char, close: char) -> (r: Option<(Vec<char>, Vec<char>, Vec<char>, usize)>)
    ensures
        match r {
            Some(p) => parse_sed(t@, open, close) == Some((p.0@, p.1@, p.2@, p.3 as int)),
            None => parse_sed(t@, open, close) is None,
        },
{
    if !(t.len() >= 3 && t[0] == open && t[1] == 's' && t[2] == '/') {
        return None;
    }
    let tl = t.len();
    let body = crate::text::copy_range(t, 3, tl);
    proof {
        assert(body@ =~= t@.skip(3));
    }
    let mut slash: Vec<char> = Vec::new();
    slash.push('/');
    proof {
        assert(slash@ =~= seq!['/']);
        lemma_find_first_bounds(body@, seq!['/']);
    }
    let i1 = match crate::fields::find_sub(&body, &slash) {
        Some(i1) => i1,
        None => {
            return None;
        },
    };
    if i1 < 1 {
        return None;
    }
    let pat = crate::text::copy_range(&body, 0, i1);
    let bl = body.len();
    let rest1 = crate::text::copy_range(&body, i1 + 1, bl);
    proof {
        assert(pat@ =~= t@.skip(3).subrange(0, i1 as int));
        assert(rest1@ =~= t@.skip(3).skip(i1 + 1));
        lemma_find_first_bounds(rest1@, seq!['/']);
    }
    let i2 = match crate::fields::find_sub(&rest1, &slash) {
        Some(i2) => i2,
        None => {
            return None;
        },
    };
    let rep = crate::text::copy_range(&rest1, 0, i2);
    let r1l = rest1.len();
    let rest2 = crate::text::copy_range(&rest1, i2 + 1, r1l);
    let mut closev: Vec<char> = Vec::new();
    closev.push(close);
    proof {
        assert(closev@ =~= seq![close]);
        assert(rep@ =~= rest1@.subrange(0, i2 as int));
        assert(rest2@ =~= rest1@.skip(i2 + 1));
        lemma_find_first_bounds(rest2@, seq![close]);
    }
    let i3 = match crate::fields::find_sub(&rest2, &closev) {
        Some(i3) => i3,
        None => {
            return None;
        },
    };
    let flags = crate::text::copy_range(&rest2, 0, i3);
    proof {
        assert(flags@ =~= rest2@.subrange(0, i3 as int));
        assert(3 + (i1 + 1) + (i2 + 1) + (i3 + 1) <= t@.len());
    }
    let len: usize = 3 + i1 + 1 + i2 + 1 + i3 + 1;
    Some((pat, rep, flags, len))
}

/// Executable recogniser for a field construct at the start of `t`.
fn parse_field_at(t: &Vec<char>, open: char, close: char) -> (r: Option<(Vec<char>, FieldMod, usize)>)
    ensures
        match r {
            Some(p) => parse_field(t@, open, close) == Some((p.0@, p.1, p.2 as int)),
            None => parse_field(t@, open, close) is None,
        },
{
    if !(t.len() >= 1 && t[0] == open) {
        return None;
    }
    let d = scan_digits(t, 1);
    if d == 0 {
        return None;
    }
    proof {
        assert(leading_digits(t@.skip(1)) == d as int);
    }
    let ds = crate::text::copy_range(t, 1, 1 + d);
    proof {
        assert(ds@ =~= t@.subrange(1, 1 + d));
    }
    let after: usize = 1 + d;
    if after < t.len() && t[after] == '+' && after + 1 < t.len() && t[after + 1] == close {
        Some((ds, FieldMod::Tail, after + 2))
    } else if after < t.len() && t[after] == '-' && after + 1 < t.len() && t[after + 1] == close {
        Some((ds, FieldMod::Head, after + 2))
    } else if after < t.len() && t[after] == close {
        Some((ds, FieldMod::Plain, after + 1))
    } else {
        None
    }
}

/// Executable recogniser for a capture construct at the start of `t`.
fn parse_capture_at(t: &Vec<char>, open: char, close: char) -> (r: Option<(Vec<char>, Vec<char>, usize)>)
    ensures
        match r {
            Some(p) => parse_capture(t@, open, close) == Some((p.0@, p.1@, p.2 as int)),
            None => parse_capture(t@, open, close) is None,
        },
{
    if !(t.len() >= 2 && t[0] == open && t[1] == '/') {
        return None;
    }
    let tl = t.len();
    let body = crate::text::copy_range(t, 2, tl);
    proof {
        assert(body@ =~= t@.skip(2));
    }
    let mut slash: Vec<char> = Vec::new();
    slash.push('/');
    proof {
        assert(slash@ =~= seq!['/']);
        lemma_find_first_bounds(body@, seq!['/']);
    }
    let i1 = match crate::fields::find_sub(&body, &slash) {
        Some(i1) => i1,
        None => {
            return None;
        },
    };
    if i1 < 1 {
        return None;
    }
    let pat = crate::text::copy_range(&body, 0, i1);
    let bl = body.len();
    let rest1 = crate::text::copy_range(&body, i1 + 1, bl);
    proof {
        assert(pat@ =~= t@.skip(2).subrange(0, i1 as int));
        assert(rest1@ =~= t@.skip(2).skip(i1 + 1));
    }
    let d = scan_digits(&rest1, 0);
    proof {
        assert(rest1@.skip(0) =~= rest1@);
    }
    if d >= 1 && d < rest1.len() && rest1[d] == close {
        let ds = crate::text::copy_range(&rest1, 0, d);
        proof {
            assert(ds@ =~= rest1@.subrange(0, d as int));
        }
        Some((pat, ds, 2 + i1 + 1 + d + 1))
    } else {
        None
    }
}

/// Executable pass 1 over the whole template.
fn sed_pass_exec(t: &Vec<char>, line: &str, open: char, close: char) -> (r: Vec<char>)
    ensures
        r@ == sed_pass(t@, line@, open, close),
{
    let mut out: Vec<char> = Vec::new();
    let tl = t.len();
    let mut rest = crate::text::copy_range(t, 0, tl);
    proof {
        assert(rest@ =~= t@);
    }
    while rest.len() > 0
        invariant
            out@ + sed_pass(rest@, line@, open, close) == sed_pass(t@, line@, open, close),
        decreases rest@.len(),
    {
        let ghost prev_out = out@;
        let ghost prev_rest = rest@;
        proof {
            lemma_parse_sed_len(rest@, open, close);
        }
        match parse_sed_at(&rest, open, close) {
            Some((pat, rep, flags, len)) => {
                let has_i = crate::text::contains_char(&flags, 'i');
                let has_g = crate::text::contains_char(&flags, 'g');
                let mut full_pat: Vec<char> = Vec::new();
                if has_i {
                    full_pat.push('(');
                    full_pat.push('?');
                    full_pat.push('i');
                    full_pat.push(')');
                }
                crate::text::extend_chars(&mut full_pat, &pat);
                proof {
                    if has_i {
                        assert(full_pat@ =~= seq!['(', '?', 'i', ')'] + pat@);
                    } else {
                        assert(full_pat@ =~= pat@);
                    }
                }
                let pat_str = crate::text::chars_to_string(&full_pat);
                let rep_str = crate::text::chars_to_string(&rep);
                let res = if has_g {
                    crate::rx::regex_replace_all(pat_str.as_str(), line, rep_str.as_str())
                } else {
                    crate::rx::regex_replace_first(pat_str.as_str(), line, rep_str.as_str())
                };
                let ghost span = prev_rest.subrange(0, len as int);
                let ghost repl = sed_replacement(pat@, rep@, flags@, line@, span);
                match res {
                    Some(s) => {
                        let sc = crate::text::str_to_chars(s.as_str());
                        crate::text::extend_chars(&mut out, &sc);
                        proof {
                            assert(regex_valid(full_pat@));
                            assert(out@ == prev_out + repl);
                        }
                    },
                    None => {
                        let span_v = crate::text::copy_range(&rest, 0, len);
                        crate::text::extend_chars(&mut out, &span_v);
                        proof {
                            assert(!regex_valid(full_pat@));
                            assert(span_v@ =~= span);
                            assert(out@ == prev_out + repl);
                        }
                    },
                }
                let rl = rest.len();
                let new_rest = crate::text::copy_range(&rest, len, rl);
                proof {
                    assert(new_rest@ =~= prev_rest.skip(len as int));
                    assert(sed_pass(prev_rest, line@, open, close)
                        == repl + sed_pass(new_rest@, line@, open, close));
                    assert(prev_out + (repl + sed_pass(new_rest@, line@, open, close))
                        =~= out@ + sed_pass(new_rest@, line@, open, close));
                }
                rest = new_rest;
            },
            None => {
                out.push(rest[0]);
                let rl = rest.len();
                let new_rest = crate::text::copy_range(&rest, 1, rl);
                proof {
                    assert(new_rest@ =~= prev_rest.drop_first());
                    assert(out@ =~= prev_out + seq![prev_rest[0]]);
                    assert(prev_out + (seq![prev_rest[0]] + sed_pass(new_rest@, line@, open, close))
                        =~= out@ + sed_pass(new_rest@, line@, open, close));
                }
                rest = new_rest;
            },
        }
    }
    proof {
        assert(out@ + sed_pass(rest@, line@, open, close) =~= out@);
    }
    out
}

/// Expands one field construct whose digit run is `ds`; a value too large
/// for `usize` is beyond any field count and yields the empty string.
fn expand_field_digits(line: &Vec<char>, sep: &Vec<char>, ds: &Vec<char>, m: FieldMod) -> (r: Vec<char>)
    requires
        forall|j: int| 0 <= j < ds@.len() ==> is_digit(ds@[j]),
    ensures
        r@ == field_expansion(line@, sep@, digits_val(ds@), m),
{
    match crate::text::parse_digits(ds) {
        Some(n) => crate::fields::expand_field(line, sep, n, m),
        None => {
            let fields = crate::fields::split_line(line, sep);
            let fl = fields.len();
            proof {
                assert(fl as nat == fields.deep_view().len());
                assert(digits_val(ds@) > fields.deep_view().len());
            }
            Vec::new()
        },
    }
}

/// Executable pass 2 over the template text left by pass 1.
fn field_pass_exec(t: &Vec<char>, line: &Vec<char>, sep: &Vec<char>, open: char, close: char) -> (r: Vec<char>)
    ensures
        r@ == field_pass(t@, line@, sep@, open, close),
{
    let mut out: Vec<char> = Vec::new();
    let tl = t.len();
    let mut rest = crate::text::copy_range(t, 0, tl);
    proof {
        assert(rest@ =~= t@);
    }
    while rest.len() > 0
        invariant
            out@ + field_pass(rest@, line@, sep@, open, close) == field_pass(t@, line@, sep@, open, close),
        decreases rest@.len(),
    {
        let ghost prev_out = out@;
        let ghost prev_rest = rest@;
        proof {
            lemma_parse_field_len(rest@, open, close);
        }
        match parse_field_at(&rest, open, close) {
            Some((ds, m, len)) => {
                proof {
                    lemma_leading_digits(prev_rest.skip(1));
                    assert(forall|j: int| 0 <= j < ds@.len() ==> is_digit(ds@[j]));
                }
                let piece = expand_field_digits(line, sep, &ds, m);
                crate::text::extend_chars(&mut out, &piece);
                let ghost repl = field_expansion(line@, sep@, digits_val(ds@), m);
                let rl = rest.len();
                let new_rest = crate::text::copy_range(&rest, len, rl);
                proof {
                    assert(new_rest@ =~= prev_rest.skip(len as int));
                    assert(field_pass(prev_rest, line@, sep@, open, close)
                        == repl + field_pass(new_rest@, line@, sep@, open, close));
                    assert(prev_out + (repl + field_pass(new_rest@, line@, sep@, open, close))
                        =~= out@ + field_pass(new_rest@, line@, sep@, open, close));
                }
                rest = new_rest;
            },
            None => {
                out.push(rest[0]);
                let rl = rest.len();
                let new_rest = crate::text::copy_range(&rest, 1, rl);
                proof {
                    assert(new_rest@ =~= prev_rest.drop_first());
                    assert(out@ =~= prev_out + seq![prev_rest[0]]);
                    assert(prev_out + (seq![prev_rest[0]] + field_pass(new_rest@, line@, sep@, open, close))
                        =~= out@ + field_pass(new_rest@, line@, sep@, open, close));
                }
                rest = new_rest;
            },
        }
    }
    proof {
        assert(out@ + field_pass(rest@, line@, sep@, open, close) =~= out@);
    }
    out
}

/// Executable pass 3 over the template text left by pass 2.
fn capture_pass_exec(t: &Vec<char>, line: &str, open: char, close: char) -> (r: Vec<char>)
    ensures
        r@ == capture_pass(t@, line@, open, close),
{
    let mut out: Vec<char> = Vec::new();
    let tl = t.len();
    let mut rest = crate::text::copy_range(t, 0, tl);
    proof {
        assert(rest@ =~= t@);
    }
    while rest.len() > 0
        invariant
            out@ + capture_pass(rest@, line@, open, close) == capture_pass(t@, line@, open, close),
        decreases rest@.len(),
    {
        let ghost prev_out = out@;
        let ghost prev_rest = rest@;
        proof {
            lemma_parse_capture_len(rest@, open, close);
        }
        match parse_capture_at(&rest, open, close) {
            Some((pat, ds, len)) => {
                let ghost repl = capture_replacement(pat@, ds@, line@);
                proof {
                    match find_first(prev_rest.skip(2), seq!['/']) {
                        Some(i1) => {
                            lemma_leading_digits(prev_rest.skip(2).skip(i1 + 1));
                            assert(ds@ =~= prev_rest.skip(2).skip(i1 + 1).subrange(
                                0,
                                leading_digits(prev_rest.skip(2).skip(i1 + 1)),
                            ));
                        },
                        None => {
                            assert(false);
                        },
                    }
                    assert(forall|j: int| 0 <= j < ds@.len() ==> is_digit(ds@[j]));
                }
                match crate::text::parse_digits(&ds) {
                    Some(g) => {
                        let pat_str = crate::text::chars_to_string(&pat);
                        match crate::rx::regex_capture(pat_str.as_str(), line, g) {
                            Some(s) => {
                                let sc = crate::text::str_to_chars(s.as_str());
                                crate::text::extend_chars(&mut out, &sc);
                                proof {
                                    assert(out@ == prev_out + repl);
                                }
                            },
                            None => {
                                proof {
                                    assert(repl =~= Seq::<char>::empty());
                                    assert(out@ =~= prev_out + repl);
                                }
                            },
                        }
                    },
                    None => {
                        proof {
                            assert(digits_val(ds@) > usize::MAX as nat);
                            assert(repl =~= Seq::<char>::empty());
                            assert(out@ =~= prev_out + repl);
                        }
                    },
                }
                let rl = rest.len();
                let new_rest = crate::text::copy_range(&rest, len, rl);
                proof {
                    assert(new_rest@ =~= prev_rest.skip(len as int));
                    assert(capture_pass(prev_rest, line@, open, close)
                        == repl + capture_pass(new_rest@, line@, open, close));
                    assert(prev_out + (repl + capture_pass(new_rest@, line@, open, close))
                        =~= out@ + capture_pass(new_rest@, line@, open, close));
                }
                rest = new_rest;
            },
            None => {
                out.push(rest[0]);
                let rl = rest.len();
                let new_rest = crate::text::copy_range(&rest, 1, rl);
                proof {
                    assert(new_rest@ =~= prev_rest.drop_first());
                    assert(out@ =~= prev_out + seq![prev_rest[0]]);
                    assert(prev_out + (seq![prev_rest[0]] + capture_pass(new_rest@, line@, open, close))
                        =~= out@ + capture_pass(new_rest@, line@, open, close));
                }
                rest = new_rest;
            },
        }
    }
    proof {
        assert(out@ + capture_pass(rest@, line@, open, close) =~= out@);
    }
    out
}

/// Executable pass 4 over the template text left by pass 3.
fn literal_pass_exec(t: &Vec<char>, line: &Vec<char>, ph: &Vec<char>) -> (r: Vec<char>)
    ensures
        r@ == literal_pass(t@, line@, ph@),
{
    let tl = t.len();
    if ph.len() == 0 {
        let r = crate::text::copy_range(t, 0, tl);
        proof {
            assert(r@ =~= t@);
        }
        return r;
    }
    let mut out: Vec<char> = Vec::new();
    let mut rest = crate::text::copy_range(t, 0, tl);
    proof {
        assert(rest@ =~= t@);
    }
    while rest.len() > 0
        invariant
            ph@.len() >= 1,
            out@ + literal_pass(rest@, line@, ph@) == literal_pass(t@, line@, ph@),
        decreases rest@.len(),
    {
        let ghost prev_out = out@;
        let ghost prev_rest = rest@;
        if starts_with(&rest, ph) {
            crate::text::extend_chars(&mut out, line);
            let rl = rest.len();
            let new_rest = crate::text::copy_range(&rest, ph.len(), rl);
            proof {
                assert(new_rest@ =~= prev_rest.skip(ph@.len() as int));
                assert(literal_pass(prev_rest, line@, ph@)
                    == line@ + literal_pass(new_rest@, line@, ph@));
                assert(prev_out + (line@ + literal_pass(new_rest@, line@, ph@))
                    =~= out@ + literal_pass(new_rest@, line@, ph@));
            }
            rest = new_rest;
        } else {
            out.push(rest[0]);
            let rl = rest.len();
            let new_rest = crate::text::copy_range(&rest, 1, rl);
            proof {
                assert(new_rest@ =~= prev_rest.drop_first());
                assert(out@ =~= prev_out + seq![prev_rest[0]]);
                assert(prev_out + (seq![prev_rest[0]] + literal_pass(new_rest@, line@, ph@))
                    =~= out@ + literal_pass(new_rest@, line@, ph@));
            }
            rest = new_rest;
        }
    }
    proof {
        assert(out@ + literal_pass(rest@, line@, ph@) =~= out@);
    }
    out
}

/// Expands `template` against one input line: sed substitutions, field
/// accesses and regex captures are computed from the unmodified `line`,
/// and every leftover literal placeholder is replaced by the whole line.
/// Total for every input; malformed constructs pass through untouched and
/// bad patterns degrade as [`sed_replacement`] and [`capture_replacement`]
/// state.
pub fn expand_template(template: &str, line: &str, field_separator: &str, placeholder: &str) -> (r: String)
    ensures
        r@ == spec_expand(template@, line@, field_separator@, placeholder@),
{
    let ph = crate::text::str_to_chars(placeholder);
    if ph.len() == 0 {
        return template.to_owned();
    }
    let open = ph[0];
    let close = ph[ph.len() - 1];
    proof {
        assert(close == placeholder@.last());
    }
    let t = crate::text::str_to_chars(template);
    let line_chars = crate::text::str_to_chars(line);
    let sep = crate::text::str_to_chars(field_separator);
    let s1 = sed_pass_exec(&t, line, open, close);
    let s2 = field_pass_exec(&s1, &line_chars, &sep, open, close);
    let s3 = capture_pass_exec(&s2, line, open, close);
    let s4 = literal_pass_exec(&s3, &line_chars, &ph);
    crate::text::chars_to_string(&s4)
}

} // verus!
