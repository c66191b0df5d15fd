//! Splitting an input line into fields on a literal separator, joining
//! ranges of fields back together, and the field-access expansion rules
//! used by the template engine.

use vstd::prelude::*;

verus! {

/// `needle` occurs in `hay` starting at index `i`.
pub open spec fn match_at(hay: Seq<char>, needle: Seq<char>, i: int) -> bool {
    0 <= i && i + needle.len() <= hay.len() && hay.subrange(i, i + needle.len()) == needle
}

/// Index of the leftmost occurrence of `needle` in `hay`, if any.
pub open spec fn find_first(hay: Seq<char>, needle: Seq<char>) -> Option<int>
    decreases hay.len(),
{
    if needle.len() > hay.len() {
        None
    } else if hay.subrange(0, needle.len() as int) == needle {
        Some(0)
    } else if hay.len() == 0 {
        None
    } else {
        match find_first(hay.drop_first(), needle) {
            Some(i) => Some(i + 1),
            None => None,
        }
    }
}

/// A found index is in range, with the needle's length still fitting.
pub proof fn lemma_find_first_bounds(hay: Seq<char>, needle: Seq<char>)
    ensures
        find_first(hay, needle) matches Some(i) ==> 0 <= i && i + needle.len() <= hay.len(),
    decreases hay.len(),
{
    if needle.len() <= hay.len() && hay.subrange(0, needle.len() as int) != needle
        && hay.len() > 0 {
        lemma_find_first_bounds(hay.drop_first(), needle);
    }
}

/// [`find_first`] returns the leftmost match: the found index is a match and
/// nothing before it is; `None` means no index matches at all.
pub proof fn lemma_find_first_is_leftmost(hay: Seq<char>, needle: Seq<char>)
    ensures
        match find_first(hay, needle) {
            Some(i) => match_at(hay, needle, i) && (forall|j: int|
                0 <= j < i ==> !match_at(hay, needle, j)),
            None => forall|j: int| !match_at(hay, needle, j),
        },
    decreases hay.len(),
{
    if needle.len() > hay.len() {
        assert forall|j: int| !match_at(hay, needle, j) by {}
    } else if hay.subrange(0, needle.len() as int) == needle {
        assert(match_at(hay, needle, 0));
    } else if hay.len() == 0 {
    } else {
        lemma_find_first_is_leftmost(hay.drop_first(), needle);
        assert forall|j: int| 1 <= j <= hay.len() implies
            (match_at(hay, needle, j) <==> match_at(hay.drop_first(), needle, j - 1)) by {
            if j + needle.len() <= hay.len() {
                assert(hay.subrange(j, j + needle.len())
                    =~= hay.drop_first().subrange(j - 1, j - 1 + needle.len()));
            }
        }
        assert(!match_at(hay, needle, 0));
    }
}

/// Leftmost occurrence of `needle` in `hay`, executable form.
pub fn find_sub(hay: &Vec<char>, needle: &Vec<char>) -> (r: Option<usize>)
    ensures
        match r {
            Some(i) => find_first(hay@, needle@) == Some(i as int),
            None => find_first(hay@, needle@) is None,
        },
{
    proof {
        lemma_find_first_is_leftmost(hay@, needle@);
        lemma_find_first_bounds(hay@, needle@);
    }
    if needle.len() > hay.len() {
        return None;
    }
    let last_start: usize = hay.len() - needle.len();
    let mut i: usize = 0;
    loop
        invariant
            i <= last_start + 1,
            needle@.len() <= hay@.len(),
            hay@.len() <= usize::MAX,
            last_start == hay@.len() - needle@.len(),
            forall|j: int| 0 <= j < i ==> !match_at(hay@, needle@, j),
            find_first(hay@, needle@) matches Some(k) ==> match_at(hay@, needle@, k)
                && (forall|j: int| 0 <= j < k ==> !match_at(hay@, needle@, j)),
            find_first(hay@, needle@) is None ==> forall|j: int| !match_at(hay@, needle@, j),
        decreases last_start + 1 - i,
    {
        if i > last_start {
            assert(forall|j: int| !match_at(hay@, needle@, j));
            return None;
        }
        let mut k: usize = 0;
        let mut all_eq = true;
        while k < needle.len()
            invariant
                k <= needle@.len(),
                i + needle@.len() <= hay@.len(),
                hay@.len() <= usize::MAX,
                all_eq <==> hay@.subrange(i as int, i + k) =~= needle@.subrange(0, k as int),
            decreases needle@.len() - k,
        {
            proof {
                assert(hay@.subrange(i as int, i + k + 1).drop_last()
                    =~= hay@.subrange(i as int, i + k));
                assert(needle@.subrange(0, k + 1).drop_last()
                    =~= needle@.subrange(0, k as int));
            }
            if hay[i + k] != needle[k] {
                all_eq = false;
                proof {
                    assert(hay@.subrange(i as int, i + k + 1).last() == hay@[i + k]);
                    assert(needle@.subrange(0, k + 1).last() == needle@[k as int]);
                }
            } else {
                proof {
                    if all_eq {
                        assert(hay@.subrange(i as int, i + k + 1)
                            =~= hay@.subrange(i as int, i + k).push(hay@[i + k]));
                        assert(needle@.subrange(0, k + 1)
                            =~= needle@.subrange(0, k as int).push(needle@[k as int]));
                    } else {
                        assert(hay@.subrange(i as int, i + k) != needle@.subrange(0, k as int));
                        assert(hay@.subrange(i as int, i + k + 1).drop_last()
                            != needle@.subrange(0, k + 1).drop_last());
                    }
                }
            }
            k += 1;
        }
        proof {
            assert(needle@.subrange(0, needle@.len() as int) =~= needle@);
        }
        if all_eq {
            assert(match_at(hay@, needle@, i as int));
            return Some(i);
        }
        assert(!match_at(hay@, needle@, i as int));
        assert(needle@.len() >= 1);
        i += 1;
    }
}

/// The fields of `line`, split on the literal separator `sep`, leftmost
/// occurrence first. An empty separator yields the whole line as the one
/// field.
pub open spec fn split_fields(line: Seq<char>, sep: Seq<char>) -> Seq<Seq<char>>
    decreases line.len(),
    via split_fields_decreases
{
    if sep.len() == 0 {
        seq![line]
    } else {
        match find_first(line, sep) {
            Some(i) => seq![line.subrange(0, i)] + split_fields(line.skip(i + sep.len()), sep),
            None => seq![line],
        }
    }
}

#[via_fn]
proof fn split_fields_decreases(line: Seq<char>, sep: Seq<char>) {
    lemma_find_first_bounds(line, sep);
}

/// The fields joined back together with `sep` between neighbours.
pub open spec fn join_fields(fields: Seq<Seq<char>>, sep: Seq<char>) -> Seq<char>
    decreases fields.len(),
{
    if fields.len() == 0 {
        Seq::empty()
    } else if fields.len() == 1 {
        fields[0]
    } else {
        fields[0] + sep + join_fields(fields.drop_first(), sep)
    }
}

/// A line always splits into at least one field.
pub proof fn lemma_split_fields_nonempty(line: Seq<char>, sep: Seq<char>)
    ensures
        split_fields(line, sep).len() >= 1,
{
    if sep.len() != 0 {
        match find_first(line, sep) {
            Some(i) => {}
            None => {}
        }
    }
}

/// Joining after appending one more field tacks it on behind a separator.
pub proof fn lemma_join_snoc(fields: Seq<Seq<char>>, sep: Seq<char>, f: Seq<char>)
    requires
        fields.len() >= 1,
    ensures
        join_fields(fields.push(f), sep) == join_fields(fields, sep) + sep + f,
    decreases fields.len(),
{
    if fields.len() == 1 {
        assert(fields.push(f).drop_first() =~= seq![f]);
        assert(join_fields(seq![f], sep) == f);
        assert(join_fields(fields.push(f), sep) == fields[0] + sep + f);
    } else {
        lemma_join_snoc(fields.drop_first(), sep, f);
        assert(fields.push(f).drop_first() =~= fields.drop_first().push(f));
        assert((fields[0] + sep + (join_fields(fields.drop_first(), sep) + sep + f))
            =~= (fields[0] + sep + join_fields(fields.drop_first(), sep)) + sep + f);
    }
}

/// Splitting a line and joining all the fields again gives the line back.
pub proof fn lemma_split_join_roundtrip(line: Seq<char>, sep: Seq<char>)
    ensures
        join_fields(split_fields(line, sep), sep) == line,
    decreases line.len(),
{
    if sep.len() == 0 {
    } else {
        lemma_find_first_bounds(line, sep);
        lemma_find_first_is_leftmost(line, sep);
        match find_first(line, sep) {
            Some(i) => {
                let rest = line.skip(i + sep.len());
                lemma_split_join_roundtrip(rest, sep);
                lemma_split_fields_nonempty(rest, sep);
                let pieces = seq![line.subrange(0, i)] + split_fields(rest, sep);
                assert(pieces.drop_first() =~= split_fields(rest, sep));
                if split_fields(rest, sep).len() == 0 {
                } else {
                    assert(join_fields(pieces, sep) == line.subrange(0, i) + sep + rest);
                    assert(line.subrange(i, i + sep.len()) == sep);
                    assert(line.subrange(0, i) + sep + rest =~= line);
                }
            }
            None => {}
        }
    }
}

/// Which of the three field forms a construct asked for: `N`, `N+` or `N-`.
#[derive(Clone, Copy)]
pub enum FieldMod {
    /// `<open>N<close>`: the single field `N`.
    Plain,
    /// `<open>N+<close>`: fields `N` through the last, rejoined.
    Tail,
    /// `<open>N-<close>`: fields 1 through `N`, rejoined.
    Head,
}

/// What a field construct with 1-based index `n` expands to: the empty
/// string when `n` is zero or past the last field, otherwise the requested
/// field or rejoined field range.
pub open spec fn field_expansion(line: Seq<char>, sep: Seq<char>, n: nat, m: FieldMod) -> Seq<char> {
    let fields = split_fields(line, sep);
    if n == 0 || n > fields.len() {
        Seq::empty()
    } else {
        match m {
            FieldMod::Plain => fields[n - 1],
            FieldMod::Tail => join_fields(fields.skip(n - 1), sep),
            FieldMod::Head => join_fields(fields.take(n as int), sep),
        }
    }
}

/// Splitting `line` on `sep` and rejoining fields `1..=n` reproduces the
/// `N-` expansion; fields `n..` rejoined reproduce the `N+` expansion.
pub proof fn lemma_field_range_expansions(line: Seq<char>, sep: Seq<char>, n: nat)
    requires
        1 <= n <= split_fields(line, sep).len(),
    ensures
        field_expansion(line, sep, n, FieldMod::Head)
            == join_fields(split_fields(line, sep).take(n as int), sep),
        field_expansion(line, sep, n, FieldMod::Tail)
            == join_fields(split_fields(line, sep).skip(n - 1), sep),
{
}

/// A field index of 0, or one beyond the field count, expands to the
/// empty string — never an out-of-range fault.
pub proof fn lemma_field_index_out_of_range(line: Seq<char>, sep: Seq<char>, n: nat, m: FieldMod)
    requires
        n == 0 || n > split_fields(line, sep).len(),
    ensures
        field_expansion(line, sep, n, m) == Seq::<char>::empty(),
{
}

/// Executable splitting of a line into its fields.
pub fn split_line(line: &Vec<char>, sep: &Vec<char>) -> (r: Vec<Vec<char>>)
    ensures
        r.deep_view() == split_fields(line@, sep@),
{
    let mut out: Vec<Vec<char>> = Vec::new();
    let whole = crate::text::copy_range(line, 0, line.len());
    proof {
        assert(whole@ =~= line@);
    }
    if sep.len() == 0 {
        out.push(whole);
        proof {
            assert(out.deep_view() =~~= seq![line@]);
        }
        return out;
    }
    let mut rest = whole;
    loop
        invariant
            sep@.len() >= 1,
            split_fields(line@, sep@) =~~= out.deep_view() + split_fields(rest@, sep@),
        decreases rest@.len(),
    {
        proof {
            lemma_find_first_bounds(rest@, sep@);
        }
        let ghost prev_dv = out.deep_view();
        let ghost prev_rest = rest@;
        match find_sub(&rest, sep) {
            Some(i) => {
                let piece = crate::text::copy_range(&rest, 0, i);
                out.push(piece);
                let rest_len = rest.len();
                let new_rest = crate::text::copy_range(&rest, i + sep.len(), rest_len);
                proof {
                    assert(out.deep_view() =~~= prev_dv.push(prev_rest.subrange(0, i as int)));
                    assert(new_rest@ =~= prev_rest.skip(i + sep@.len()));
                    assert(split_fields(prev_rest, sep@)
                        == seq![prev_rest.subrange(0, i as int)] + split_fields(new_rest@, sep@));
                    assert(prev_dv + split_fields(prev_rest, sep@)
                        =~~= out.deep_view() + split_fields(new_rest@, sep@));
                }
                rest = new_rest;
            }
            None => {
                proof {
                    assert(split_fields(prev_rest, sep@) == seq![prev_rest]);
                }
                out.push(rest);
                proof {
                    assert(out.deep_view() =~~= prev_dv.push(prev_rest));
                    assert(prev_dv + seq![prev_rest] =~~= out.deep_view());
                }
                return out;
            }
        }
    }
}

/// A fresh list holding copies of the fields between `from` and `to`.
fn copy_fields_range(fields: &Vec<Vec<char>>, from: usize, to: usize) -> (r: Vec<Vec<char>>)
    requires
        from <= to <= fields@.len(),
    ensures
        r.deep_view() == fields.deep_view().subrange(from as int, to as int),
{
    let mut r: Vec<Vec<char>> = Vec::new();
    let mut i: usize = from;
    while i < to
        invariant
            from <= i <= to <= fields@.len(),
            r.deep_view() =~~= fields.deep_view().subrange(from as int, i as int),
        decreases to - i,
    {
        let ghost prev_dv = r.deep_view();
        let piece = crate::text::copy_range(&fields[i], 0, fields[i].len());
        proof {
            assert(piece@ =~= fields@[i as int]@);
        }
        r.push(piece);
        proof {
            assert(r.deep_view() =~~= prev_dv.push(fields@[i as int]@));
            assert(fields.deep_view()[i as int] =~= fields@[i as int]@);
            assert(r.deep_view() =~~= fields.deep_view().subrange(from as int, i + 1));
        }
        i += 1;
    }
    r
}

/// Executable joining of fields with `sep` between neighbours.
pub fn join_list(fields: &Vec<Vec<char>>, sep: &Vec<char>) -> (r: Vec<char>)
    ensures
        r@ == join_fields(fields.deep_view(), sep@),
{
    let mut out: Vec<char> = Vec::new();
    let mut i: usize = 0;
    while i < fields.len()
        invariant
            i <= fields@.len(),
            out@ == join_fields(fields.deep_view().take(i as int), sep@),
        decreases fields@.len() - i,
    {
        let ghost dv = fields.deep_view();
        if i > 0 {
            crate::text::extend_chars(&mut out, sep);
        }
        crate::text::extend_chars(&mut out, &fields[i]);
        proof {
            assert(dv[i as int] =~= fields@[i as int]@);
            assert(dv.take(i + 1) =~= dv.take(i as int).push(dv[i as int]));
            if i == 0 {
                assert(dv.take(1) =~= seq![dv[0]]);
                assert(out@ =~= dv[0]);
            } else {
                lemma_join_snoc(dv.take(i as int), sep@, dv[i as int]);
            }
        }
        i += 1;
    }
    proof {
        assert(fields.deep_view().take(fields@.len() as int) =~= fields.deep_view());
    }
    out
}

/// Executable field-construct expansion over the original input line.
pub fn expand_field(line: &Vec<char>, sep: &Vec<char>, n: usize, m: FieldMod) -> (r: Vec<char>)
    ensures
        r@ == field_expansion(line@, sep@, n as nat, m),
{
    let fields = split_line(line, sep);
    proof {
        assert(fields.deep_view().len() == fields@.len());
    }
    if n == 0 || n > fields.len() {
        let r: Vec<char> = Vec::new();
        proof {
            assert(r@ =~= Seq::<char>::empty());
        }
        return r;
    }
    match m {
        FieldMod::Plain => {
            let r = crate::text::copy_range(&fields[n - 1], 0, fields[n - 1].len());
            proof {
                assert(r@ =~= fields@[n - 1]@);
                assert(fields.deep_view()[n - 1] =~= fields@[n - 1]@);
            }
            r
        }
        FieldMod::Tail => {
            let sub = copy_fields_range(&fields, n - 1, fields.len());
            let r = join_list(&sub, sep);
            proof {
                assert(fields.deep_view().subrange(n - 1, fields.deep_view().len() as int)
                    =~= fields.deep_view().skip(n - 1));
            }
            r
        }
        FieldMod::Head => {
            let sub = copy_fields_range(&fields, 0, n);
            join_list(&sub, sep)
        }
    }
}

} // verus!
