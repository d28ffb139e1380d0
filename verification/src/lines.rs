//! The textual layer of the wire format: splitting a stream into lines,
//! trimming whitespace, and splitting a control line into tokens.

use vstd::prelude::*;
use vstd::slice::slice_to_vec;

verus! {

/// ASCII whitespace stripped from line edges: space, tab, CR, LF.
pub open spec fn spec_is_ws(b: u8) -> bool {
    b == 32 || b == 9 || b == 13 || b == 10
}

/// Exec check for [`spec_is_ws`].
pub fn is_ws(b: u8) -> (r: bool)
    ensures
        r == spec_is_ws(b),
{
    b == 32 || b == 9 || b == 13 || b == 10
}

/// Index of the first LF in `s`, or `s.len()` if there is none.
pub open spec fn first_nl(s: Seq<u8>) -> int
    decreases s.len(),
{
    if s.len() == 0 {
        0
    } else if s[0] == 10 {
        0
    } else {
        1 + first_nl(s.drop_first())
    }
}

/// Index of the first whitespace byte in `s`, or `s.len()` if there is none.
pub open spec fn first_ws(s: Seq<u8>) -> int
    decreases s.len(),
{
    if s.len() == 0 {
        0
    } else if spec_is_ws(s[0]) {
        0
    } else {
        1 + first_ws(s.drop_first())
    }
}

/// Index of the first `=` in `s`, or `s.len()` if there is none.
pub open spec fn first_eq(s: Seq<u8>) -> int
    decreases s.len(),
{
    if s.len() == 0 {
        0
    } else if s[0] == 61 {
        0
    } else {
        1 + first_eq(s.drop_first())
    }
}

/// `first_nl` is exactly the index before which no LF occurs.
pub proof fn lemma_first_nl_is(s: Seq<u8>, k: int)
    requires
        0 <= k <= s.len(),
        forall|j: int| 0 <= j < k ==> s[j] != 10,
        k == s.len() || s[k] == 10,
    ensures
        first_nl(s) == k,
    decreases s.len(),
{
    if s.len() > 0 && k > 0 {
        lemma_first_nl_is(s.drop_first(), k - 1);
    }
}

/// `first_ws` is exactly the index before which no whitespace occurs.
pub proof fn lemma_first_ws_is(s: Seq<u8>, k: int)
    requires
        0 <= k <= s.len(),
        forall|j: int| 0 <= j < k ==> !spec_is_ws(#[trigger] s[j]),
        k == s.len() || spec_is_ws(s[k]),
    ensures
        first_ws(s) == k,
    decreases s.len(),
{
    if s.len() > 0 && k > 0 {
        lemma_first_ws_is(s.drop_first(), k - 1);
    }
}

/// `first_eq` is exactly the index before which no `=` occurs.
pub proof fn lemma_first_eq_is(s: Seq<u8>, k: int)
    requires
        0 <= k <= s.len(),
        forall|j: int| 0 <= j < k ==> s[j] != 61,
        k == s.len() || s[k] == 61,
    ensures
        first_eq(s) == k,
    decreases s.len(),
{
    if s.len() > 0 && k > 0 {
        lemma_first_eq_is(s.drop_first(), k - 1);
    }
}

/// `s` without leading whitespace.
pub open spec fn spec_trim_front(s: Seq<u8>) -> Seq<u8>
    decreases s.len(),
{
    if s.len() > 0 && spec_is_ws(s[0]) {
        spec_trim_front(s.drop_first())
    } else {
        s
    }
}

/// `s` without trailing whitespace.
pub open spec fn spec_trim_back(s: Seq<u8>) -> Seq<u8>
    decreases s.len(),
{
    if s.len() > 0 && spec_is_ws(s.last()) {
        spec_trim_back(s.drop_last())
    } else {
        s
    }
}

/// `s` without leading and trailing whitespace.
pub open spec fn spec_trim(s: Seq<u8>) -> Seq<u8> {
    spec_trim_back(spec_trim_front(s))
}

/// A sequence free of whitespace trims to itself.
pub proof fn lemma_trim_ws_free(s: Seq<u8>)
    requires
        forall|j: int| 0 <= j < s.len() ==> !spec_is_ws(#[trigger] s[j]),
    ensures
        spec_trim(s) == s,
{
}

proof fn lemma_trim_front_skip(s: Seq<u8>, i: int)
    requires
        0 <= i <= s.len(),
        forall|j: int| 0 <= j < i ==> spec_is_ws(#[trigger] s[j]),
    ensures
        spec_trim_front(s) == spec_trim_front(s.skip(i)),
    decreases i,
{
    if i > 0 {
        assert(s.drop_first() =~= s.skip(1));
        assert(s.skip(1).skip(i - 1) =~= s.skip(i));
        lemma_trim_front_skip(s.skip(1), i - 1);
    } else {
        assert(s.skip(0) =~= s);
    }
}

proof fn lemma_trim_back_take(s: Seq<u8>, i: int)
    requires
        0 <= i <= s.len(),
        forall|j: int| i <= j < s.len() ==> spec_is_ws(#[trigger] s[j]),
    ensures
        spec_trim_back(s) == spec_trim_back(s.take(i)),
    decreases s.len() - i,
{
    if i < s.len() {
        assert(s.drop_last() =~= s.take(s.len() - 1));
        lemma_trim_back_take(s.take(s.len() - 1), i);
        assert(s.take(s.len() - 1).take(i) =~= s.take(i));
    } else {
        assert(s.take(i) =~= s);
    }
}

/// Strip leading and trailing ASCII whitespace from a line.
pub fn trim_bytes(line: &[u8]) -> (r: &[u8])
    ensures
        r@ == spec_trim(line@),
{
    let mut start: usize = 0;
    while start < line.len() && is_ws(line[start])
        invariant
            0 <= start <= line@.len(),
            forall|j: int| 0 <= j < start ==> spec_is_ws(#[trigger] line@[j]),
        decreases line@.len() - start,
    {
        start = start + 1;
    }
    proof {
        lemma_trim_front_skip(line@, start as int);
    }
    if start == line.len() {
        proof {
            assert(line@.skip(start as int) =~= Seq::<u8>::empty());
        }
        let r = &line[0..0];
        assert(r@ =~= spec_trim(line@));
        return r;
    }
    // line[start] is not whitespace, so trimming the front stops here.
    assert(spec_trim_front(line@) =~= line@.skip(start as int));
    let mut end: usize = line.len();
    while end > start && is_ws(line[end - 1])
        invariant
            start <= end <= line@.len(),
            forall|j: int| end <= j < line@.len() ==> spec_is_ws(#[trigger] line@[j]),
        decreases end,
    {
        end = end - 1;
    }
    // line[end - 1] is not whitespace (end > start), so trimming the back
    // stops at end.
    proof {
        let f = line@.skip(start as int);
        lemma_trim_back_take(f, end - start);
        assert(f.take(end - start) =~= line@.subrange(start as int, end as int));
        assert(spec_trim_back(f.take(end - start)) == f.take(end - start));
    }
    &line[start..end]
}

/// The lines of a byte stream, split on LF, the terminator not included.
/// A trailing LF does not open a final empty line.
pub open spec fn spec_lines(s: Seq<u8>) -> Seq<Seq<u8>>
    decreases s.len(),
{
    if s.len() == 0 {
        Seq::empty()
    } else {
        let i = first_nl(s);
        if 0 <= i < s.len() {
            seq![s.take(i)] + spec_lines(s.skip(i + 1))
        } else {
            seq![s]
        }
    }
}

/// Split a stream into its lines.
pub fn split_lines(input: &[u8]) -> (r: Vec<Vec<u8>>)
    ensures
        r.deep_view() == spec_lines(input@),
{
    let mut lines: Vec<Vec<u8>> = Vec::new();
    let mut pos: usize = 0;
    proof {
        assert(input@.skip(0) =~= input@);
        assert(lines.deep_view() + spec_lines(input@) =~~= spec_lines(input@));
    }
    while pos < input.len()
        invariant
            0 <= pos <= input@.len(),
            spec_lines(input@) == lines.deep_view() + spec_lines(input@.skip(pos as int)),
        decreases input@.len() - pos,
    {
        let ghost p0 = pos as int;
        let ghost prev = lines.deep_view();
        let ghost rest = input@.skip(p0);
        let mut j: usize = pos;
        while j < input.len() && input[j] != 10
            invariant
                pos <= j <= input@.len(),
                forall|t: int| pos <= t < j ==> input@[t] != 10,
            decreases input@.len() - j,
        {
            j = j + 1;
        }
        proof {
            lemma_first_nl_is(rest, j - p0);
            assert(rest.take(j - p0) =~= input@.subrange(p0, j as int));
        }
        let line: Vec<u8> = slice_to_vec(&input[pos..j]);
        lines.push(line);
        proof {
            assert(lines.deep_view() =~~= prev.push(rest.take(j - p0)));
        }
        if j < input.len() {
            pos = j + 1;
            proof {
                assert(rest.skip(j - p0 + 1) =~= input@.skip(pos as int));
                assert(spec_lines(rest) == seq![rest.take(j - p0)] + spec_lines(
                    input@.skip(pos as int),
                ));
                assert(prev.push(rest.take(j - p0)) =~~= prev + seq![rest.take(j - p0)]);
                assert(spec_lines(input@) =~~= lines.deep_view() + spec_lines(
                    input@.skip(pos as int),
                ));
            }
        } else {
            pos = j;
            proof {
                assert(rest.take(j - p0) =~= rest);
                assert(first_nl(rest) == rest.len());
                assert(spec_lines(rest) == seq![rest]);
                assert(input@.skip(pos as int) =~= Seq::<u8>::empty());
                assert(prev.push(rest.take(j - p0)) =~~= prev + seq![rest]);
                assert(spec_lines(input@) =~~= lines.deep_view() + spec_lines(
                    input@.skip(pos as int),
                ));
            }
        }
    }
    proof {
        assert(input@.skip(pos as int) =~= Seq::<u8>::empty());
        assert(lines.deep_view() + spec_lines(Seq::<u8>::empty()) =~~= lines.deep_view());
    }
    lines
}

/// The whitespace-separated tokens of a control line.
pub open spec fn spec_tokens(s: Seq<u8>) -> Seq<Seq<u8>>
    decreases s.len(),
{
    if s.len() == 0 {
        Seq::empty()
    } else if spec_is_ws(s[0]) {
        spec_tokens(s.drop_first())
    } else {
        let i = first_ws(s);
        if 1 <= i <= s.len() {
            seq![s.take(i)] + spec_tokens(s.skip(i))
        } else {
            seq![s]
        }
    }
}

/// Split a control line into its whitespace-separated tokens.
pub fn split_tokens(line: &[u8]) -> (r: Vec<Vec<u8>>)
    ensures
        r.deep_view() == spec_tokens(line@),
{
    let mut tokens: Vec<Vec<u8>> = Vec::new();
    let mut pos: usize = 0;
    proof {
        assert(line@.skip(0) =~= line@);
        assert(tokens.deep_view() + spec_tokens(line@) =~~= spec_tokens(line@));
    }
    while pos < line.len()
        invariant
            0 <= pos <= line@.len(),
            spec_tokens(line@) == tokens.deep_view() + spec_tokens(line@.skip(pos as int)),
        decreases line@.len() - pos,
    {
        if is_ws(line[pos]) {
            proof {
                assert(line@.skip(pos as int).drop_first() =~= line@.skip(pos + 1));
            }
            pos = pos + 1;
        } else {
            let ghost p0 = pos as int;
            let ghost prev = tokens.deep_view();
            let ghost rest = line@.skip(p0);
            let mut j: usize = pos + 1;
            while j < line.len() && !is_ws(line[j])
                invariant
                    pos < j <= line@.len(),
                    forall|t: int| pos <= t < j ==> !spec_is_ws(#[trigger] line@[t]),
                    !spec_is_ws(line@[pos as int]),
                decreases line@.len() - j,
            {
                j = j + 1;
            }
            proof {
                lemma_first_ws_is(rest, j - p0);
                assert(rest.take(j - p0) =~= line@.subrange(p0, j as int));
                assert(spec_tokens(rest) == seq![rest.take(j - p0)] + spec_tokens(
                    rest.skip(j - p0),
                ));
                assert(rest.skip(j - p0) =~= line@.skip(j as int));
            }
            let tok: Vec<u8> = slice_to_vec(&line[pos..j]);
            tokens.push(tok);
            pos = j;
            proof {
                assert(tokens.deep_view() =~~= prev.push(rest.take(j - p0)));
                assert(prev.push(rest.take(j - p0)) =~~= prev + seq![rest.take(j - p0)]);
                assert(spec_tokens(line@) =~~= tokens.deep_view() + spec_tokens(
                    line@.skip(pos as int),
                ));
            }
        }
    }
    proof {
        assert(line@.skip(pos as int) =~= Seq::<u8>::empty());
        assert(tokens.deep_view() + spec_tokens(Seq::<u8>::empty()) =~~= tokens.deep_view());
    }
    tokens
}

/// Whether `p` is a prefix of `s`.
pub open spec fn has_prefix(s: Seq<u8>, p: Seq<u8>) -> bool {
    p.len() <= s.len() && s.take(p.len() as int) == p
}

/// Exec check for [`has_prefix`].
pub fn starts_with_bytes(s: &[u8], p: &[u8]) -> (r: bool)
    ensures
        r == has_prefix(s@, p@),
{
    if p.len() > s.len() {
        assert(!has_prefix(s@, p@));
        return false;
    }
    let mut i: usize = 0;
    while i < p.len()
        invariant
            0 <= i <= p@.len(),
            p@.len() <= s@.len(),
            forall|j: int| 0 <= j < i ==> s@[j] == p@[j],
        decreases p@.len() - i,
    {
        if s[i] != p[i] {
            assert(s@.take(p@.len() as int)[i as int] != p@[i as int]);
            return false;
        }
        i = i + 1;
    }
    assert(s@.take(p@.len() as int) =~= p@);
    true
}

} // verus!
