//! The laws of the codec: decoding inverts encoding, checksums are
//! enforced exactly when validation is on, and the part validations reject
//! exactly the inconsistent streams.
//!
//! The public proof functions at the end of the module state the laws; the
//! private lemmas before them work out, step by step, what the decoder does
//! with a stream the encoder built.

use vstd::prelude::*;
use vstd::utf8::valid_utf8;

use crate::crc::crc32_of;
use crate::decode::{
    lemma_body_loop_data, lemma_body_loop_end, spec_after_header, spec_body_loop, spec_decode,
    spec_decode_segment, spec_find_header, spec_finish, SpecOutcome,
};
use crate::encode::{
    lit_begin_eq, lit_line_eq, lit_part_eq, lit_size_eq, lit_sp_crc32_eq, lit_sp_end_eq,
    lit_sp_line_eq, lit_sp_name_eq, lit_sp_part_eq, lit_sp_pcrc32_eq, lit_sp_size_eq,
    lit_sp_total_eq, spec_begin_content, spec_begin_line, spec_encode, spec_encode_body,
    spec_encode_one, spec_encode_part, spec_end_content, spec_end_line, spec_part_content,
    spec_part_line, MultiPartInfo,
};
use crate::error::SpecError;
use crate::header::{
    begin_line_prefix, end_line_prefix, key_begin, key_crc32, key_end, key_line, key_name,
    key_part, key_pcrc32, key_size, key_total, lemma_keys_distinct, part_line_prefix,
    spec_field_dec, spec_field_hex, spec_field_raw, spec_kv, spec_parse_header, spec_parse_part,
    spec_parse_trailer, SpecHeader, YencPart, YencTrailer,
};
use crate::lines::{
    first_nl, has_prefix, lemma_first_eq_is, lemma_first_nl_is,
    lemma_first_ws_is, spec_is_ws, spec_lines, spec_tokens, spec_trim, spec_trim_back,
    spec_trim_front,
};
use crate::numbers::{
    lemma_dec_digits_val, lemma_hex_digits_val, lemma_parse_hex8,
    spec_dec_digits, spec_hex8, spec_is_digit, spec_is_hex_digit, spec_parse_decimal,
    spec_parse_hex32,
};
use crate::transform::{
    lemma_decode_encode_byte, lemma_unescape_escape_pair, spec_decode_byte, spec_encode_byte,
    spec_escape_pair, spec_needs_escape, spec_unescape,
};

verus! {

/// No line feed anywhere in `s`: such bytes never end a line early.
pub open spec fn lf_free(s: Seq<u8>) -> bool {
    forall|i: int| 0 <= i < s.len() ==> #[trigger] s[i] != 10
}

/// No whitespace anywhere in `s`.
pub open spec fn ws_free(s: Seq<u8>) -> bool {
    forall|i: int| 0 <= i < s.len() ==> !spec_is_ws(#[trigger] s[i])
}

/// No `=` anywhere in `s`: such bytes never split a token early.
pub open spec fn eq_free(s: Seq<u8>) -> bool {
    forall|i: int| 0 <= i < s.len() ==> #[trigger] s[i] != 61
}

proof fn lemma_lf_free_concat(a: Seq<u8>, b: Seq<u8>)
    requires
        lf_free(a),
        lf_free(b),
    ensures
        lf_free(a + b),
{
    assert forall|i: int| 0 <= i < (a + b).len() implies #[trigger] (a + b)[i] != 10 by {
        if i < a.len() {
            assert((a + b)[i] == a[i]);
        } else {
            assert((a + b)[i] == b[i - a.len()]);
        }
    }
}

proof fn lemma_ws_free_concat(a: Seq<u8>, b: Seq<u8>)
    requires
        ws_free(a),
        ws_free(b),
    ensures
        ws_free(a + b),
{
    assert forall|i: int| 0 <= i < (a + b).len() implies !spec_is_ws(#[trigger] (a + b)[i]) by {
        if i < a.len() {
            assert((a + b)[i] == a[i]);
        } else {
            assert((a + b)[i] == b[i - a.len()]);
        }
    }
}

/// Decimal digit strings carry no whitespace and no `=`.
proof fn lemma_dec_digits_classes(n: nat)
    ensures
        spec_dec_digits(n).len() >= 1,
        ws_free(spec_dec_digits(n)),
        eq_free(spec_dec_digits(n)),
{
    lemma_dec_digits_val(n);
    let s = spec_dec_digits(n);
    assert forall|i: int| 0 <= i < s.len() implies !spec_is_ws(#[trigger] s[i]) && s[i] != 61 by {
        assert(spec_is_digit(s[i]));
    }
}

/// Hexadecimal digit strings carry no whitespace and no `=`.
proof fn lemma_hex8_classes(v: u32)
    ensures
        spec_hex8(v).len() == 8,
        ws_free(spec_hex8(v)),
        eq_free(spec_hex8(v)),
{
    lemma_hex_digits_val(v as nat, 8);
    let s = spec_hex8(v);
    assert forall|i: int| 0 <= i < s.len() implies !spec_is_ws(#[trigger] s[i]) && s[i] != 61 by {
        assert(spec_is_hex_digit(s[i]));
    }
}

/// A whitespace-free sequence is one token.
proof fn lemma_tokens_single(s: Seq<u8>)
    requires
        s.len() > 0,
        ws_free(s),
    ensures
        spec_tokens(s) == seq![s],
{
    lemma_first_ws_is(s, s.len() as int);
    assert(s.take(s.len() as int) =~= s);
    assert(s.skip(s.len() as int) =~= Seq::<u8>::empty());
    assert(seq![s] + spec_tokens(Seq::<u8>::empty()) =~= seq![s]);
}

/// A whitespace-free token followed by a space starts the token list.
proof fn lemma_tokens_prepend(tok: Seq<u8>, rest: Seq<u8>)
    requires
        tok.len() > 0,
        ws_free(tok),
    ensures
        spec_tokens(tok + seq![32u8] + rest) == seq![tok] + spec_tokens(rest),
{
    let s = tok + seq![32u8] + rest;
    assert(s[tok.len() as int] == 32);
    assert forall|j: int| 0 <= j < tok.len() implies !spec_is_ws(#[trigger] s[j]) by {
        assert(s[j] == tok[j]);
    }
    lemma_first_ws_is(s, tok.len() as int);
    assert(!spec_is_ws(s[0]));
    assert(s.take(tok.len() as int) =~= tok);
    assert(s.skip(tok.len() as int) =~= seq![32u8] + rest);
    assert(spec_tokens(s) == seq![s.take(tok.len() as int)] + spec_tokens(
        s.skip(tok.len() as int),
    ));
    assert((seq![32u8] + rest)[0] == 32);
    assert((seq![32u8] + rest).drop_first() =~= rest);
    assert(spec_tokens(seq![32u8] + rest) == spec_tokens(rest));
}

/// A token `key=value`, with no `=` in the key, splits at the first `=`.
proof fn lemma_kv_token(key: Seq<u8>, val: Seq<u8>)
    requires
        eq_free(key),
    ensures
        crate::header::spec_kv(key + seq![61u8] + val) == Some((key, val)),
{
    let t = key + seq![61u8] + val;
    assert(t[key.len() as int] == 61);
    assert forall|j: int| 0 <= j < key.len() implies #[trigger] t[j] != 61 by {
        assert(t[j] == key[j]);
    }
    lemma_first_eq_is(t, key.len() as int);
    assert(t.take(key.len() as int) =~= key);
    assert(t.skip(key.len() as int + 1) =~= val);
}

/// A line whose content carries no line feed, followed by the rest of the
/// stream, opens the line list.
proof fn lemma_lines_prepend(content: Seq<u8>, rest: Seq<u8>)
    requires
        lf_free(content),
    ensures
        spec_lines(content + seq![10u8] + rest) == seq![content] + spec_lines(rest),
{
    let s = content + seq![10u8] + rest;
    assert(s[content.len() as int] == 10);
    assert forall|j: int| 0 <= j < content.len() implies #[trigger] s[j] != 10 by {
        assert(s[j] == content[j]);
    }
    lemma_first_nl_is(s, content.len() as int);
    assert(s.take(content.len() as int) =~= content);
    assert(s.skip(content.len() as int + 1) =~= rest);
}

/// A sequence with no whitespace at either edge trims to itself.
proof fn lemma_trim_self(s: Seq<u8>)
    requires
        s.len() > 0,
        !spec_is_ws(s[0]),
        !spec_is_ws(s.last()),
    ensures
        spec_trim(s) == s,
{
}

/// Tokens of a control line, joined by single spaces.
spec fn join_sp(toks: Seq<Seq<u8>>) -> Seq<u8>
    decreases toks.len(),
{
    if toks.len() == 0 {
        Seq::empty()
    } else if toks.len() == 1 {
        toks[0]
    } else {
        toks[0] + seq![32u8] + join_sp(toks.drop_first())
    }
}

/// Every token of a control line is nonempty and free of whitespace.
spec fn good_tokens(toks: Seq<Seq<u8>>) -> bool {
    forall|i: int|
        0 <= i < toks.len() ==> (#[trigger] toks[i]).len() > 0 && ws_free(toks[i])
}

/// Splitting a space-joined token list recovers the tokens.
proof fn lemma_tokens_join(toks: Seq<Seq<u8>>)
    requires
        toks.len() > 0,
        good_tokens(toks),
    ensures
        spec_tokens(join_sp(toks)) == toks,
    decreases toks.len(),
{
    if toks.len() == 1 {
        lemma_tokens_single(toks[0]);
        assert(seq![toks[0]] =~= toks);
    } else {
        lemma_tokens_join(toks.drop_first());
        lemma_tokens_prepend(toks[0], join_sp(toks.drop_first()));
        assert(seq![toks[0]] + toks.drop_first() =~= toks);
    }
}

/// Looking a key up after one more token: a token carrying the key wins.
proof fn lemma_field_raw_snoc_hit(toks: Seq<Seq<u8>>, tok: Seq<u8>, key: Seq<u8>, val: Seq<u8>)
    requires
        spec_kv(tok) == Some((key, val)),
    ensures
        spec_field_raw(toks.push(tok), key) == Some(val),
{
    assert(toks.push(tok).drop_last() =~= toks);
    assert(toks.push(tok).last() == tok);
}

/// Looking a key up after one more token: a token carrying another key, or
/// none, changes nothing.
proof fn lemma_field_raw_snoc_miss(toks: Seq<Seq<u8>>, tok: Seq<u8>, key: Seq<u8>)
    requires
        (match spec_kv(tok) {
            Some(kv) => kv.0 != key,
            None => true,
        }),
    ensures
        spec_field_raw(toks.push(tok), key) == spec_field_raw(toks, key),
{
    assert(toks.push(tok).drop_last() =~= toks);
    assert(toks.push(tok).last() == tok);
}

/// The token carrying a decimal field.
spec fn dec_token(key: Seq<u8>, n: nat) -> Seq<u8> {
    key + seq![61u8] + spec_dec_digits(n)
}

/// The token carrying a checksum field.
spec fn hex_token(key: Seq<u8>, v: u32) -> Seq<u8> {
    key + seq![61u8] + spec_hex8(v)
}

/// What a decimal token contributes: key facts, classes, and its value.
proof fn lemma_dec_token(key: Seq<u8>, n: nat)
    requires
        ws_free(key),
        eq_free(key),
    ensures
        spec_kv(dec_token(key, n)) == Some((key, spec_dec_digits(n))),
        dec_token(key, n).len() > 0,
        ws_free(dec_token(key, n)),
        spec_parse_decimal(spec_dec_digits(n)) == (if n <= usize::MAX {
            Some(n as usize)
        } else {
            None::<usize>
        }),
{
    lemma_kv_token(key, spec_dec_digits(n));
    lemma_dec_digits_classes(n);
    lemma_dec_digits_val(n);
    lemma_ws_free_concat(key, seq![61u8]);
    lemma_ws_free_concat(key + seq![61u8], spec_dec_digits(n));
    assert(ws_free((key + seq![61u8]) + spec_dec_digits(n)));
    assert(dec_token(key, n) =~= (key + seq![61u8]) + spec_dec_digits(n));
}

/// What a checksum token contributes: key facts, classes, and its value.
proof fn lemma_hex_token(key: Seq<u8>, v: u32)
    requires
        ws_free(key),
        eq_free(key),
    ensures
        spec_kv(hex_token(key, v)) == Some((key, spec_hex8(v))),
        hex_token(key, v).len() > 0,
        ws_free(hex_token(key, v)),
        spec_parse_hex32(spec_hex8(v)) == Some(v),
{
    lemma_kv_token(key, spec_hex8(v));
    lemma_hex8_classes(v);
    lemma_parse_hex8(v);
    lemma_ws_free_concat(key, seq![61u8]);
    lemma_ws_free_concat(key + seq![61u8], spec_hex8(v));
    assert(ws_free((key + seq![61u8]) + spec_hex8(v)));
    assert(hex_token(key, v) =~= (key + seq![61u8]) + spec_hex8(v));
}

/// The token carrying the name field.
spec fn name_token(name: Seq<u8>) -> Seq<u8> {
    key_name() + seq![61u8] + name
}

proof fn lemma_name_token(name: Seq<u8>)
    requires
        ws_free(name),
    ensures
        spec_kv(name_token(name)) == Some((key_name(), name)),
        name_token(name).len() > 0,
        ws_free(name_token(name)),
{
    assert(eq_free(key_name()));
    assert(ws_free(key_name()));
    lemma_kv_token(key_name(), name);
    lemma_ws_free_concat(key_name(), seq![61u8]);
    lemma_ws_free_concat(key_name() + seq![61u8], name);
    assert(name_token(name) =~= (key_name() + seq![61u8]) + name);
}

/// The byte classes of the control-line keys.
proof fn lemma_key_classes()
    ensures
        ws_free(key_name()) && eq_free(key_name()),
        ws_free(key_size()) && eq_free(key_size()),
        ws_free(key_line()) && eq_free(key_line()),
        ws_free(key_part()) && eq_free(key_part()),
        ws_free(key_total()) && eq_free(key_total()),
        ws_free(key_begin()) && eq_free(key_begin()),
        ws_free(key_end()) && eq_free(key_end()),
        ws_free(key_pcrc32()) && eq_free(key_pcrc32()),
        ws_free(key_crc32()) && eq_free(key_crc32()),
{
}

/// What the constructed part line parses to.
#[verifier::rlimit(100)]
proof fn lemma_parse_part_content(begin: usize, end: usize)
    ensures
        spec_parse_part(spec_part_content(begin as nat, end as nat)) == Ok::<_, SpecError>(
            YencPart { begin, end },
        ),
{
    lemma_key_classes();
    lemma_keys_distinct();
    let t1 = dec_token(key_begin(), begin as nat);
    let t2 = dec_token(key_end(), end as nat);
    lemma_dec_token(key_begin(), begin as nat);
    lemma_dec_token(key_end(), end as nat);
    let c = spec_part_content(begin as nat, end as nat);
    assert(has_prefix(c, part_line_prefix())) by {
        assert(c.take(7) =~= part_line_prefix());
    }
    assert(c.skip(7) =~= join_sp(seq![t1, t2])) by {
        assert(seq![t1, t2].drop_first() =~= seq![t2]);
        assert(join_sp(seq![t1, t2]) == t1 + seq![32u8] + join_sp(seq![t2]));
        assert(join_sp(seq![t2]) == t2);
        assert(lit_begin_eq() =~= key_begin() + seq![61u8]);
        assert(lit_sp_end_eq() =~= seq![32u8] + (key_end() + seq![61u8]));
    }
    lemma_tokens_join(seq![t1, t2]);
    let toks = seq![t1, t2];
    assert(spec_tokens(c.skip(7)) == toks);
    // begin: the end token misses, the begin token hits.
    assert(toks =~= seq![t1].push(t2));
    assert(seq![t1] =~= Seq::<Seq<u8>>::empty().push(t1));
    lemma_field_raw_snoc_miss(seq![t1], t2, key_begin());
    lemma_field_raw_snoc_hit(Seq::empty(), t1, key_begin(), spec_dec_digits(begin as nat));
    assert(spec_field_dec(toks, key_begin()) == Some(begin));
    // end: the end token hits.
    lemma_field_raw_snoc_hit(seq![t1], t2, key_end(), spec_dec_digits(end as nat));
    assert(spec_field_dec(toks, key_end()) == Some(end));
}

/// What the constructed begin line parses to.
proof fn lemma_parse_begin_content(
    pt: Option<(usize, usize)>,
    line: usize,
    size: usize,
    name: Seq<u8>,
)
    requires
        ws_free(name),
        valid_utf8(name),
    ensures
        spec_parse_header(
            spec_begin_content(
                (match pt {
                    Some(p) => Some((p.0 as nat, p.1 as nat)),
                    None => None,
                }),
                line as nat,
                size as nat,
                name,
            ),
        ) == Ok::<_, SpecError>(
            SpecHeader {
                name: vstd::utf8::decode_utf8(name),
                size,
                line_len: Some(line),
                part: (match pt {
                    Some(p) => Some(p.0),
                    None => None,
                }),
                total: (match pt {
                    Some(p) => Some(p.1),
                    None => None,
                }),
            },
        ),
{
    match pt {
        None => lemma_parse_begin_content_single(line, size, name),
        Some(p) => lemma_parse_begin_content_multi(p.0, p.1, line, size, name),
    }
}

/// The begin-line parse facts for a single-part stream.
#[verifier::rlimit(100)]
proof fn lemma_parse_begin_content_single(line: usize, size: usize, name: Seq<u8>)
    requires
        ws_free(name),
        valid_utf8(name),
    ensures
        spec_parse_header(spec_begin_content(None, line as nat, size as nat, name)) == Ok::<
            _,
            SpecError,
        >(
            SpecHeader {
                name: vstd::utf8::decode_utf8(name),
                size,
                line_len: Some(line),
                part: None,
                total: None,
            },
        ),
{
    lemma_key_classes();
    lemma_keys_distinct();
    let t_line = dec_token(key_line(), line as nat);
    let t_size = dec_token(key_size(), size as nat);
    let t_name = name_token(name);
    lemma_dec_token(key_line(), line as nat);
    lemma_dec_token(key_size(), size as nat);
    lemma_name_token(name);
    let c = spec_begin_content(None, line as nat, size as nat, name);
    assert(has_prefix(c, begin_line_prefix())) by {
        assert(c.take(8) =~= begin_line_prefix());
    }
    {
            let toks = seq![t_line, t_size, t_name];
            assert(c.skip(8) =~= join_sp(toks)) by {
                assert(seq![t_line, t_size, t_name].drop_first() =~= seq![t_size, t_name]);
                assert(seq![t_size, t_name].drop_first() =~= seq![t_name]);
                assert(join_sp(seq![t_name]) == t_name);
                assert(join_sp(seq![t_size, t_name]) == t_size + seq![32u8] + t_name);
                assert(join_sp(toks) == t_line + seq![32u8] + join_sp(seq![t_size, t_name]));
                assert(lit_line_eq() =~= key_line() + seq![61u8]);
                assert(lit_sp_size_eq() =~= seq![32u8] + (key_size() + seq![61u8]));
                assert(lit_sp_name_eq() =~= seq![32u8] + (key_name() + seq![61u8]));
            }
            lemma_tokens_join(toks);
            assert(spec_tokens(c.skip(8)) == toks);
            assert(toks =~= seq![t_line, t_size].push(t_name));
            assert(seq![t_line, t_size] =~= seq![t_line].push(t_size));
            assert(seq![t_line] =~= Seq::<Seq<u8>>::empty().push(t_line));
            // name
            lemma_field_raw_snoc_hit(seq![t_line, t_size], t_name, key_name(), name);
            // size
            lemma_field_raw_snoc_miss(seq![t_line, t_size], t_name, key_size());
            lemma_field_raw_snoc_hit(seq![t_line], t_size, key_size(), spec_dec_digits(
                size as nat));
            assert(spec_field_dec(toks, key_size()) == Some(size));
            // line
            lemma_field_raw_snoc_miss(seq![t_line, t_size], t_name, key_line());
            lemma_field_raw_snoc_miss(seq![t_line], t_size, key_line());
            lemma_field_raw_snoc_hit(Seq::empty(), t_line, key_line(), spec_dec_digits(
                line as nat));
            assert(spec_field_dec(toks, key_line()) == Some(line));
            // part and total are absent
            lemma_field_raw_snoc_miss(seq![t_line, t_size], t_name, key_part());
            lemma_field_raw_snoc_miss(seq![t_line], t_size, key_part());
            lemma_field_raw_snoc_miss(Seq::empty(), t_line, key_part());
            assert(spec_field_dec(toks, key_part()) is None);
            lemma_field_raw_snoc_miss(seq![t_line, t_size], t_name, key_total());
            lemma_field_raw_snoc_miss(seq![t_line], t_size, key_total());
            lemma_field_raw_snoc_miss(Seq::empty(), t_line, key_total());
            assert(spec_field_dec(toks, key_total()) is None);
        }
}

/// The begin-line parse facts for a multi-part stream.
#[verifier::rlimit(100)]
proof fn lemma_parse_begin_content_multi(
    pn: usize,
    tn: usize,
    line: usize,
    size: usize,
    name: Seq<u8>,
)
    requires
        ws_free(name),
        valid_utf8(name),
    ensures
        spec_parse_header(
            spec_begin_content(
                Some((pn as nat, tn as nat)),
                line as nat,
                size as nat,
                name,
            ),
        ) == Ok::<_, SpecError>(
            SpecHeader {
                name: vstd::utf8::decode_utf8(name),
                size,
                line_len: Some(line),
                part: Some(pn),
                total: Some(tn),
            },
        ),
{
    lemma_key_classes();
    lemma_keys_distinct();
    let t_line = dec_token(key_line(), line as nat);
    let t_size = dec_token(key_size(), size as nat);
    let t_name = name_token(name);
    lemma_dec_token(key_line(), line as nat);
    lemma_dec_token(key_size(), size as nat);
    lemma_name_token(name);
    let p = (pn, tn);
    let c = spec_begin_content(Some((pn as nat, tn as nat)), line as nat, size as nat, name);
    assert(has_prefix(c, begin_line_prefix())) by {
        assert(c.take(8) =~= begin_line_prefix());
    }
    {
            let t_part = dec_token(key_part(), p.0 as nat);
            let t_total = dec_token(key_total(), p.1 as nat);
            lemma_dec_token(key_part(), p.0 as nat);
            lemma_dec_token(key_total(), p.1 as nat);
            let toks = seq![t_part, t_total, t_line, t_size, t_name];
            assert(c.skip(8) =~= join_sp(toks)) by {
                assert(seq![t_part, t_total, t_line, t_size, t_name].drop_first() =~= seq![
                    t_total, t_line, t_size, t_name]);
                assert(seq![t_total, t_line, t_size, t_name].drop_first() =~= seq![t_line,
                    t_size, t_name]);
                assert(seq![t_line, t_size, t_name].drop_first() =~= seq![t_size, t_name]);
                assert(seq![t_size, t_name].drop_first() =~= seq![t_name]);
                assert(join_sp(seq![t_name]) == t_name);
                assert(join_sp(seq![t_size, t_name]) == t_size + seq![32u8] + t_name);
                assert(join_sp(seq![t_line, t_size, t_name]) == t_line + seq![32u8] + join_sp(
                    seq![t_size, t_name]));
                assert(join_sp(seq![t_total, t_line, t_size, t_name]) == t_total + seq![32u8]
                    + join_sp(seq![t_line, t_size, t_name]));
                assert(join_sp(toks) == t_part + seq![32u8] + join_sp(seq![t_total, t_line,
                    t_size, t_name]));
                assert(lit_part_eq() =~= key_part() + seq![61u8]);
                assert(lit_sp_total_eq() =~= seq![32u8] + (key_total() + seq![61u8]));
                assert(lit_sp_line_eq() =~= seq![32u8] + (key_line() + seq![61u8]));
                assert(lit_sp_size_eq() =~= seq![32u8] + (key_size() + seq![61u8]));
                assert(lit_sp_name_eq() =~= seq![32u8] + (key_name() + seq![61u8]));
            }
            lemma_tokens_join(toks);
            assert(spec_tokens(c.skip(8)) == toks);
            let l4 = seq![t_part, t_total, t_line, t_size];
            let l3 = seq![t_part, t_total, t_line];
            let l2 = seq![t_part, t_total];
            let l1 = seq![t_part];
            assert(toks =~= l4.push(t_name));
            assert(l4 =~= l3.push(t_size));
            assert(l3 =~= l2.push(t_line));
            assert(l2 =~= l1.push(t_total));
            assert(l1 =~= Seq::<Seq<u8>>::empty().push(t_part));
            // name
            lemma_field_raw_snoc_hit(l4, t_name, key_name(), name);
            // size
            lemma_field_raw_snoc_miss(l4, t_name, key_size());
            lemma_field_raw_snoc_hit(l3, t_size, key_size(), spec_dec_digits(size as nat));
            assert(spec_field_dec(toks, key_size()) == Some(size));
            // line
            lemma_field_raw_snoc_miss(l4, t_name, key_line());
            lemma_field_raw_snoc_miss(l3, t_size, key_line());
            lemma_field_raw_snoc_hit(l2, t_line, key_line(), spec_dec_digits(line as nat));
            assert(spec_field_dec(toks, key_line()) == Some(line));
            // part
            lemma_field_raw_snoc_miss(l4, t_name, key_part());
            lemma_field_raw_snoc_miss(l3, t_size, key_part());
            lemma_field_raw_snoc_miss(l2, t_line, key_part());
            lemma_field_raw_snoc_miss(l1, t_total, key_part());
            lemma_field_raw_snoc_hit(Seq::empty(), t_part, key_part(), spec_dec_digits(
                p.0 as nat));
            assert(spec_field_dec(toks, key_part()) == Some(p.0));
            // total
            lemma_field_raw_snoc_miss(l4, t_name, key_total());
            lemma_field_raw_snoc_miss(l3, t_size, key_total());
            lemma_field_raw_snoc_miss(l2, t_line, key_total());
            lemma_field_raw_snoc_hit(l1, t_total, key_total(), spec_dec_digits(p.1 as nat));
            assert(spec_field_dec(toks, key_total()) == Some(p.1));
        }
}

/// What the constructed end line parses to.
#[verifier::rlimit(100)]
proof fn lemma_parse_end_content(
    size: usize,
    part: Option<usize>,
    pcrc: Option<u32>,
    fcrc: Option<u32>,
)
    ensures
        spec_parse_trailer(
            spec_end_content(
                size as nat,
                (match part {
                    Some(p) => Some(p as nat),
                    None => None,
                }),
                pcrc,
                fcrc,
            ),
        ) == Ok::<_, SpecError>(YencTrailer { size, part, pcrc32: pcrc, crc32: fcrc }),
{
    lemma_key_classes();
    lemma_keys_distinct();
    let t1 = dec_token(key_size(), size as nat);
    lemma_dec_token(key_size(), size as nat);
    let partn: Option<nat> = match part {
        Some(p) => Some(p as nat),
        None => None,
    };
    let c = spec_end_content(size as nat, partn, pcrc, fcrc);
    assert(has_prefix(c, end_line_prefix())) by {
        assert(c.take(6) =~= end_line_prefix());
    }
    proof_end_fields(c, size, part, pcrc, fcrc, t1);
}

/// The token-level facts behind [`lemma_parse_end_content`]: dispatch on
/// whether the trailer names a part.
proof fn proof_end_fields(
    c: Seq<u8>,
    size: usize,
    part: Option<usize>,
    pcrc: Option<u32>,
    fcrc: Option<u32>,
    t1: Seq<u8>,
)
    requires
        t1 == dec_token(key_size(), size as nat),
        c == spec_end_content(
            size as nat,
            (match part {
                Some(p) => Some(p as nat),
                None => None,
            }),
            pcrc,
            fcrc,
        ),
    ensures
        spec_field_dec(spec_tokens(c.skip(6)), key_size()) == Some(size),
        spec_field_dec(spec_tokens(c.skip(6)), key_part()) == part,
        spec_field_hex(spec_tokens(c.skip(6)), key_pcrc32()) == pcrc,
        spec_field_hex(spec_tokens(c.skip(6)), key_crc32()) == fcrc,
{
    match part {
        None => proof_end_fields_nopart(c, size, pcrc, fcrc, t1),
        Some(p) => proof_end_fields_part(c, size, p, pcrc, fcrc, t1),
    }
}

/// The trailer token facts when no part number is named.
#[verifier::rlimit(100)]
proof fn proof_end_fields_nopart(
    c: Seq<u8>,
    size: usize,
    pcrc: Option<u32>,
    fcrc: Option<u32>,
    t1: Seq<u8>,
)
    requires
        t1 == dec_token(key_size(), size as nat),
        c == spec_end_content(size as nat, None, pcrc, fcrc),
    ensures
        spec_field_dec(spec_tokens(c.skip(6)), key_size()) == Some(size),
        spec_field_dec(spec_tokens(c.skip(6)), key_part()) is None,
        spec_field_hex(spec_tokens(c.skip(6)), key_pcrc32()) == pcrc,
        spec_field_hex(spec_tokens(c.skip(6)), key_crc32()) == fcrc,
{
    lemma_key_classes();
    lemma_keys_distinct();
    lemma_dec_token(key_size(), size as nat);
    assert(lit_size_eq() =~= key_size() + seq![61u8]);
    let empty_toks = Seq::<Seq<u8>>::empty();
    match (pcrc, fcrc) {
        (None, None) => {
            let toks = seq![t1];
            assert(c.skip(6) =~= join_sp(toks)) by {
                assert(join_sp(toks) == t1);
            }
            lemma_tokens_join(toks);
            assert(toks =~= empty_toks.push(t1));
            lemma_field_raw_snoc_hit(empty_toks, t1, key_size(), spec_dec_digits(size as nat));
            lemma_field_raw_snoc_miss(empty_toks, t1, key_part());
            lemma_field_raw_snoc_miss(empty_toks, t1, key_pcrc32());
            lemma_field_raw_snoc_miss(empty_toks, t1, key_crc32());
        },
        (Some(c1), None) => {
            let t3 = hex_token(key_pcrc32(), c1);
            lemma_hex_token(key_pcrc32(), c1);
            let toks = seq![t1, t3];
            assert(c.skip(6) =~= join_sp(toks)) by {
                assert(seq![t1, t3].drop_first() =~= seq![t3]);
                assert(join_sp(seq![t3]) == t3);
                assert(join_sp(toks) == t1 + seq![32u8] + t3);
                assert(lit_sp_pcrc32_eq() =~= seq![32u8] + (key_pcrc32() + seq![61u8]));
            }
            lemma_tokens_join(toks);
            assert(toks =~= seq![t1].push(t3));
            assert(seq![t1] =~= empty_toks.push(t1));
            lemma_field_raw_snoc_miss(seq![t1], t3, key_size());
            lemma_field_raw_snoc_hit(empty_toks, t1, key_size(), spec_dec_digits(size as nat));
            lemma_field_raw_snoc_miss(seq![t1], t3, key_part());
            lemma_field_raw_snoc_miss(empty_toks, t1, key_part());
            lemma_field_raw_snoc_hit(seq![t1], t3, key_pcrc32(), spec_hex8(c1));
            lemma_field_raw_snoc_miss(seq![t1], t3, key_crc32());
            lemma_field_raw_snoc_miss(empty_toks, t1, key_crc32());
        },
        (None, Some(c2)) => {
            let t4 = hex_token(key_crc32(), c2);
            lemma_hex_token(key_crc32(), c2);
            let toks = seq![t1, t4];
            assert(c.skip(6) =~= join_sp(toks)) by {
                assert(seq![t1, t4].drop_first() =~= seq![t4]);
                assert(join_sp(seq![t4]) == t4);
                assert(join_sp(toks) == t1 + seq![32u8] + t4);
                assert(lit_sp_crc32_eq() =~= seq![32u8] + (key_crc32() + seq![61u8]));
            }
            lemma_tokens_join(toks);
            assert(toks =~= seq![t1].push(t4));
            assert(seq![t1] =~= empty_toks.push(t1));
            lemma_field_raw_snoc_miss(seq![t1], t4, key_size());
            lemma_field_raw_snoc_hit(empty_toks, t1, key_size(), spec_dec_digits(size as nat));
            lemma_field_raw_snoc_miss(seq![t1], t4, key_part());
            lemma_field_raw_snoc_miss(empty_toks, t1, key_part());
            lemma_field_raw_snoc_miss(seq![t1], t4, key_pcrc32());
            lemma_field_raw_snoc_miss(empty_toks, t1, key_pcrc32());
            lemma_field_raw_snoc_hit(seq![t1], t4, key_crc32(), spec_hex8(c2));
        },
        (Some(c1), Some(c2)) => {
            let t3 = hex_token(key_pcrc32(), c1);
            let t4 = hex_token(key_crc32(), c2);
            lemma_hex_token(key_pcrc32(), c1);
            lemma_hex_token(key_crc32(), c2);
            let toks = seq![t1, t3, t4];
            assert(c.skip(6) =~= join_sp(toks)) by {
                assert(seq![t1, t3, t4].drop_first() =~= seq![t3, t4]);
                assert(seq![t3, t4].drop_first() =~= seq![t4]);
                assert(join_sp(seq![t4]) == t4);
                assert(join_sp(seq![t3, t4]) == t3 + seq![32u8] + t4);
                assert(join_sp(toks) == t1 + seq![32u8] + join_sp(seq![t3, t4]));
                assert(lit_sp_pcrc32_eq() =~= seq![32u8] + (key_pcrc32() + seq![61u8]));
                assert(lit_sp_crc32_eq() =~= seq![32u8] + (key_crc32() + seq![61u8]));
            }
            lemma_tokens_join(toks);
            assert(toks =~= seq![t1, t3].push(t4));
            assert(seq![t1, t3] =~= seq![t1].push(t3));
            assert(seq![t1] =~= empty_toks.push(t1));
            lemma_field_raw_snoc_miss(seq![t1, t3], t4, key_size());
            lemma_field_raw_snoc_miss(seq![t1], t3, key_size());
            lemma_field_raw_snoc_hit(empty_toks, t1, key_size(), spec_dec_digits(size as nat));
            lemma_field_raw_snoc_miss(seq![t1, t3], t4, key_part());
            lemma_field_raw_snoc_miss(seq![t1], t3, key_part());
            lemma_field_raw_snoc_miss(empty_toks, t1, key_part());
            lemma_field_raw_snoc_miss(seq![t1, t3], t4, key_pcrc32());
            lemma_field_raw_snoc_hit(seq![t1], t3, key_pcrc32(), spec_hex8(c1));
            lemma_field_raw_snoc_hit(seq![t1, t3], t4, key_crc32(), spec_hex8(c2));
        },
    }
}

/// The trailer token facts when a part number is named.
#[verifier::rlimit(100)]
proof fn proof_end_fields_part(
    c: Seq<u8>,
    size: usize,
    p: usize,
    pcrc: Option<u32>,
    fcrc: Option<u32>,
    t1: Seq<u8>,
)
    requires
        t1 == dec_token(key_size(), size as nat),
        c == spec_end_content(size as nat, Some(p as nat), pcrc, fcrc),
    ensures
        spec_field_dec(spec_tokens(c.skip(6)), key_size()) == Some(size),
        spec_field_dec(spec_tokens(c.skip(6)), key_part()) == Some(p),
        spec_field_hex(spec_tokens(c.skip(6)), key_pcrc32()) == pcrc,
        spec_field_hex(spec_tokens(c.skip(6)), key_crc32()) == fcrc,
{
    lemma_key_classes();
    lemma_keys_distinct();
    lemma_dec_token(key_size(), size as nat);
    assert(lit_size_eq() =~= key_size() + seq![61u8]);
    let empty_toks = Seq::<Seq<u8>>::empty();
    match (pcrc, fcrc) {
        (None, None) => {
            let t2 = dec_token(key_part(), p as nat);
            lemma_dec_token(key_part(), p as nat);
            let toks = seq![t1, t2];
            assert(c.skip(6) =~= join_sp(toks)) by {
                assert(seq![t1, t2].drop_first() =~= seq![t2]);
                assert(join_sp(seq![t2]) == t2);
                assert(join_sp(toks) == t1 + seq![32u8] + t2);
                assert(lit_sp_part_eq() =~= seq![32u8] + (key_part() + seq![61u8]));
            }
            lemma_tokens_join(toks);
            assert(toks =~= seq![t1].push(t2));
            assert(seq![t1] =~= empty_toks.push(t1));
            lemma_field_raw_snoc_miss(seq![t1], t2, key_size());
            lemma_field_raw_snoc_hit(empty_toks, t1, key_size(), spec_dec_digits(size as nat));
            lemma_field_raw_snoc_hit(seq![t1], t2, key_part(), spec_dec_digits(p as nat));
            lemma_field_raw_snoc_miss(seq![t1], t2, key_pcrc32());
            lemma_field_raw_snoc_miss(empty_toks, t1, key_pcrc32());
            lemma_field_raw_snoc_miss(seq![t1], t2, key_crc32());
            lemma_field_raw_snoc_miss(empty_toks, t1, key_crc32());
        },
        (Some(c1), None) => {
            let t2 = dec_token(key_part(), p as nat);
            let t3 = hex_token(key_pcrc32(), c1);
            lemma_dec_token(key_part(), p as nat);
            lemma_hex_token(key_pcrc32(), c1);
            let toks = seq![t1, t2, t3];
            assert(c.skip(6) =~= join_sp(toks)) by {
                assert(seq![t1, t2, t3].drop_first() =~= seq![t2, t3]);
                assert(seq![t2, t3].drop_first() =~= seq![t3]);
                assert(join_sp(seq![t3]) == t3);
                assert(join_sp(seq![t2, t3]) == t2 + seq![32u8] + t3);
                assert(join_sp(toks) == t1 + seq![32u8] + join_sp(seq![t2, t3]));
                assert(lit_sp_part_eq() =~= seq![32u8] + (key_part() + seq![61u8]));
                assert(lit_sp_pcrc32_eq() =~= seq![32u8] + (key_pcrc32() + seq![61u8]));
            }
            lemma_tokens_join(toks);
            assert(toks =~= seq![t1, t2].push(t3));
            assert(seq![t1, t2] =~= seq![t1].push(t2));
            assert(seq![t1] =~= empty_toks.push(t1));
            lemma_field_raw_snoc_miss(seq![t1, t2], t3, key_size());
            lemma_field_raw_snoc_miss(seq![t1], t2, key_size());
            lemma_field_raw_snoc_hit(empty_toks, t1, key_size(), spec_dec_digits(size as nat));
            lemma_field_raw_snoc_miss(seq![t1, t2], t3, key_part());
            lemma_field_raw_snoc_hit(seq![t1], t2, key_part(), spec_dec_digits(p as nat));
            lemma_field_raw_snoc_hit(seq![t1, t2], t3, key_pcrc32(), spec_hex8(c1));
            lemma_field_raw_snoc_miss(seq![t1, t2], t3, key_crc32());
            lemma_field_raw_snoc_miss(seq![t1], t2, key_crc32());
            lemma_field_raw_snoc_miss(empty_toks, t1, key_crc32());
        },
        (None, Some(c2)) => {
            let t2 = dec_token(key_part(), p as nat);
            let t4 = hex_token(key_crc32(), c2);
            lemma_dec_token(key_part(), p as nat);
            lemma_hex_token(key_crc32(), c2);
            let toks = seq![t1, t2, t4];
            assert(c.skip(6) =~= join_sp(toks)) by {
                assert(seq![t1, t2, t4].drop_first() =~= seq![t2, t4]);
                assert(seq![t2, t4].drop_first() =~= seq![t4]);
                assert(join_sp(seq![t4]) == t4);
                assert(join_sp(seq![t2, t4]) == t2 + seq![32u8] + t4);
                assert(join_sp(toks) == t1 + seq![32u8] + join_sp(seq![t2, t4]));
                assert(lit_sp_part_eq() =~= seq![32u8] + (key_part() + seq![61u8]));
                assert(lit_sp_crc32_eq() =~= seq![32u8] + (key_crc32() + seq![61u8]));
            }
            lemma_tokens_join(toks);
            assert(toks =~= seq![t1, t2].push(t4));
            assert(seq![t1, t2] =~= seq![t1].push(t2));
            assert(seq![t1] =~= empty_toks.push(t1));
            lemma_field_raw_snoc_miss(seq![t1, t2], t4, key_size());
            lemma_field_raw_snoc_miss(seq![t1], t2, key_size());
            lemma_field_raw_snoc_hit(empty_toks, t1, key_size(), spec_dec_digits(size as nat));
            lemma_field_raw_snoc_miss(seq![t1, t2], t4, key_part());
            lemma_field_raw_snoc_hit(seq![t1], t2, key_part(), spec_dec_digits(p as nat));
            lemma_field_raw_snoc_miss(seq![t1, t2], t4, key_pcrc32());
            lemma_field_raw_snoc_miss(seq![t1], t2, key_pcrc32());
            lemma_field_raw_snoc_miss(empty_toks, t1, key_pcrc32());
            lemma_field_raw_snoc_hit(seq![t1, t2], t4, key_crc32(), spec_hex8(c2));
        },
        (Some(c1), Some(c2)) => {
            let t2 = dec_token(key_part(), p as nat);
            let t3 = hex_token(key_pcrc32(), c1);
            let t4 = hex_token(key_crc32(), c2);
            lemma_dec_token(key_part(), p as nat);
            lemma_hex_token(key_pcrc32(), c1);
            lemma_hex_token(key_crc32(), c2);
            let toks = seq![t1, t2, t3, t4];
            assert(c.skip(6) =~= join_sp(toks)) by {
                assert(seq![t1, t2, t3, t4].drop_first() =~= seq![t2, t3, t4]);
                assert(seq![t2, t3, t4].drop_first() =~= seq![t3, t4]);
                assert(seq![t3, t4].drop_first() =~= seq![t4]);
                assert(join_sp(seq![t4]) == t4);
                assert(join_sp(seq![t3, t4]) == t3 + seq![32u8] + t4);
                assert(join_sp(seq![t2, t3, t4]) == t2 + seq![32u8] + join_sp(seq![t3, t4]));
                assert(join_sp(toks) == t1 + seq![32u8] + join_sp(seq![t2, t3, t4]));
                assert(lit_sp_part_eq() =~= seq![32u8] + (key_part() + seq![61u8]));
                assert(lit_sp_pcrc32_eq() =~= seq![32u8] + (key_pcrc32() + seq![61u8]));
                assert(lit_sp_crc32_eq() =~= seq![32u8] + (key_crc32() + seq![61u8]));
            }
            lemma_tokens_join(toks);
            assert(toks =~= seq![t1, t2, t3].push(t4));
            assert(seq![t1, t2, t3] =~= seq![t1, t2].push(t3));
            assert(seq![t1, t2] =~= seq![t1].push(t2));
            assert(seq![t1] =~= empty_toks.push(t1));
            lemma_field_raw_snoc_miss(seq![t1, t2, t3], t4, key_size());
            lemma_field_raw_snoc_miss(seq![t1, t2], t3, key_size());
            lemma_field_raw_snoc_miss(seq![t1], t2, key_size());
            lemma_field_raw_snoc_hit(empty_toks, t1, key_size(), spec_dec_digits(size as nat));
            lemma_field_raw_snoc_miss(seq![t1, t2, t3], t4, key_part());
            lemma_field_raw_snoc_miss(seq![t1, t2], t3, key_part());
            lemma_field_raw_snoc_hit(seq![t1], t2, key_part(), spec_dec_digits(p as nat));
            lemma_field_raw_snoc_miss(seq![t1, t2, t3], t4, key_pcrc32());
            lemma_field_raw_snoc_hit(seq![t1, t2], t3, key_pcrc32(), spec_hex8(c1));
            lemma_field_raw_snoc_hit(seq![t1, t2, t3], t4, key_crc32(), spec_hex8(c2));
        },
    }
}

/// Decoding a concatenation: decode the first piece, then the second from
/// the escape state the first one left.
proof fn lemma_segment_concat(s1: Seq<u8>, s2: Seq<u8>, esc: bool, strict: bool)
    ensures
        spec_decode_segment(s1 + s2, esc, strict) == (match spec_decode_segment(s1, esc, strict) {
            Some(r1) => (match spec_decode_segment(s2, r1.1, strict) {
                Some(r2) => Some((r1.0 + r2.0, r2.1)),
                None => None,
            }),
            None => None::<(Seq<u8>, bool)>,
        }),
    decreases s1.len(),
{
    let s = s1 + s2;
    if s1.len() == 0 {
        assert(s =~= s2);
        match spec_decode_segment(s2, esc, strict) {
            Some(r2) => {
                assert(Seq::<u8>::empty() + r2.0 =~= r2.0);
            },
            None => {},
        }
    } else {
        assert(s[0] == s1[0]);
        assert(s.drop_first() =~= s1.drop_first() + s2);
        if s1[0] == 61 {
            lemma_segment_concat(s1.drop_first(), s2, true, strict);
        } else if esc {
            let d = spec_unescape(s1[0]);
            if strict && !crate::transform::spec_is_canonical(d) {
            } else {
                lemma_segment_concat(s1.drop_first(), s2, false, strict);
                match spec_decode_segment(s1.drop_first(), false, strict) {
                    Some(r1) => {
                        match spec_decode_segment(s2, r1.1, strict) {
                            Some(r2) => {
                                assert(seq![d] + (r1.0 + r2.0) =~= (seq![d] + r1.0) + r2.0);
                            },
                            None => {},
                        }
                    },
                    None => {},
                }
            }
        } else {
            let d = spec_decode_byte(s1[0]);
            lemma_segment_concat(s1.drop_first(), s2, false, strict);
            match spec_decode_segment(s1.drop_first(), false, strict) {
                Some(r1) => {
                    match spec_decode_segment(s2, r1.1, strict) {
                        Some(r2) => {
                            assert(seq![d] + (r1.0 + r2.0) =~= (seq![d] + r1.0) + r2.0);
                        },
                        None => {},
                    }
                },
                None => {},
            }
        }
    }
}

/// Bounds and meaning of `first_nl`.
proof fn lemma_first_nl_bounds(s: Seq<u8>)
    ensures
        0 <= first_nl(s) <= s.len(),
        forall|j: int| 0 <= j < first_nl(s) ==> #[trigger] s[j] != 10,
        first_nl(s) < s.len() ==> s[first_nl(s)] == 10,
    decreases s.len(),
{
    if s.len() > 0 && s[0] != 10 {
        lemma_first_nl_bounds(s.drop_first());
        assert forall|j: int| 0 <= j < first_nl(s) implies #[trigger] s[j] != 10 by {
            if j > 0 {
                assert(s.drop_first()[j - 1] != 10);
            }
        }
    }
}

/// Trimming the back keeps a prefix of the sequence.
proof fn lemma_trim_back_prefix(s: Seq<u8>)
    ensures
        spec_trim_back(s).len() <= s.len(),
        spec_trim_back(s) == s.take(spec_trim_back(s).len() as int),
    decreases s.len(),
{
    if s.len() > 0 && spec_is_ws(s.last()) {
        lemma_trim_back_prefix(s.drop_last());
        assert(s.drop_last() =~= s.take(s.len() - 1));
        assert(s.take(s.len() - 1).take(spec_trim_back(s).len() as int) =~= s.take(
            spec_trim_back(s).len() as int,
        ));
    } else {
        assert(s.take(s.len() as int) =~= s);
    }
}

/// A sequence whose first byte is not whitespace trims to something that
/// keeps its head bytes.
proof fn lemma_trim_head(s: Seq<u8>)
    requires
        s.len() > 0,
        !spec_is_ws(s[0]),
    ensures
        spec_trim(s).len() >= 1,
        spec_trim(s).len() <= s.len(),
        spec_trim(s)[0] == s[0],
        spec_trim(s).len() >= 2 ==> spec_trim(s)[1] == s[1],
    decreases s.len(),
{
    assert(spec_trim_front(s) == s);
    lemma_trim_back_prefix(s);
    lemma_trim_back_keeps_head(s);
}

/// Trimming the back of a sequence with a non-whitespace head keeps at
/// least that head.
proof fn lemma_trim_back_keeps_head(s: Seq<u8>)
    requires
        s.len() > 0,
        !spec_is_ws(s[0]),
    ensures
        spec_trim_back(s).len() >= 1,
    decreases s.len(),
{
    if spec_is_ws(s.last()) {
        assert(s.len() >= 2);
        assert(s.drop_last()[0] == s[0]);
        lemma_trim_back_keeps_head(s.drop_last());
    }
}

/// A whitespace-free sequence carries no line feed.
proof fn lemma_ws_free_lf_free(s: Seq<u8>)
    requires
        ws_free(s),
    ensures
        lf_free(s),
{
    assert forall|i: int| 0 <= i < s.len() implies #[trigger] s[i] != 10 by {
        assert(!spec_is_ws(s[i]));
    }
}

/// The constructed begin line: one line, no surrounding whitespace, and the
/// begin prefix in front.
proof fn lemma_begin_content_facts(
    pt: Option<(nat, nat)>,
    line: nat,
    size: nat,
    name: Seq<u8>,
)
    requires
        ws_free(name),
    ensures
        lf_free(spec_begin_content(pt, line, size, name)),
        spec_trim(spec_begin_content(pt, line, size, name)) == spec_begin_content(
            pt,
            line,
            size,
            name,
        ),
        has_prefix(spec_begin_content(pt, line, size, name), begin_line_prefix()),
{
    let c = spec_begin_content(pt, line, size, name);
    lemma_dec_digits_classes(line);
    lemma_dec_digits_classes(size);
    let mid = match pt {
        Some(p) => lit_part_eq() + spec_dec_digits(p.0) + lit_sp_total_eq() + spec_dec_digits(
            p.1,
        ) + lit_sp_line_eq(),
        None => lit_line_eq(),
    };
    assert(lf_free(mid)) by {
        match pt {
            Some(p) => {
                lemma_dec_digits_classes(p.0);
                lemma_dec_digits_classes(p.1);
                lemma_ws_free_lf_free(spec_dec_digits(p.0));
                lemma_ws_free_lf_free(spec_dec_digits(p.1));
                assert(lf_free(lit_part_eq()));
                assert(lf_free(lit_sp_total_eq()));
                assert(lf_free(lit_sp_line_eq()));
                lemma_lf_free_concat(lit_part_eq(), spec_dec_digits(p.0));
                lemma_lf_free_concat(lit_part_eq() + spec_dec_digits(p.0), lit_sp_total_eq());
                lemma_lf_free_concat(
                    lit_part_eq() + spec_dec_digits(p.0) + lit_sp_total_eq(),
                    spec_dec_digits(p.1),
                );
                lemma_lf_free_concat(
                    lit_part_eq() + spec_dec_digits(p.0) + lit_sp_total_eq() + spec_dec_digits(
                        p.1,
                    ),
                    lit_sp_line_eq(),
                );
            },
            None => {
                assert(lf_free(lit_line_eq()));
            },
        }
    }
    assert(lf_free(c)) by {
        lemma_ws_free_lf_free(spec_dec_digits(line));
        lemma_ws_free_lf_free(spec_dec_digits(size));
        lemma_ws_free_lf_free(name);
        assert(lf_free(begin_line_prefix()));
        assert(lf_free(lit_sp_size_eq()));
        assert(lf_free(lit_sp_name_eq()));
        lemma_lf_free_concat(begin_line_prefix(), mid);
        lemma_lf_free_concat(begin_line_prefix() + mid, spec_dec_digits(line));
        lemma_lf_free_concat(begin_line_prefix() + mid + spec_dec_digits(line), lit_sp_size_eq());
        lemma_lf_free_concat(
            begin_line_prefix() + mid + spec_dec_digits(line) + lit_sp_size_eq(),
            spec_dec_digits(size),
        );
        lemma_lf_free_concat(
            begin_line_prefix() + mid + spec_dec_digits(line) + lit_sp_size_eq()
                + spec_dec_digits(size),
            lit_sp_name_eq(),
        );
        lemma_lf_free_concat(
            begin_line_prefix() + mid + spec_dec_digits(line) + lit_sp_size_eq()
                + spec_dec_digits(size) + lit_sp_name_eq(),
            name,
        );
    }
    assert(has_prefix(c, begin_line_prefix())) by {
        assert(c.take(8) =~= begin_line_prefix());
    }
    assert(c[0] == 61);
    let before_name = begin_line_prefix() + mid + spec_dec_digits(line) + lit_sp_size_eq()
        + spec_dec_digits(size) + lit_sp_name_eq();
    assert(!spec_is_ws(c.last())) by {
        if name.len() > 0 {
            assert(c.last() == name[name.len() - 1]);
        } else {
            assert(c.last() == lit_sp_name_eq().last());
            assert(lit_sp_name_eq().last() == 61);
        }
    }
    lemma_trim_self(c);
}

/// The constructed part line: one line, no surrounding whitespace, and the
/// part prefix in front.
proof fn lemma_part_content_facts(begin: nat, end: nat)
    ensures
        lf_free(spec_part_content(begin, end)),
        spec_trim(spec_part_content(begin, end)) == spec_part_content(begin, end),
        has_prefix(spec_part_content(begin, end), part_line_prefix()),
{
    let c = spec_part_content(begin, end);
    lemma_dec_digits_classes(begin);
    lemma_dec_digits_classes(end);
    assert(lf_free(c)) by {
        lemma_ws_free_lf_free(spec_dec_digits(begin));
        lemma_ws_free_lf_free(spec_dec_digits(end));
        assert(lf_free(part_line_prefix()));
        assert(lf_free(lit_begin_eq()));
        assert(lf_free(lit_sp_end_eq()));
        lemma_lf_free_concat(part_line_prefix(), lit_begin_eq());
        lemma_lf_free_concat(part_line_prefix() + lit_begin_eq(), spec_dec_digits(begin));
        lemma_lf_free_concat(
            part_line_prefix() + lit_begin_eq() + spec_dec_digits(begin),
            lit_sp_end_eq(),
        );
        lemma_lf_free_concat(
            part_line_prefix() + lit_begin_eq() + spec_dec_digits(begin) + lit_sp_end_eq(),
            spec_dec_digits(end),
        );
    }
    assert(has_prefix(c, part_line_prefix())) by {
        assert(c.take(7) =~= part_line_prefix());
    }
    assert(c[0] == 61);
    assert(!spec_is_ws(c.last())) by {
        assert(c.last() == spec_dec_digits(end)[spec_dec_digits(end).len() - 1]);
    }
    lemma_trim_self(c);
}

/// The constructed end line: one line, no surrounding whitespace, the end
/// prefix in front — and not the part prefix.
proof fn lemma_end_content_facts(
    size: nat,
    part: Option<nat>,
    pcrc: Option<u32>,
    fcrc: Option<u32>,
)
    ensures
        lf_free(spec_end_content(size, part, pcrc, fcrc)),
        spec_trim(spec_end_content(size, part, pcrc, fcrc)) == spec_end_content(
            size,
            part,
            pcrc,
            fcrc,
        ),
        has_prefix(spec_end_content(size, part, pcrc, fcrc), end_line_prefix()),
        !has_prefix(spec_end_content(size, part, pcrc, fcrc), part_line_prefix()),
{
    let c = spec_end_content(size, part, pcrc, fcrc);
    lemma_dec_digits_classes(size);
    let s2 = match part {
        Some(p) => lit_sp_part_eq() + spec_dec_digits(p),
        None => Seq::<u8>::empty(),
    };
    let s3 = match pcrc {
        Some(v) => lit_sp_pcrc32_eq() + spec_hex8(v),
        None => Seq::<u8>::empty(),
    };
    let s4 = match fcrc {
        Some(v) => lit_sp_crc32_eq() + spec_hex8(v),
        None => Seq::<u8>::empty(),
    };
    assert(lf_free(s2)) by {
        match part {
            Some(p) => {
                lemma_dec_digits_classes(p);
                lemma_ws_free_lf_free(spec_dec_digits(p));
                assert(lf_free(lit_sp_part_eq()));
                lemma_lf_free_concat(lit_sp_part_eq(), spec_dec_digits(p));
            },
            None => {},
        }
    }
    assert(lf_free(s3)) by {
        match pcrc {
            Some(v) => {
                lemma_hex8_classes(v);
                lemma_ws_free_lf_free(spec_hex8(v));
                assert(lf_free(lit_sp_pcrc32_eq()));
                lemma_lf_free_concat(lit_sp_pcrc32_eq(), spec_hex8(v));
            },
            None => {},
        }
    }
    assert(lf_free(s4)) by {
        match fcrc {
            Some(v) => {
                lemma_hex8_classes(v);
                lemma_ws_free_lf_free(spec_hex8(v));
                assert(lf_free(lit_sp_crc32_eq()));
                lemma_lf_free_concat(lit_sp_crc32_eq(), spec_hex8(v));
            },
            None => {},
        }
    }
    assert(lf_free(c)) by {
        lemma_ws_free_lf_free(spec_dec_digits(size));
        assert(lf_free(end_line_prefix()));
        assert(lf_free(lit_size_eq()));
        lemma_lf_free_concat(end_line_prefix(), lit_size_eq());
        lemma_lf_free_concat(end_line_prefix() + lit_size_eq(), spec_dec_digits(size));
        lemma_lf_free_concat(end_line_prefix() + lit_size_eq() + spec_dec_digits(size), s2);
        lemma_lf_free_concat(end_line_prefix() + lit_size_eq() + spec_dec_digits(size) + s2, s3);
        lemma_lf_free_concat(
            end_line_prefix() + lit_size_eq() + spec_dec_digits(size) + s2 + s3,
            s4,
        );
    }
    assert(has_prefix(c, end_line_prefix())) by {
        assert(c.take(6) =~= end_line_prefix());
    }
    assert(!has_prefix(c, part_line_prefix())) by {
        assert(c[2] == 101);
        if has_prefix(c, part_line_prefix()) {
            assert(c.take(7)[2] == part_line_prefix()[2]);
            assert(part_line_prefix()[2] == 112);
        }
    }
    assert(c[0] == 61);
    assert(!spec_is_ws(c.last())) by {
        match fcrc {
            Some(v) => {
                lemma_hex8_classes(v);
                assert(c.last() == spec_hex8(v)[spec_hex8(v).len() - 1]);
            },
            None => {
                match pcrc {
                    Some(v) => {
                        lemma_hex8_classes(v);
                        assert(c.last() == spec_hex8(v)[spec_hex8(v).len() - 1]);
                    },
                    None => {
                        match part {
                            Some(p) => {
                                lemma_dec_digits_classes(p);
                                assert(c.last() == spec_dec_digits(p)[spec_dec_digits(p).len()
                                    - 1]);
                            },
                            None => {
                                assert(c.last() == spec_dec_digits(size)[spec_dec_digits(
                                    size,
                                ).len() - 1]);
                            },
                        }
                    },
                }
            },
        }
    }
    lemma_trim_self(c);
}

/// The wire form of one raw byte: what it decodes to, and the bytes it may
/// contain — never whitespace, and never an escape marker that could open
/// a control-line prefix.
proof fn lemma_chunk(b: u8)
    ensures
        spec_decode_segment(spec_encode_one(b), false, false) == Some((seq![b], false)),
        ws_free(spec_encode_one(b)),
        spec_encode_one(b).len() >= 1,
        spec_encode_one(b)[0] == 61 ==> spec_encode_one(b).len() == 2 && spec_encode_one(b)[1]
            != 121 && spec_encode_one(b)[1] != 61,
{
    let enc = spec_encode_byte(b);
    lemma_decode_encode_byte(b);
    if spec_needs_escape(b) {
        let pair = spec_escape_pair(b);
        assert(b == 61 ==> enc == 103) by {
            assert((61 as int + 42) % 256 == 103);
        }
        assert(pair == (if enc <= 191 {
            (enc + 64) as u8
        } else {
            (enc - 192) as u8
        })) by {
            if enc <= 191 {
                assert((enc as int + 64) % 256 == enc as int + 64);
            } else {
                assert((enc as int + 64) % 256 == enc as int + 64 - 256);
            }
        }
        assert(pair != 61 && pair != 121 && !spec_is_ws(pair));
        lemma_unescape_escape_pair(b);
        let chunk = spec_encode_one(b);
        assert(chunk.drop_first() =~= seq![pair]);
        assert(seq![pair].drop_first() =~= Seq::<u8>::empty());
        assert(spec_unescape(pair) == b);
        assert(seq![b] + Seq::<u8>::empty() =~= seq![b]);
        assert(spec_decode_segment(Seq::<u8>::empty(), false, false) == Some((
            Seq::<u8>::empty(),
            false,
        )));
        assert(spec_decode_segment(seq![pair], true, false) == Some((seq![b], false)));
        assert(ws_free(chunk)) by {
            assert(chunk[0] == 61);
            assert(chunk[1] == pair);
        }
    } else {
        assert(!spec_is_ws(enc) && enc != 61);
        let chunk = spec_encode_one(b);
        assert(chunk.drop_first() =~= Seq::<u8>::empty());
        assert(spec_decode_segment(Seq::<u8>::empty(), false, false) == Some((
            Seq::<u8>::empty(),
            false,
        )));
        assert(seq![b] + Seq::<u8>::empty() =~= seq![b]);
        assert(ws_free(chunk)) by {
            assert(chunk[0] == enc);
        }
    }
}

/// The head bytes a partial body line may show: never a control-line
/// prefix.
spec fn safe_head(cur: Seq<u8>) -> bool {
    cur.len() > 0 ==> (cur[0] != 61 || (cur.len() >= 2 && cur[1] != 121))
}

/// A partial body line with a safe head never looks like a control line.
proof fn lemma_safe_head_no_prefix(cur: Seq<u8>, prefix: Seq<u8>)
    requires
        safe_head(cur),
        prefix.len() >= 2,
        prefix[0] == 61,
        prefix[1] == 121,
    ensures
        !has_prefix(cur, prefix),
{
    if has_prefix(cur, prefix) {
        assert(cur.take(prefix.len() as int)[0] == prefix[0]);
        assert(cur.take(prefix.len() as int)[1] == prefix[1]);
        assert(cur[0] == 61 && cur[1] == 121);
    }
}

/// The first line of an encoded body followed by anything never looks like
/// a part line.
proof fn lemma_body_stream_head(data: Seq<u8>, limit: int, rest: Seq<u8>)
    requires
        data.len() > 0,
    ensures
        ({
            let stream = spec_encode_body(data, 0, limit) + rest;
            let ls = spec_lines(stream);
            ls.len() > 0 && !has_prefix(spec_trim(ls[0]), part_line_prefix())
        }),
{
    let e = spec_encode_one(data[0]);
    lemma_chunk(data[0]);
    let body = spec_encode_body(data, 0, limit);
    let stream = body + rest;
    assert(stream.len() >= e.len() && (forall|i: int|
        0 <= i < e.len() ==> #[trigger] stream[i] == e[i])) by {
        if 0 + e.len() >= limit {
            assert(body == e + seq![10u8] + spec_encode_body(data.drop_first(), 0, limit));
        } else {
            assert(body == e + spec_encode_body(data.drop_first(), 0 + e.len() as int, limit));
        }
    }
    lemma_first_nl_bounds(stream);
    let i0 = first_nl(stream);
    assert(i0 >= e.len()) by {
        if i0 < e.len() {
            assert(stream[i0] == e[i0]);
            assert(!spec_is_ws(e[i0]));
        }
    }
    let ls = spec_lines(stream);
    let l = ls[0];
    assert(ls.len() > 0 && l.len() >= e.len() && l[0] == e[0] && (e.len() >= 2 ==> l[1] == e[1]))
        by {
        if 0 <= i0 < stream.len() {
            assert(ls == seq![stream.take(i0)] + spec_lines(stream.skip(i0 + 1)));
            assert(l == stream.take(i0));
        } else {
            assert(ls == seq![stream]);
        }
    }
    assert(!spec_is_ws(l[0]));
    lemma_trim_head(l);
    let t = spec_trim(l);
    if has_prefix(t, part_line_prefix()) {
        assert(t.take(7)[0] == part_line_prefix()[0]);
        assert(t.take(7)[1] == part_line_prefix()[1]);
        assert(t[0] == 61 && t[1] == 121);
        assert(l[0] == 61);
        assert(e[0] == 61);
        assert(e.len() == 2 && e[1] != 121);
        assert(t[1] == l[1]);
        assert(l[1] == e[1]);
    }
}

/// The body scan of an encoded body: decoding the wrapped lines yields the
/// raw bytes back, and the end line closes the stream through the
/// validation chain.  `cur` is the portion of the current line already
/// emitted, `dcur` what it decodes to, and `acc` the output of the completed
/// lines before it.
#[verifier::rlimit(100)]
proof fn lemma_body(
    h: SpecHeader,
    p: Option<YencPart>,
    data: Seq<u8>,
    col: int,
    limit: int,
    cur: Seq<u8>,
    dcur: Seq<u8>,
    acc: Seq<u8>,
    endc: Seq<u8>,
    tr: YencTrailer,
    check: bool,
)
    requires
        col == cur.len(),
        ws_free(cur),
        safe_head(cur),
        spec_decode_segment(cur, false, false) == Some((dcur, false)),
        lf_free(endc),
        spec_trim(endc) == endc,
        has_prefix(endc, end_line_prefix()),
        spec_parse_trailer(endc) == Ok::<_, SpecError>(tr),
    ensures
        spec_body_loop(
            h,
            p,
            spec_lines(cur + spec_encode_body(data, col, limit) + (endc + seq![10u8])),
            false,
            acc,
            false,
            check,
        ) == spec_finish(h, p, tr, acc + dcur + data, check),
    decreases data.len(),
{
    let endl = endc + seq![10u8];
    if data.len() == 0 {
        if col > 0 {
            let stream = cur + spec_encode_body(data, col, limit) + endl;
            assert(stream =~= cur + seq![10u8] + endl);
            lemma_ws_free_lf_free(cur);
            lemma_lines_prepend(cur, endl);
            lemma_lines_prepend(endc, Seq::empty());
            assert(endc + seq![10u8] + Seq::<u8>::empty() =~= endl);
            assert(spec_lines(endl) == seq![endc] + spec_lines(Seq::<u8>::empty()));
            assert(seq![endc] + spec_lines(Seq::<u8>::empty()) =~= seq![endc]);
            let ls = seq![cur] + spec_lines(endl);
            assert(ls =~= seq![cur, endc]);
            assert(spec_lines(stream) == seq![cur] + spec_lines(endl));
            // First line: the pending body bytes.
            crate::lines::lemma_trim_ws_free(cur);
            lemma_safe_head_no_prefix(cur, end_line_prefix());
            lemma_body_loop_data(h, p, seq![cur, endc], false, acc, false, check);
            assert(seq![cur, endc].drop_first() =~= seq![endc]);
            // Second line: the end line.
            lemma_body_loop_end(h, p, seq![endc], false, acc + dcur, false, check);
            assert(spec_body_loop(h, p, seq![cur, endc], false, acc, false, check)
                == spec_finish(h, p, tr, acc + dcur, check));
            assert(acc + dcur + data =~= acc + dcur);
        } else {
            assert(cur =~= Seq::<u8>::empty());
            assert(dcur =~= Seq::<u8>::empty());
            let stream = cur + spec_encode_body(data, col, limit) + endl;
            assert(stream =~= endc + seq![10u8] + Seq::<u8>::empty());
            lemma_lines_prepend(endc, Seq::empty());
            assert(seq![endc] + spec_lines(Seq::<u8>::empty()) =~= seq![endc]);
            assert(spec_lines(stream) == seq![endc]);
            lemma_body_loop_end(h, p, seq![endc], false, acc, false, check);
            assert(acc + dcur + data =~= acc);
        }
    } else {
        let b0 = data[0];
        let e = spec_encode_one(b0);
        lemma_chunk(b0);
        lemma_segment_concat(cur, e, false, false);
        assert(spec_decode_segment(cur + e, false, false) == Some((dcur + seq![b0], false)));
        lemma_ws_free_concat(cur, e);
        assert(safe_head(cur + e)) by {
            if cur.len() >= 2 {
                assert((cur + e)[0] == cur[0] && (cur + e)[1] == cur[1]);
            } else if cur.len() == 1 {
                assert(cur[0] != 61);
                assert((cur + e)[0] == cur[0]);
            } else {
                assert(cur + e =~= e);
            }
        }
        let rest_d = data.drop_first();
        if col + e.len() >= limit {
            // The chunk closes the current line.
            let stream = cur + spec_encode_body(data, col, limit) + endl;
            let tail = spec_encode_body(rest_d, 0, limit) + endl;
            assert(stream =~= (cur + e) + seq![10u8] + tail);
            lemma_ws_free_lf_free(cur + e);
            lemma_lines_prepend(cur + e, tail);
            assert(spec_lines(stream) == seq![cur + e] + spec_lines(tail));
            crate::lines::lemma_trim_ws_free(cur + e);
            lemma_safe_head_no_prefix(cur + e, end_line_prefix());
            let ls = seq![cur + e] + spec_lines(tail);
            assert(ls.len() > 0 && ls[0] == cur + e);
            lemma_body_loop_data(h, p, ls, false, acc, false, check);
            assert(ls.drop_first() =~= spec_lines(tail));
            lemma_body(
                h,
                p,
                rest_d,
                0,
                limit,
                Seq::empty(),
                Seq::empty(),
                acc + (dcur + seq![b0]),
                endc,
                tr,
                check,
            );
            assert(spec_decode_segment(Seq::<u8>::empty(), false, false) == Some((
                Seq::<u8>::empty(),
                false,
            )));
            assert(Seq::<u8>::empty() + spec_encode_body(rest_d, 0, limit) + endl =~= tail);
            assert(acc + (dcur + seq![b0]) + Seq::<u8>::empty() + rest_d =~= acc + dcur + data);
        } else {
            // The chunk stays on the current line.
            let stream = cur + spec_encode_body(data, col, limit) + endl;
            lemma_body(
                h,
                p,
                rest_d,
                col + e.len(),
                limit,
                cur + e,
                dcur + seq![b0],
                acc,
                endc,
                tr,
                check,
            );
            assert((cur + e) + spec_encode_body(rest_d, col + e.len(), limit) + endl =~= stream);
            assert(acc + (dcur + seq![b0]) + rest_d =~= acc + dcur + data);
        }
    }
}

/// The frame a stream takes: a begin line, an optional part line, the
/// encoded body of `data`, and an end line with the given field values.
spec fn spec_frame(
    pt: Option<(usize, usize)>,
    line_len: usize,
    size_field: usize,
    name: Seq<u8>,
    pl: Option<(usize, usize)>,
    data: Seq<u8>,
    tsize: usize,
    tpart: Option<usize>,
    pcrc: Option<u32>,
    fcrc: Option<u32>,
) -> Seq<u8> {
    spec_begin_line(
        (match pt {
            Some(p) => Some((p.0 as nat, p.1 as nat)),
            None => None,
        }),
        line_len as nat,
        size_field as nat,
        name,
    ) + (match pl {
        Some(be) => spec_part_line(be.0 as nat, be.1 as nat),
        None => Seq::empty(),
    }) + spec_encode_body(data, 0, line_len as int) + spec_end_line(
        tsize as nat,
        (match tpart {
            Some(p) => Some(p as nat),
            None => None,
        }),
        pcrc,
        fcrc,
    )
}

/// The header a frame's begin line parses to.
spec fn frame_header(
    pt: Option<(usize, usize)>,
    line_len: usize,
    size_field: usize,
    name: Seq<u8>,
) -> SpecHeader {
    SpecHeader {
        name: vstd::utf8::decode_utf8(name),
        size: size_field,
        line_len: Some(line_len),
        part: (match pt {
            Some(p) => Some(p.0),
            None => None,
        }),
        total: (match pt {
            Some(p) => Some(p.1),
            None => None,
        }),
    }
}

/// What decoding a frame yields: the parsed control lines, the raw bytes
/// back, and the validation chain of [`spec_finish`] over them.
#[verifier::rlimit(100)]
proof fn lemma_decode_frame(
    pt: Option<(usize, usize)>,
    line_len: usize,
    size_field: usize,
    name: Seq<u8>,
    pl: Option<(usize, usize)>,
    data: Seq<u8>,
    tsize: usize,
    tpart: Option<usize>,
    pcrc: Option<u32>,
    fcrc: Option<u32>,
    check: bool,
)
    requires
        ws_free(name),
        valid_utf8(name),
        pt is Some ==> pl is Some,
    ensures
        spec_decode(
            spec_frame(pt, line_len, size_field, name, pl, data, tsize, tpart, pcrc, fcrc),
            false,
            check,
        ) == spec_finish(
            frame_header(pt, line_len, size_field, name),
            (match pl {
                Some(be) => Some(YencPart { begin: be.0, end: be.1 }),
                None => None,
            }),
            YencTrailer { size: tsize, part: tpart, pcrc32: pcrc, crc32: fcrc },
            data,
            check,
        ),
{
    let ptn: Option<(nat, nat)> = match pt {
        Some(p) => Some((p.0 as nat, p.1 as nat)),
        None => None,
    };
    let tpartn: Option<nat> = match tpart {
        Some(p) => Some(p as nat),
        None => None,
    };
    let bc = spec_begin_content(ptn, line_len as nat, size_field as nat, name);
    let endc = spec_end_content(tsize as nat, tpartn, pcrc, fcrc);
    let endl = endc + seq![10u8];
    let hdr = frame_header(pt, line_len, size_field, name);
    let texp = YencTrailer { size: tsize, part: tpart, pcrc32: pcrc, crc32: fcrc };
    let body = spec_encode_body(data, 0, line_len as int);
    let stream = spec_frame(pt, line_len, size_field, name, pl, data, tsize, tpart, pcrc, fcrc);

    lemma_begin_content_facts(ptn, line_len as nat, size_field as nat, name);
    lemma_parse_begin_content(pt, line_len, size_field, name);
    lemma_end_content_facts(tsize as nat, tpartn, pcrc, fcrc);
    lemma_parse_end_content(tsize, tpart, pcrc, fcrc);

    match pl {
        Some(be) => {
            let pexp = YencPart { begin: be.0, end: be.1 };
            let pc = spec_part_content(be.0 as nat, be.1 as nat);
            lemma_part_content_facts(be.0 as nat, be.1 as nat);
            lemma_parse_part_content(be.0, be.1);
            let r2 = body + endl;
            let r1 = pc + seq![10u8] + r2;
            assert(stream =~= bc + seq![10u8] + r1);
            lemma_lines_prepend(bc, r1);
            lemma_lines_prepend(pc, r2);
            let ls = spec_lines(stream);
            assert(ls == seq![bc] + spec_lines(r1));
            assert(ls[0] == bc);
            assert(ls.len() > 0);
            assert(spec_find_header(ls) == Ok::<_, SpecError>((hdr, ls.drop_first())));
            assert(ls.drop_first() =~= spec_lines(r1));
            let lr1 = spec_lines(r1);
            assert(lr1 == seq![pc] + spec_lines(r2));
            assert(lr1[0] == pc && lr1.len() > 0);
            // The stream after the part line is never empty: the end line is
            // there, and a non-empty body adds lines of its own.
            assert(spec_lines(r2).len() > 0) by {
                if data.len() == 0 {
                    assert(body == Seq::<u8>::empty());
                    assert(r2 =~= endc + seq![10u8] + Seq::<u8>::empty());
                    lemma_lines_prepend(endc, Seq::empty());
                } else {
                    lemma_body_stream_head(data, line_len as int, endl);
                }
            }
            assert(lr1.len() != 1);
            assert(spec_after_header(hdr, lr1, false, check) == spec_body_loop(
                hdr,
                Some(pexp),
                lr1.drop_first(),
                false,
                Seq::empty(),
                false,
                check,
            ));
            assert(lr1.drop_first() =~= spec_lines(r2));
            lemma_body(
                hdr,
                Some(pexp),
                data,
                0,
                line_len as int,
                Seq::empty(),
                Seq::empty(),
                Seq::empty(),
                endc,
                texp,
                check,
            );
            assert(spec_decode_segment(Seq::<u8>::empty(), false, false) == Some((
                Seq::<u8>::empty(),
                false,
            )));
            assert(Seq::<u8>::empty() + body + endl =~= r2);
            assert(Seq::<u8>::empty() + Seq::<u8>::empty() + data =~= data);
        },
        None => {
            let r1 = body + endl;
            assert(stream =~= bc + seq![10u8] + r1);
            lemma_lines_prepend(bc, r1);
            let ls = spec_lines(stream);
            assert(ls == seq![bc] + spec_lines(r1));
            assert(ls[0] == bc);
            assert(ls.len() > 0);
            assert(spec_find_header(ls) == Ok::<_, SpecError>((hdr, ls.drop_first())));
            assert(ls.drop_first() =~= spec_lines(r1));
            let lr1 = spec_lines(r1);
            assert(lr1.len() > 0 && !has_prefix(spec_trim(lr1[0]), part_line_prefix())) by {
                if data.len() == 0 {
                    assert(body == Seq::<u8>::empty());
                    assert(r1 =~= endc + seq![10u8] + Seq::<u8>::empty());
                    lemma_lines_prepend(endc, Seq::empty());
                    assert(lr1 == seq![endc] + spec_lines(Seq::<u8>::empty()));
                    assert(lr1[0] == endc);
                } else {
                    lemma_body_stream_head(data, line_len as int, endl);
                    assert(r1 == spec_encode_body(data, 0, line_len as int) + endl);
                }
            }
            assert(hdr.part is None);
            assert(spec_after_header(hdr, lr1, false, check) == spec_body_loop(
                hdr,
                None,
                lr1,
                false,
                Seq::empty(),
                false,
                check,
            ));
            lemma_body(
                hdr,
                None,
                data,
                0,
                line_len as int,
                Seq::empty(),
                Seq::empty(),
                Seq::empty(),
                endc,
                texp,
                check,
            );
            assert(spec_decode_segment(Seq::<u8>::empty(), false, false) == Some((
                Seq::<u8>::empty(),
                false,
            )));
            assert(Seq::<u8>::empty() + body + endl =~= r1);
            assert(Seq::<u8>::empty() + Seq::<u8>::empty() + data =~= data);
        },
    }
}

/// A single-part encoded stream whose file-checksum field is forced to
/// `fcrc` — the stream [`spec_encode`] emits, with that one field replaced.
pub open spec fn spec_encode_with_file_crc(
    data: Seq<u8>,
    name: Seq<u8>,
    line_len: usize,
    fcrc: Option<u32>,
) -> Seq<u8> {
    spec_begin_line(None, line_len as nat, data.len(), name) + spec_encode_body(
        data,
        0,
        line_len as int,
    ) + spec_end_line(data.len(), None, None, fcrc)
}

/// A part stream whose trailer fields are forced: the stream
/// [`spec_encode_part`] emits, with the trailer size, part number and part
/// checksum replaced.
pub open spec fn spec_part_stream_with_trailer(
    data: Seq<u8>,
    name: Seq<u8>,
    line_len: usize,
    info: MultiPartInfo,
    tsize: usize,
    tpart: Option<usize>,
    pcrc: Option<u32>,
) -> Seq<u8> {
    spec_begin_line(
        Some((info.part as nat, info.total as nat)),
        line_len as nat,
        info.full_size as nat,
        name,
    ) + spec_part_line(info.begin as nat, info.end as nat) + spec_encode_body(
        data,
        0,
        line_len as int,
    ) + spec_end_line(
        tsize as nat,
        (match tpart {
            Some(p) => Some(p as nat),
            None => None,
        }),
        pcrc,
        info.full_crc,
    )
}

/// Round trip: decoding an encoded stream yields exactly the original
/// bytes, together with the header and trailer the encoder wrote, under
/// every checksum setting.
pub proof fn lemma_round_trip(
    data: Seq<u8>,
    name: Seq<u8>,
    line_len: usize,
    with_crc: bool,
    check: bool,
)
    requires
        ws_free(name),
        valid_utf8(name),
        data.len() <= usize::MAX,
    ensures
        spec_decode(spec_encode(data, name, line_len, with_crc), false, check) == Ok::<
            _,
            SpecError,
        >(
            SpecOutcome {
                header: SpecHeader {
                    name: vstd::utf8::decode_utf8(name),
                    size: data.len() as usize,
                    line_len: Some(line_len),
                    part: None,
                    total: None,
                },
                part: None,
                trailer: Some(
                    YencTrailer {
                        size: data.len() as usize,
                        part: None,
                        pcrc32: None,
                        crc32: if with_crc {
                            Some(crc32_of(data))
                        } else {
                            None
                        },
                    },
                ),
                data,
            },
        ),
{
    let n = data.len() as usize;
    let fcrc: Option<u32> = if with_crc {
        Some(crc32_of(data))
    } else {
        None
    };
    lemma_decode_frame(None, line_len, n, name, None, data, n, None, None, fcrc, check);
    assert(spec_frame(None, line_len, n, name, None, data, n, None, None, fcrc) =~= spec_encode(
        data,
        name,
        line_len,
        with_crc,
    ));
}

/// Escaping correctness, byte by byte: every wire form decodes back to the
/// byte it came from, and a byte that needs escaping is written as the
/// escape marker immediately followed by its shifted value.
pub proof fn lemma_escaping_correct(b: u8)
    ensures
        spec_decode_segment(spec_encode_one(b), false, false) == Some((seq![b], false)),
        spec_needs_escape(b) ==> spec_encode_one(b) == seq![61u8, spec_escape_pair(b)],
{
    lemma_chunk(b);
}

/// Checksum enforcement: a stream whose checksum field disagrees with its
/// payload fails decoding with a mismatch error carrying the field as
/// expected and the payload's checksum as actual.
pub proof fn lemma_checksum_mismatch_detected(
    data: Seq<u8>,
    name: Seq<u8>,
    line_len: usize,
    wrong: u32,
)
    requires
        ws_free(name),
        valid_utf8(name),
        data.len() <= usize::MAX,
        wrong != crc32_of(data),
    ensures
        spec_decode(spec_encode_with_file_crc(data, name, line_len, Some(wrong)), false, true)
            == Err::<SpecOutcome, _>(
            SpecError::CrcMismatch { expected: wrong, actual: crc32_of(data) },
        ),
{
    let n = data.len() as usize;
    lemma_decode_frame(None, line_len, n, name, None, data, n, None, None, Some(wrong), true);
    assert(spec_frame(None, line_len, n, name, None, data, n, None, None, Some(wrong))
        =~= spec_encode_with_file_crc(data, name, line_len, Some(wrong)));
}

/// Checksum bypass: the same stream decodes to the same bytes when
/// checksum validation is off.
pub proof fn lemma_checksum_bypass(data: Seq<u8>, name: Seq<u8>, line_len: usize, wrong: u32)
    requires
        ws_free(name),
        valid_utf8(name),
        data.len() <= usize::MAX,
    ensures
        spec_decode(spec_encode_with_file_crc(data, name, line_len, Some(wrong)), false, false)
            == Ok::<_, SpecError>(
            SpecOutcome {
                header: SpecHeader {
                    name: vstd::utf8::decode_utf8(name),
                    size: data.len() as usize,
                    line_len: Some(line_len),
                    part: None,
                    total: None,
                },
                part: None,
                trailer: Some(
                    YencTrailer {
                        size: data.len() as usize,
                        part: None,
                        pcrc32: None,
                        crc32: Some(wrong),
                    },
                ),
                data,
            },
        ),
{
    let n = data.len() as usize;
    lemma_decode_frame(None, line_len, n, name, None, data, n, None, None, Some(wrong), false);
    assert(spec_frame(None, line_len, n, name, None, data, n, None, None, Some(wrong))
        =~= spec_encode_with_file_crc(data, name, line_len, Some(wrong)));
}

/// Multi-part consistency: decoding an encoded part yields the part record
/// with the configured range, a trailer echoing the part number, and
/// exactly the part's bytes.
pub proof fn lemma_part_round_trip(
    data: Seq<u8>,
    name: Seq<u8>,
    line_len: usize,
    with_crc: bool,
    check: bool,
    info: MultiPartInfo,
)
    requires
        ws_free(name),
        valid_utf8(name),
        data.len() <= usize::MAX,
        data.len() == info.end as int - info.begin as int + 1,
    ensures
        spec_decode(spec_encode_part(data, name, line_len, with_crc, info), false, check) == Ok::<
            _,
            SpecError,
        >(
            SpecOutcome {
                header: SpecHeader {
                    name: vstd::utf8::decode_utf8(name),
                    size: info.full_size,
                    line_len: Some(line_len),
                    part: Some(info.part),
                    total: Some(info.total),
                },
                part: Some(YencPart { begin: info.begin, end: info.end }),
                trailer: Some(
                    YencTrailer {
                        size: data.len() as usize,
                        part: Some(info.part),
                        pcrc32: if with_crc {
                            Some(crc32_of(data))
                        } else {
                            None
                        },
                        crc32: info.full_crc,
                    },
                ),
                data,
            },
        ),
{
    let n = data.len() as usize;
    let pcrc: Option<u32> = if with_crc {
        Some(crc32_of(data))
    } else {
        None
    };
    lemma_decode_frame(
        Some((info.part, info.total)),
        line_len,
        info.full_size,
        name,
        Some((info.begin, info.end)),
        data,
        n,
        Some(info.part),
        pcrc,
        info.full_crc,
        check,
    );
    assert(spec_frame(
        Some((info.part, info.total)),
        line_len,
        info.full_size,
        name,
        Some((info.begin, info.end)),
        data,
        n,
        Some(info.part),
        pcrc,
        info.full_crc,
    ) =~= spec_encode_part(data, name, line_len, with_crc, info));
}

/// Part-size-mismatch detection: a part stream whose trailer declares a
/// size other than the span of its part range fails decoding, whatever the
/// body holds and under every checksum setting.
pub proof fn lemma_part_size_mismatch_detected(
    data: Seq<u8>,
    name: Seq<u8>,
    line_len: usize,
    info: MultiPartInfo,
    tsize: usize,
    pcrc: Option<u32>,
    check: bool,
)
    requires
        ws_free(name),
        valid_utf8(name),
        tsize as int != info.end as int - info.begin as int + 1,
    ensures
        spec_decode(
            spec_part_stream_with_trailer(
                data,
                name,
                line_len,
                info,
                tsize,
                Some(info.part),
                pcrc,
            ),
            false,
            check,
        ) == Err::<SpecOutcome, _>(SpecError::BadData),
{
    lemma_decode_frame(
        Some((info.part, info.total)),
        line_len,
        info.full_size,
        name,
        Some((info.begin, info.end)),
        data,
        tsize,
        Some(info.part),
        pcrc,
        info.full_crc,
        check,
    );
    assert(spec_frame(
        Some((info.part, info.total)),
        line_len,
        info.full_size,
        name,
        Some((info.begin, info.end)),
        data,
        tsize,
        Some(info.part),
        pcrc,
        info.full_crc,
    ) =~= spec_part_stream_with_trailer(data, name, line_len, info, tsize, Some(info.part), pcrc));
}

/// Part-number-mismatch detection: a part stream whose trailer echoes a
/// different part number than the begin line fails decoding.
pub proof fn lemma_part_number_mismatch_detected(
    data: Seq<u8>,
    name: Seq<u8>,
    line_len: usize,
    info: MultiPartInfo,
    tpart: Option<usize>,
    pcrc: Option<u32>,
    check: bool,
)
    requires
        ws_free(name),
        valid_utf8(name),
        data.len() <= usize::MAX,
        data.len() == info.end as int - info.begin as int + 1,
        tpart != Some(info.part),
    ensures
        spec_decode(
            spec_part_stream_with_trailer(
                data,
                name,
                line_len,
                info,
                (data.len() as usize),
                tpart,
                pcrc,
            ),
            false,
            check,
        ) == Err::<SpecOutcome, _>(SpecError::BadData),
{
    let n = data.len() as usize;
    lemma_decode_frame(
        Some((info.part, info.total)),
        line_len,
        info.full_size,
        name,
        Some((info.begin, info.end)),
        data,
        n,
        tpart,
        pcrc,
        info.full_crc,
        check,
    );
    assert(spec_frame(
        Some((info.part, info.total)),
        line_len,
        info.full_size,
        name,
        Some((info.begin, info.end)),
        data,
        n,
        tpart,
        pcrc,
        info.full_crc,
    ) =~= spec_part_stream_with_trailer(data, name, line_len, info, n, tpart, pcrc));
}

/// A framed stream whose one body line is the escape marker followed by the
/// raw byte `x`.
pub open spec fn spec_escaped_byte_stream(name: Seq<u8>, line_len: usize, x: u8) -> Seq<u8> {
    spec_begin_line(None, line_len as nat, 1, name) + seq![61u8, x] + seq![10u8] + spec_end_line(
        1,
        None,
        None,
        None,
    )
}

/// Strict-mode rejection: a body escape that yields a non-canonical byte
/// fails strict decoding and passes lenient decoding, which produces that
/// byte.
#[verifier::rlimit(100)]
pub proof fn lemma_strict_escape(name: Seq<u8>, line_len: usize, x: u8, check: bool)
    requires
        ws_free(name),
        valid_utf8(name),
        !spec_is_ws(x),
        x != 61,
        !crate::transform::spec_is_canonical(spec_unescape(x)),
    ensures
        spec_decode(spec_escaped_byte_stream(name, line_len, x), true, check) == Err::<
            SpecOutcome,
            _,
        >(SpecError::BadData),
        spec_decode(spec_escaped_byte_stream(name, line_len, x), false, check) == Ok::<
            _,
            SpecError,
        >(
            SpecOutcome {
                header: SpecHeader {
                    name: vstd::utf8::decode_utf8(name),
                    size: 1,
                    line_len: Some(line_len),
                    part: None,
                    total: None,
                },
                part: None,
                trailer: Some(YencTrailer { size: 1, part: None, pcrc32: None, crc32: None }),
                data: seq![spec_unescape(x)],
            },
        ),
{
    let bc = spec_begin_content(None, line_len as nat, 1, name);
    let endc = spec_end_content(1, None, None, None);
    let endl = endc + seq![10u8];
    let l2 = seq![61u8, x];
    let hdr = SpecHeader {
        name: vstd::utf8::decode_utf8(name),
        size: 1,
        line_len: Some(line_len),
        part: None,
        total: None,
    };
    let tr = YencTrailer { size: 1, part: None, pcrc32: None, crc32: None };
    let stream = spec_escaped_byte_stream(name, line_len, x);

    lemma_begin_content_facts(None, line_len as nat, 1, name);
    lemma_parse_begin_content(None, line_len, 1, name);
    lemma_end_content_facts(1, None, None, None);
    lemma_parse_end_content(1, None, None, None);

    assert(ws_free(l2));
    lemma_ws_free_lf_free(l2);
    assert(stream =~= bc + seq![10u8] + (l2 + seq![10u8] + endl));
    lemma_lines_prepend(bc, l2 + seq![10u8] + endl);
    lemma_lines_prepend(l2, endl);
    lemma_lines_prepend(endc, Seq::empty());
    assert(endc + seq![10u8] + Seq::<u8>::empty() =~= endl);
    assert(seq![endc] + spec_lines(Seq::<u8>::empty()) =~= seq![endc]);
    let ls = spec_lines(stream);
    assert(ls == seq![bc] + spec_lines(l2 + seq![10u8] + endl));
    assert(spec_lines(l2 + seq![10u8] + endl) =~= seq![l2, endc]);
    assert(ls =~= seq![bc, l2, endc]);
    assert(ls[0] == bc && ls.len() > 0);
    assert(spec_find_header(ls) == Ok::<_, SpecError>((hdr, ls.drop_first())));
    assert(ls.drop_first() =~= seq![l2, endc]);

    // The second line is data: too short for any control-line prefix.
    crate::lines::lemma_trim_ws_free(l2);
    assert(!has_prefix(l2, part_line_prefix()));
    assert(!has_prefix(l2, end_line_prefix()));
    assert(hdr.part is None);

    // What the escape sequence decodes to, strict and lenient.
    assert(l2.drop_first() =~= seq![x]);
    assert(seq![x].drop_first() =~= Seq::<u8>::empty());
    let d = spec_unescape(x);
    assert(spec_decode_segment(Seq::<u8>::empty(), false, false) == Some((
        Seq::<u8>::empty(),
        false,
    )));
    assert(seq![d] + Seq::<u8>::empty() =~= seq![d]);
    assert(spec_decode_segment(seq![x], true, true) == None::<(Seq<u8>, bool)>);
    assert(spec_decode_segment(seq![x], true, false) == Some((seq![d], false)));
    assert(spec_decode_segment(l2, false, true) == None::<(Seq<u8>, bool)>);
    assert(spec_decode_segment(l2, false, false) == Some((seq![d], false)));

    // Strict mode: the body line is rejected.
    assert(spec_after_header(hdr, seq![l2, endc], true, check) == spec_body_loop(
        hdr,
        None,
        seq![l2, endc],
        false,
        Seq::empty(),
        true,
        check,
    ));
    lemma_body_loop_data(hdr, None, seq![l2, endc], false, Seq::empty(), true, check);
    assert(spec_body_loop(hdr, None, seq![l2, endc], false, Seq::empty(), true, check) == Err::<
        SpecOutcome,
        _,
    >(SpecError::BadData));

    // Lenient mode: the byte comes through and the end line closes the
    // stream.
    assert(spec_after_header(hdr, seq![l2, endc], false, check) == spec_body_loop(
        hdr,
        None,
        seq![l2, endc],
        false,
        Seq::empty(),
        false,
        check,
    ));
    lemma_body_loop_data(hdr, None, seq![l2, endc], false, Seq::empty(), false, check);
    assert(seq![l2, endc].drop_first() =~= seq![endc]);
    lemma_body_loop_end(hdr, None, seq![endc], false, Seq::<u8>::empty() + seq![d], false, check);
    assert(Seq::<u8>::empty() + seq![d] =~= seq![d]);
    assert(spec_finish(hdr, None, tr, seq![d], check) == Ok::<_, SpecError>(
        SpecOutcome { header: hdr, part: None, trailer: Some(tr), data: seq![d] },
    ));
}

} // verus!
