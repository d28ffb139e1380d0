//! The control lines of the wire format: begin, part and end lines, parsed
//! from `key=value` tokens.

use vstd::prelude::*;
use vstd::string::StringSliceAdditionalSpecFns;
use vstd::utf8::{decode_utf8, encode_utf8_decode_utf8, valid_utf8};

use crate::error::{SpecError, YencError};
use crate::lines::{first_eq, has_prefix, lemma_first_eq_is, spec_tokens, split_tokens, starts_with_bytes};
use crate::numbers::{parse_decimal, parse_hex32, spec_parse_decimal, spec_parse_hex32};

verus! {

/// The bytes of `=ybegin `.
pub open spec fn begin_line_prefix() -> Seq<u8> {
    seq![61u8, 121, 98, 101, 103, 105, 110, 32]
}

/// The bytes of `=ypart `.
pub open spec fn part_line_prefix() -> Seq<u8> {
    seq![61u8, 121, 112, 97, 114, 116, 32]
}

/// The bytes of `=yend `.
pub open spec fn end_line_prefix() -> Seq<u8> {
    seq![61u8, 121, 101, 110, 100, 32]
}

/// The bytes of the key `name`.
pub open spec fn key_name() -> Seq<u8> {
    seq![110u8, 97, 109, 101]
}

/// The bytes of the key `size`.
pub open spec fn key_size() -> Seq<u8> {
    seq![115u8, 105, 122, 101]
}

/// The bytes of the key `line`.
pub open spec fn key_line() -> Seq<u8> {
    seq![108u8, 105, 110, 101]
}

/// The bytes of the key `part`.
pub open spec fn key_part() -> Seq<u8> {
    seq![112u8, 97, 114, 116]
}

/// The bytes of the key `total`.
pub open spec fn key_total() -> Seq<u8> {
    seq![116u8, 111, 116, 97, 108]
}

/// The bytes of the key `begin`.
pub open spec fn key_begin() -> Seq<u8> {
    seq![98u8, 101, 103, 105, 110]
}

/// The bytes of the key `end`.
pub open spec fn key_end() -> Seq<u8> {
    seq![101u8, 110, 100]
}

/// The bytes of the key `pcrc32`.
pub open spec fn key_pcrc32() -> Seq<u8> {
    seq![112u8, 99, 114, 99, 51, 50]
}

/// The bytes of the key `crc32`.
pub open spec fn key_crc32() -> Seq<u8> {
    seq![99u8, 114, 99, 51, 50]
}

/// A token split at its first `=`: the key and the value.  A token without
/// `=` carries no field.
pub open spec fn spec_kv(tok: Seq<u8>) -> Option<(Seq<u8>, Seq<u8>)> {
    let i = first_eq(tok);
    if 0 <= i < tok.len() {
        Some((tok.take(i), tok.skip(i + 1)))
    } else {
        None
    }
}

/// The raw value of the last token carrying `key`, if any: a later
/// occurrence of a key overrides an earlier one.
pub open spec fn spec_field_raw(tokens: Seq<Seq<u8>>, key: Seq<u8>) -> Option<Seq<u8>>
    decreases tokens.len(),
{
    if tokens.len() == 0 {
        None
    } else {
        match spec_kv(tokens.last()) {
            Some(kv) => if kv.0 == key {
                Some(kv.1)
            } else {
                spec_field_raw(tokens.drop_last(), key)
            },
            None => spec_field_raw(tokens.drop_last(), key),
        }
    }
}

/// A decimal integer field: the last raw value of `key`, parsed.
pub open spec fn spec_field_dec(tokens: Seq<Seq<u8>>, key: Seq<u8>) -> Option<usize> {
    match spec_field_raw(tokens, key) {
        Some(v) => spec_parse_decimal(v),
        None => None,
    }
}

/// A hexadecimal checksum field: the last raw value of `key`, parsed.
pub open spec fn spec_field_hex(tokens: Seq<Seq<u8>>, key: Seq<u8>) -> Option<u32> {
    match spec_field_raw(tokens, key) {
        Some(v) => spec_parse_hex32(v),
        None => None,
    }
}

/// The keys of one control line are pairwise distinct.
pub(crate) proof fn lemma_keys_distinct()
    ensures
        key_name() != key_size(),
        key_name() != key_line(),
        key_name() != key_part(),
        key_name() != key_total(),
        key_size() != key_line(),
        key_size() != key_part(),
        key_size() != key_total(),
        key_line() != key_part(),
        key_line() != key_total(),
        key_part() != key_total(),
        key_begin() != key_end(),
        key_size() != key_pcrc32(),
        key_size() != key_crc32(),
        key_part() != key_pcrc32(),
        key_part() != key_crc32(),
        key_pcrc32() != key_crc32(),
{
    assert(key_name()[0] == 110);
    assert(key_size()[0] == 115);
    assert(key_line()[0] == 108);
    assert(key_part()[0] == 112);
    assert(key_total()[0] == 116);
    assert(key_begin()[0] == 98);
    assert(key_end()[0] == 101);
    assert(key_pcrc32()[0] == 112);
    assert(key_crc32()[0] == 99);
    assert(key_part()[1] == 97);
    assert(key_pcrc32()[1] == 99);
}

/// One step of the forward scan over tokens.
proof fn lemma_field_raw_step(tokens: Seq<Seq<u8>>, i: int, key: Seq<u8>)
    requires
        0 <= i < tokens.len(),
    ensures
        spec_field_raw(tokens.take(i + 1), key) == (match spec_kv(tokens[i]) {
            Some(kv) => if kv.0 == key {
                Some(kv.1)
            } else {
                spec_field_raw(tokens.take(i), key)
            },
            None => spec_field_raw(tokens.take(i), key),
        }),
{
    assert(tokens.take(i + 1).drop_last() =~= tokens.take(i));
    assert(tokens.take(i + 1).last() == tokens[i]);
}

/// The abstract content of a begin line.
pub struct SpecHeader {
    /// File name, as the characters of the decoded name field.
    pub name: Seq<char>,
    /// Total file size.
    pub size: usize,
    /// Advisory wrap width.
    pub line_len: Option<usize>,
    /// Part number, for a multi-part stream.
    pub part: Option<usize>,
    /// Total part count.
    pub total: Option<usize>,
}

/// A parsed begin line.
#[derive(Debug, Clone)]
pub struct YencHeader {
    /// File name.
    pub name: String,
    /// Total file size (not per part).
    pub size: usize,
    /// Advisory wrap width.
    pub line_len: Option<usize>,
    /// Part number (1-based), for a multi-part stream.
    pub part: Option<usize>,
    /// Total part count.
    pub total: Option<usize>,
}

impl View for YencHeader {
    type V = SpecHeader;

    open spec fn view(&self) -> SpecHeader {
        SpecHeader {
            name: self.name@,
            size: self.size,
            line_len: self.line_len,
            part: self.part,
            total: self.total,
        }
    }
}

/// A parsed part line: 1-based inclusive byte offsets into the full file.
#[derive(Debug, Clone, Copy, PartialEq, Eq, Structural)]
pub struct YencPart {
    /// First byte position of the part, 1-based, inclusive.
    pub begin: usize,
    /// Last byte position of the part, 1-based, inclusive.
    pub end: usize,
}

/// A parsed end line.
#[derive(Debug, Clone, Copy, PartialEq, Eq, Structural)]
pub struct YencTrailer {
    /// Bytes in this transmission unit.
    pub size: usize,
    /// Part number, echoing the begin line.
    pub part: Option<usize>,
    /// Checksum of this unit's raw bytes.
    pub pcrc32: Option<u32>,
    /// Checksum of the entire file's raw bytes.
    pub crc32: Option<u32>,
}

/// What a begin line parses to.
pub open spec fn spec_parse_header(t: Seq<u8>) -> Result<SpecHeader, SpecError> {
    if !has_prefix(t, begin_line_prefix()) {
        Err(SpecError::BadHeader)
    } else {
        let tokens = spec_tokens(t.skip(8));
        let name = spec_field_raw(tokens, key_name());
        let size = spec_field_dec(tokens, key_size());
        if name is None {
            Err(SpecError::MissingField("name"@))
        } else if size is None {
            Err(SpecError::MissingField("size"@))
        } else if !valid_utf8(name->0) {
            Err(SpecError::BadHeader)
        } else {
            Ok(
                SpecHeader {
                    name: decode_utf8(name->0),
                    size: size->0,
                    line_len: spec_field_dec(tokens, key_line()),
                    part: spec_field_dec(tokens, key_part()),
                    total: spec_field_dec(tokens, key_total()),
                },
            )
        }
    }
}

/// What a part line parses to.
pub open spec fn spec_parse_part(t: Seq<u8>) -> Result<YencPart, SpecError> {
    if !has_prefix(t, part_line_prefix()) {
        Err(SpecError::BadHeader)
    } else {
        let tokens = spec_tokens(t.skip(7));
        let begin = spec_field_dec(tokens, key_begin());
        let end = spec_field_dec(tokens, key_end());
        if begin is None {
            Err(SpecError::MissingField("begin"@))
        } else if end is None {
            Err(SpecError::MissingField("end"@))
        } else {
            Ok(YencPart { begin: begin->0, end: end->0 })
        }
    }
}

/// What an end line parses to.
pub open spec fn spec_parse_trailer(t: Seq<u8>) -> Result<YencTrailer, SpecError> {
    if !has_prefix(t, end_line_prefix()) {
        Err(SpecError::BadHeader)
    } else {
        let tokens = spec_tokens(t.skip(6));
        let size = spec_field_dec(tokens, key_size());
        if size is None {
            Err(SpecError::MissingField("size"@))
        } else {
            Ok(
                YencTrailer {
                    size: size->0,
                    part: spec_field_dec(tokens, key_part()),
                    pcrc32: spec_field_hex(tokens, key_pcrc32()),
                    crc32: spec_field_hex(tokens, key_crc32()),
                },
            )
        }
    }
}

/// How an executable header parse relates to the abstract one.
pub open spec fn header_result_matches(
    r: Result<YencHeader, YencError>,
    s: Result<SpecHeader, SpecError>,
) -> bool {
    match (r, s) {
        (Ok(h), Ok(sh)) => h@ == sh,
        (Err(e), Err(se)) => e@ == se,
        _ => false,
    }
}

/// How an executable part parse relates to the abstract one.
pub open spec fn part_result_matches(
    r: Result<YencPart, YencError>,
    s: Result<YencPart, SpecError>,
) -> bool {
    match (r, s) {
        (Ok(p), Ok(sp)) => p == sp,
        (Err(e), Err(se)) => e@ == se,
        _ => false,
    }
}

/// How an executable trailer parse relates to the abstract one.
pub open spec fn trailer_result_matches(
    r: Result<YencTrailer, YencError>,
    s: Result<YencTrailer, SpecError>,
) -> bool {
    match (r, s) {
        (Ok(t), Ok(st)) => t == st,
        (Err(e), Err(se)) => e@ == se,
        _ => false,
    }
}

/// Whether `n` equals the span `end - begin + 1` of a part range, computed
/// without overflow on any inputs.
pub(crate) fn span_matches(begin: usize, end: usize, n: usize) -> (r: bool)
    ensures
        r == (n as int == end as int - begin as int + 1),
{
    if begin <= end {
        let d = end - begin;
        d < usize::MAX && n == d + 1
    } else {
        begin - 1 == end && n == 0
    }
}

/// Relies on std::str::from_utf8: it returns `Ok` exactly on UTF-8 input,
/// and the resulting string slice views the very bytes it was given.
#[verifier::external_body]
fn str_from_utf8(b: &[u8]) -> (r: Option<&str>)
    ensures
        r is Some <==> valid_utf8(b@),
        r matches Some(s) ==> s.spec_bytes() == b@,
{
    std::str::from_utf8(b).ok()
}

/// Compare two byte strings.
fn bytes_eq(a: &[u8], b: &[u8]) -> (r: bool)
    ensures
        r == (a@ == b@),
{
    if a.len() != b.len() {
        return false;
    }
    let mut i: usize = 0;
    while i < a.len()
        invariant
            0 <= i <= a@.len(),
            a@.len() == b@.len(),
            forall|j: int| 0 <= j < i ==> a@[j] == b@[j],
        decreases a@.len() - i,
    {
        if a[i] != b[i] {
            return false;
        }
        i = i + 1;
    }
    proof {
        assert(a@ =~= b@);
    }
    true
}

/// Split a token at its first `=`, as [`spec_kv`] does.
fn token_kv<'a>(tok: &'a [u8]) -> (r: Option<(&'a [u8], &'a [u8])>)
    ensures
        (match (r, spec_kv(tok@)) {
            (Some(kv), Some(skv)) => kv.0@ == skv.0 && kv.1@ == skv.1,
            (None, None) => true,
            _ => false,
        }),
{
    let mut i: usize = 0;
    while i < tok.len() && tok[i] != 61
        invariant
            0 <= i <= tok@.len(),
            forall|j: int| 0 <= j < i ==> tok@[j] != 61,
        decreases tok@.len() - i,
    {
        i = i + 1;
    }
    proof {
        lemma_first_eq_is(tok@, i as int);
    }
    if i == tok.len() {
        None
    } else {
        proof {
            assert(tok@.subrange(0, i as int) =~= tok@.take(i as int));
            assert(tok@.subrange(i + 1, tok@.len() as int) =~= tok@.skip(i + 1));
        }
        Some((&tok[0..i], &tok[i + 1..tok.len()]))
    }
}

/// Parse a begin line given as bytes.
pub(crate) fn parse_header_bytes(t: &[u8]) -> (r: Result<YencHeader, YencError>)
    ensures
        header_result_matches(r, spec_parse_header(t@)),
{
    let bp: Vec<u8> = vec![61u8, 121, 98, 101, 103, 105, 110, 32];
    proof {
        assert(bp@ =~= begin_line_prefix());
    }
    if !starts_with_bytes(t, bp.as_slice()) {
        return Err(
            YencError::InvalidHeader(String::from_str("Header must start with '=ybegin'")),
        );
    }
    let rest = &t[8..t.len()];
    proof {
        assert(rest@ =~= t@.skip(8));
    }
    let tokens = split_tokens(rest);
    let ghost toks = spec_tokens(t@.skip(8));

    let k_name: Vec<u8> = vec![110u8, 97, 109, 101];
    let k_size: Vec<u8> = vec![115u8, 105, 122, 101];
    let k_line: Vec<u8> = vec![108u8, 105, 110, 101];
    let k_part: Vec<u8> = vec![112u8, 97, 114, 116];
    let k_total: Vec<u8> = vec![116u8, 111, 116, 97, 108];
    proof {
        assert(k_name@ =~= key_name());
        assert(k_size@ =~= key_size());
        assert(k_line@ =~= key_line());
        assert(k_part@ =~= key_part());
        assert(k_total@ =~= key_total());
    }

    let mut name: Option<Vec<u8>> = None;
    let mut size: Option<usize> = None;
    let mut line_len: Option<usize> = None;
    let mut part: Option<usize> = None;
    let mut total: Option<usize> = None;

    let mut i: usize = 0;
    while i < tokens.len()
        invariant
            0 <= i <= tokens@.len(),
            tokens.deep_view() == toks,
            k_name@ == key_name(),
            k_size@ == key_size(),
            k_line@ == key_line(),
            k_part@ == key_part(),
            k_total@ == key_total(),
            (match name {
                Some(v) => spec_field_raw(toks.take(i as int), key_name()) == Some(v@),
                None => spec_field_raw(toks.take(i as int), key_name()) is None,
            }),
            size == spec_field_dec(toks.take(i as int), key_size()),
            line_len == spec_field_dec(toks.take(i as int), key_line()),
            part == spec_field_dec(toks.take(i as int), key_part()),
            total == spec_field_dec(toks.take(i as int), key_total()),
        decreases tokens@.len() - i,
    {
        proof {
            lemma_keys_distinct();
            lemma_field_raw_step(toks, i as int, key_name());
            lemma_field_raw_step(toks, i as int, key_size());
            lemma_field_raw_step(toks, i as int, key_line());
            lemma_field_raw_step(toks, i as int, key_part());
            lemma_field_raw_step(toks, i as int, key_total());
            assert(tokens@[i as int].deep_view() =~= tokens@[i as int]@);
            assert(toks[i as int] == tokens@[i as int]@);
        }
        let tok = &tokens[i];
        match token_kv(tok.as_slice()) {
            Some((key, value)) => {
                if bytes_eq(key, k_name.as_slice()) {
                    let mut v: Vec<u8> = Vec::new();
                    v.extend_from_slice(value);
                    proof {
                        assert(v@ =~= value@);
                    }
                    name = Some(v);
                } else if bytes_eq(key, k_size.as_slice()) {
                    size = parse_decimal(value);
                } else if bytes_eq(key, k_line.as_slice()) {
                    line_len = parse_decimal(value);
                } else if bytes_eq(key, k_part.as_slice()) {
                    part = parse_decimal(value);
                } else if bytes_eq(key, k_total.as_slice()) {
                    total = parse_decimal(value);
                }
            },
            None => {},
        }
        i = i + 1;
    }
    proof {
        assert(toks.take(i as int) =~= toks);
    }

    let name_bytes = match name {
        Some(v) => v,
        None => {
            return Err(YencError::MissingField(String::from_str("name")));
        },
    };
    let size_v = match size {
        Some(v) => v,
        None => {
            return Err(YencError::MissingField(String::from_str("size")));
        },
    };
    match str_from_utf8(name_bytes.as_slice()) {
        Some(s) => {
            proof {
                encode_utf8_decode_utf8(s@);
                assert(decode_utf8(name_bytes@) == s@);
            }
            Ok(
                YencHeader {
                    name: String::from_str(s),
                    size: size_v,
                    line_len,
                    part,
                    total,
                },
            )
        },
        None => Err(YencError::InvalidHeader(String::from_str("Invalid header"))),
    }
}

/// Parse a part line given as bytes.
pub(crate) fn parse_part_bytes(t: &[u8]) -> (r: Result<YencPart, YencError>)
    ensures
        part_result_matches(r, spec_parse_part(t@)),
{
    let pp: Vec<u8> = vec![61u8, 121, 112, 97, 114, 116, 32];
    proof {
        assert(pp@ =~= part_line_prefix());
    }
    if !starts_with_bytes(t, pp.as_slice()) {
        return Err(
            YencError::InvalidHeader(String::from_str("Part line must start with '=ypart'")),
        );
    }
    let rest = &t[7..t.len()];
    proof {
        assert(rest@ =~= t@.skip(7));
    }
    let tokens = split_tokens(rest);
    let ghost toks = spec_tokens(t@.skip(7));

    let k_begin: Vec<u8> = vec![98u8, 101, 103, 105, 110];
    let k_end: Vec<u8> = vec![101u8, 110, 100];
    proof {
        assert(k_begin@ =~= key_begin());
        assert(k_end@ =~= key_end());
    }

    let mut begin: Option<usize> = None;
    let mut end: Option<usize> = None;

    let mut i: usize = 0;
    while i < tokens.len()
        invariant
            0 <= i <= tokens@.len(),
            tokens.deep_view() == toks,
            k_begin@ == key_begin(),
            k_end@ == key_end(),
            begin == spec_field_dec(toks.take(i as int), key_begin()),
            end == spec_field_dec(toks.take(i as int), key_end()),
        decreases tokens@.len() - i,
    {
        proof {
            lemma_keys_distinct();
            lemma_field_raw_step(toks, i as int, key_begin());
            lemma_field_raw_step(toks, i as int, key_end());
            assert(tokens@[i as int].deep_view() =~= tokens@[i as int]@);
            assert(toks[i as int] == tokens@[i as int]@);
        }
        let tok = &tokens[i];
        match token_kv(tok.as_slice()) {
            Some((key, value)) => {
                if bytes_eq(key, k_begin.as_slice()) {
                    begin = parse_decimal(value);
                } else if bytes_eq(key, k_end.as_slice()) {
                    end = parse_decimal(value);
                }
            },
            None => {},
        }
        i = i + 1;
    }
    proof {
        assert(toks.take(i as int) =~= toks);
    }

    let begin_v = match begin {
        Some(v) => v,
        None => {
            return Err(YencError::MissingField(String::from_str("begin")));
        },
    };
    let end_v = match end {
        Some(v) => v,
        None => {
            return Err(YencError::MissingField(String::from_str("end")));
        },
    };
    Ok(YencPart { begin: begin_v, end: end_v })
}

/// Parse an end line given as bytes.
pub(crate) fn parse_trailer_bytes(t: &[u8]) -> (r: Result<YencTrailer, YencError>)
    ensures
        trailer_result_matches(r, spec_parse_trailer(t@)),
{
    let ep: Vec<u8> = vec![61u8, 121, 101, 110, 100, 32];
    proof {
        assert(ep@ =~= end_line_prefix());
    }
    if !starts_with_bytes(t, ep.as_slice()) {
        return Err(
            YencError::InvalidHeader(String::from_str("Trailer must start with '=yend'")),
        );
    }
    let rest = &t[6..t.len()];
    proof {
        assert(rest@ =~= t@.skip(6));
    }
    let tokens = split_tokens(rest);
    let ghost toks = spec_tokens(t@.skip(6));

    let k_size: Vec<u8> = vec![115u8, 105, 122, 101];
    let k_part: Vec<u8> = vec![112u8, 97, 114, 116];
    let k_pcrc32: Vec<u8> = vec![112u8, 99, 114, 99, 51, 50];
    let k_crc32: Vec<u8> = vec![99u8, 114, 99, 51, 50];
    proof {
        assert(k_size@ =~= key_size());
        assert(k_part@ =~= key_part());
        assert(k_pcrc32@ =~= key_pcrc32());
        assert(k_crc32@ =~= key_crc32());
    }

    let mut size: Option<usize> = None;
    let mut part: Option<usize> = None;
    let mut pcrc32: Option<u32> = None;
    let mut crc32: Option<u32> = None;

    let mut i: usize = 0;
    while i < tokens.len()
        invariant
            0 <= i <= tokens@.len(),
            tokens.deep_view() == toks,
            k_size@ == key_size(),
            k_part@ == key_part(),
            k_pcrc32@ == key_pcrc32(),
            k_crc32@ == key_crc32(),
            size == spec_field_dec(toks.take(i as int), key_size()),
            part == spec_field_dec(toks.take(i as int), key_part()),
            pcrc32 == spec_field_hex(toks.take(i as int), key_pcrc32()),
            crc32 == spec_field_hex(toks.take(i as int), key_crc32()),
        decreases tokens@.len() - i,
    {
        proof {
            lemma_keys_distinct();
            lemma_field_raw_step(toks, i as int, key_size());
            lemma_field_raw_step(toks, i as int, key_part());
            lemma_field_raw_step(toks, i as int, key_pcrc32());
            lemma_field_raw_step(toks, i as int, key_crc32());
            assert(tokens@[i as int].deep_view() =~= tokens@[i as int]@);
            assert(toks[i as int] == tokens@[i as int]@);
        }
        let tok = &tokens[i];
        match token_kv(tok.as_slice()) {
            Some((key, value)) => {
                if bytes_eq(key, k_size.as_slice()) {
                    size = parse_decimal(value);
                } else if bytes_eq(key, k_part.as_slice()) {
                    part = parse_decimal(value);
                } else if bytes_eq(key, k_pcrc32.as_slice()) {
                    pcrc32 = parse_hex32(value);
                } else if bytes_eq(key, k_crc32.as_slice()) {
                    crc32 = parse_hex32(value);
                }
            },
            None => {},
        }
        i = i + 1;
    }
    proof {
        assert(toks.take(i as int) =~= toks);
    }

    let size_v = match size {
        Some(v) => v,
        None => {
            return Err(YencError::MissingField(String::from_str("size")));
        },
    };
    Ok(YencTrailer { size: size_v, part, pcrc32, crc32 })
}

impl YencHeader {
    /// Parse a begin line, such as `=ybegin line=128 size=123456 name=file.bin`.
    pub fn parse(line: &str) -> (r: Result<Self, YencError>)
        ensures
            header_result_matches(r, spec_parse_header(line.spec_bytes())),
    {
        parse_header_bytes(line.as_bytes())
    }
}

impl YencPart {
    /// Parse a part line, such as `=ypart begin=1 end=100000`.
    pub fn parse(line: &str) -> (r: Result<Self, YencError>)
        ensures
            part_result_matches(r, spec_parse_part(line.spec_bytes())),
    {
        parse_part_bytes(line.as_bytes())
    }

    /// The number of bytes the part spans: `end - begin + 1`, both offsets
    /// 1-based and inclusive.
    pub fn size(&self) -> (r: usize)
        requires
            1 <= self.begin <= self.end,
        ensures
            r == self.end - self.begin + 1,
    {
        self.end - self.begin + 1
    }
}

impl YencTrailer {
    /// Parse an end line, such as `=yend size=123456 crc32=abcd1234`.
    pub fn parse(line: &str) -> (r: Result<Self, YencError>)
        ensures
            trailer_result_matches(r, spec_parse_trailer(line.spec_bytes())),
    {
        parse_trailer_bytes(line.as_bytes())
    }
}

} // verus!
