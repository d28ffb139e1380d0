//! The stream decoder: scans for the begin line, reads an optional part
//! line, undoes the byte transform across the body with the escape state
//! carried over line breaks, parses the end line, and validates part
//! consistency and checksums.

use vstd::prelude::*;

use crate::crc::{compute_crc32, crc32_of};
use crate::error::{SpecError, YencError};
use crate::header::{
    begin_line_prefix, end_line_prefix, parse_header_bytes, parse_part_bytes,
    parse_trailer_bytes, part_line_prefix, span_matches, spec_parse_header, spec_parse_part,
    spec_parse_trailer, SpecHeader, YencHeader, YencPart, YencTrailer,
};
use crate::lines::{has_prefix, spec_lines, spec_trim, split_lines, starts_with_bytes, trim_bytes};
use crate::transform::{
    decode_byte, is_canonical, spec_decode_byte, spec_is_canonical, spec_unescape, unescape_byte,
};

verus! {

/// Everything a successful decode yields: the parsed control lines and the
/// raw bytes of the body.
pub struct SpecOutcome {
    /// The parsed begin line.
    pub header: SpecHeader,
    /// The parsed part line, for a multi-part stream.
    pub part: Option<YencPart>,
    /// The parsed end line; `None` when the stream ended before one.
    pub trailer: Option<YencTrailer>,
    /// The decoded raw bytes.
    pub data: Seq<u8>,
}

/// Decode the payload bytes of one trimmed body line, starting in escape
/// state `escaped`: a bare `=` enters the escape state; the byte after it is
/// unescaped; every other byte passes through the inverse transform.  `None`
/// is a strict-mode violation: an escape that yields a non-canonical byte.
pub open spec fn spec_decode_segment(s: Seq<u8>, escaped: bool, strict: bool) -> Option<
    (Seq<u8>, bool),
>
    decreases s.len(),
{
    if s.len() == 0 {
        Some((Seq::empty(), escaped))
    } else if s[0] == 61 {
        spec_decode_segment(s.drop_first(), true, strict)
    } else if escaped {
        let d = spec_unescape(s[0]);
        if strict && !spec_is_canonical(d) {
            None
        } else {
            match spec_decode_segment(s.drop_first(), false, strict) {
                Some(r) => Some((seq![d] + r.0, r.1)),
                None => None,
            }
        }
    } else {
        match spec_decode_segment(s.drop_first(), false, strict) {
            Some(r) => Some((seq![spec_decode_byte(s[0])] + r.0, r.1)),
            None => None,
        }
    }
}

/// The validation chain run on a parsed trailer: part size against the part
/// range, part number against the header, then the checksum against the
/// decoded bytes.  The checksum compared is the part checksum for a
/// multi-part stream and the file checksum otherwise; an absent checksum
/// field is not an error.
pub open spec fn spec_finish(
    header: SpecHeader,
    part: Option<YencPart>,
    trailer: YencTrailer,
    data: Seq<u8>,
    check_crc: bool,
) -> Result<SpecOutcome, SpecError> {
    if part is Some && trailer.size as int != part->0.end as int - part->0.begin as int + 1 {
        Err(SpecError::BadData)
    } else if part is Some && header.part is Some && trailer.part != header.part {
        Err(SpecError::BadData)
    } else {
        let expected = if part is Some {
            trailer.pcrc32
        } else {
            trailer.crc32
        };
        if check_crc && expected is Some && expected->0 != crc32_of(data) {
            Err(
                SpecError::CrcMismatch {
                    expected: expected->0,
                    actual: crc32_of(data),
                },
            )
        } else {
            Ok(SpecOutcome { header, part, trailer: Some(trailer), data })
        }
    }
}

/// The body scan: decode trimmed lines until an end line or the end of the
/// stream.  A stream that ends without an end line is not fatal — the
/// outcome then carries no trailer — unless it ends in the escape state.
pub open spec fn spec_body_loop(
    header: SpecHeader,
    part: Option<YencPart>,
    lines: Seq<Seq<u8>>,
    escaped: bool,
    data: Seq<u8>,
    strict: bool,
    check_crc: bool,
) -> Result<SpecOutcome, SpecError>
    decreases lines.len(),
{
    if lines.len() == 0 {
        if escaped {
            Err(SpecError::BadData)
        } else {
            Ok(SpecOutcome { header, part, trailer: None, data })
        }
    } else {
        let t = spec_trim(lines[0]);
        if has_prefix(t, end_line_prefix()) {
            match spec_parse_trailer(t) {
                Ok(tr) => spec_finish(header, part, tr, data, check_crc),
                Err(e) => Err(e),
            }
        } else {
            match spec_decode_segment(t, escaped, strict) {
                Some(r) => spec_body_loop(
                    header,
                    part,
                    lines.drop_first(),
                    r.1,
                    data + r.0,
                    strict,
                    check_crc,
                ),
                None => Err(SpecError::BadData),
            }
        }
    }
}

/// After the begin line: an optional part line, then the body.  A header
/// that names a part number demands a part line; a stream that ends right
/// after the begin line, or right after the part line, is malformed.
pub open spec fn spec_after_header(
    header: SpecHeader,
    lines: Seq<Seq<u8>>,
    strict: bool,
    check_crc: bool,
) -> Result<SpecOutcome, SpecError> {
    if lines.len() == 0 {
        Err(SpecError::BadData)
    } else {
        let t = spec_trim(lines[0]);
        if has_prefix(t, part_line_prefix()) {
            match spec_parse_part(t) {
                Ok(p) => if lines.len() == 1 {
                    Err(SpecError::BadData)
                } else {
                    spec_body_loop(
                        header,
                        Some(p),
                        lines.drop_first(),
                        false,
                        Seq::empty(),
                        strict,
                        check_crc,
                    )
                },
                Err(e) => Err(e),
            }
        } else if header.part is Some {
            Err(SpecError::BadData)
        } else {
            spec_body_loop(header, None, lines, false, Seq::empty(), strict, check_crc)
        }
    }
}

/// Scan forward for the first line that begins with the begin-line prefix;
/// anything before it is transport text and is skipped.  Reaching the end of
/// the stream first is the no-header error.
pub open spec fn spec_find_header(lines: Seq<Seq<u8>>) -> Result<
    (SpecHeader, Seq<Seq<u8>>),
    SpecError,
>
    decreases lines.len(),
{
    if lines.len() == 0 {
        Err(SpecError::BadHeader)
    } else {
        let t = spec_trim(lines[0]);
        if has_prefix(t, begin_line_prefix()) {
            match spec_parse_header(t) {
                Ok(h) => Ok((h, lines.drop_first())),
                Err(e) => Err(e),
            }
        } else {
            spec_find_header(lines.drop_first())
        }
    }
}

/// What decoding a whole stream yields, for a given strictness and checksum
/// setting.
pub open spec fn spec_decode(input: Seq<u8>, strict: bool, check_crc: bool) -> Result<
    SpecOutcome,
    SpecError,
> {
    match spec_find_header(spec_lines(input)) {
        Ok(hr) => spec_after_header(hr.0, hr.1, strict, check_crc),
        Err(e) => Err(e),
    }
}

pub(crate) proof fn lemma_body_loop_end(
    header: SpecHeader,
    part: Option<YencPart>,
    lines: Seq<Seq<u8>>,
    escaped: bool,
    data: Seq<u8>,
    strict: bool,
    check: bool,
)
    requires
        lines.len() > 0,
        has_prefix(spec_trim(lines[0]), end_line_prefix()),
    ensures
        spec_body_loop(header, part, lines, escaped, data, strict, check) == (
        match spec_parse_trailer(spec_trim(lines[0])) {
            Ok(tr) => spec_finish(header, part, tr, data, check),
            Err(e) => Err(e),
        }),
{
}

pub(crate) proof fn lemma_body_loop_data(
    header: SpecHeader,
    part: Option<YencPart>,
    lines: Seq<Seq<u8>>,
    escaped: bool,
    data: Seq<u8>,
    strict: bool,
    check: bool,
)
    requires
        lines.len() > 0,
        !has_prefix(spec_trim(lines[0]), end_line_prefix()),
    ensures
        spec_body_loop(header, part, lines, escaped, data, strict, check) == (
        match spec_decode_segment(spec_trim(lines[0]), escaped, strict) {
            Some(r) => spec_body_loop(
                header,
                part,
                lines.drop_first(),
                r.1,
                data + r.0,
                strict,
                check,
            ),
            None => Err(SpecError::BadData),
        }),
{
}

pub(crate) proof fn lemma_body_loop_empty(
    header: SpecHeader,
    part: Option<YencPart>,
    lines: Seq<Seq<u8>>,
    escaped: bool,
    data: Seq<u8>,
    strict: bool,
    check: bool,
)
    requires
        lines.len() == 0,
    ensures
        spec_body_loop(header, part, lines, escaped, data, strict, check) == (if escaped {
            Err(SpecError::BadData)
        } else {
            Ok(SpecOutcome { header, part, trailer: None, data })
        }),
{
}

/// How the executable decode relates to [`spec_decode`]: on success the
/// parsed lines match, the output vector is extended by exactly the decoded
/// bytes, and the returned count is their number; on failure the error kind
/// and details match and the output vector is untouched.
pub open spec fn decode_result_matches(
    r: Result<(YencHeader, Option<YencPart>, Option<YencTrailer>, usize), YencError>,
    out_old: Seq<u8>,
    out_new: Seq<u8>,
    s: Result<SpecOutcome, SpecError>,
) -> bool {
    match (r, s) {
        (Ok(t), Ok(so)) => {
            &&& t.0@ == so.header
            &&& t.1 == so.part
            &&& t.2 == so.trailer
            &&& t.3 as int == so.data.len()
            &&& out_new == out_old + so.data
        },
        (Err(e), Err(se)) => e@ == se && out_new == out_old,
        _ => false,
    }
}

/// Decode the payload of one trimmed body line into `decoded`, returning the
/// escape state after the line, or `None` on a strict-mode violation.
fn decode_segment_line(line: &[u8], escaped0: bool, strict: bool, decoded: &mut Vec<u8>) -> (r:
    Option<bool>)
    ensures
        (match (r, spec_decode_segment(line@, escaped0, strict)) {
            (Some(e2), Some(sr)) => final(decoded)@ == old(decoded)@ + sr.0 && e2 == sr.1,
            (None, None) => true,
            _ => false,
        }),
{
    let ghost out0 = decoded@;
    let mut j: usize = 0;
    let mut esc = escaped0;
    proof {
        assert(line@.skip(0) =~= line@);
        assert(decoded@.skip(out0.len() as int) =~= Seq::<u8>::empty());
        match spec_decode_segment(line@, escaped0, strict) {
            Some(rem) => {
                assert(Seq::<u8>::empty() + rem.0 =~= rem.0);
            },
            None => {},
        }
    }
    while j < line.len()
        invariant
            0 <= j <= line@.len(),
            out0 == old(decoded)@,
            out0.is_prefix_of(decoded@),
            spec_decode_segment(line@, escaped0, strict) == (match spec_decode_segment(
                line@.skip(j as int),
                esc,
                strict,
            ) {
                Some(rem) => Some(
                    (decoded@.skip(out0.len() as int) + rem.0, rem.1),
                ),
                None => None::<(Seq<u8>, bool)>,
            }),
        decreases line@.len() - j,
    {
        let ghost rest = line@.skip(j as int);
        let ghost acc0 = decoded@.skip(out0.len() as int);
        proof {
            assert(rest[0] == line@[j as int]);
            assert(rest.drop_first() =~= line@.skip(j + 1));
        }
        let b = line[j];
        if b == 61 {
            esc = true;
        } else if esc {
            let d = unescape_byte(b);
            if strict && !is_canonical(d) {
                return None;
            }
            decoded.push(d);
            esc = false;
            proof {
                match spec_decode_segment(rest.drop_first(), false, strict) {
                    Some(rem) => {
                        assert(decoded@.skip(out0.len() as int) =~= acc0.push(d));
                        assert(acc0 + (seq![d] + rem.0) =~= acc0.push(d) + rem.0);
                    },
                    None => {},
                }
            }
        } else {
            let d = decode_byte(b);
            decoded.push(d);
            proof {
                match spec_decode_segment(rest.drop_first(), false, strict) {
                    Some(rem) => {
                        assert(decoded@.skip(out0.len() as int) =~= acc0.push(d));
                        assert(acc0 + (seq![d] + rem.0) =~= acc0.push(d) + rem.0);
                    },
                    None => {},
                }
            }
        }
        j = j + 1;
    }
    proof {
        assert(line@.skip(j as int) =~= Seq::<u8>::empty());
        match spec_decode_segment(line@, escaped0, strict) {
            Some(rem) => {
                assert(decoded@.skip(out0.len() as int) + Seq::<u8>::empty() =~= decoded@.skip(
                    out0.len() as int,
                ));
                assert(decoded@ =~= out0 + decoded@.skip(out0.len() as int));
            },
            None => {},
        }
    }
    Some(esc)
}

/// Find the begin line, skipping transport text before it.  On success the
/// returned index is the line after the begin line.
fn find_header(lines: &Vec<Vec<u8>>, bp: &[u8]) -> (r: Result<(YencHeader, usize), YencError>)
    requires
        bp@ == begin_line_prefix(),
    ensures
        (match r {
            Ok(hj) => hj.1 <= lines@.len() && spec_find_header(lines.deep_view()) == Ok::<
                _,
                SpecError,
            >((hj.0@, lines.deep_view().skip(hj.1 as int))),
            Err(e) => spec_find_header(lines.deep_view()) == Err::<
                (SpecHeader, Seq<Seq<u8>>),
                SpecError,
            >(e@),
        }),
{
    let ghost dv = lines.deep_view();
    let mut i: usize = 0;
    proof {
        assert(dv.skip(0) =~= dv);
    }
    while i < lines.len()
        invariant
            0 <= i <= dv.len(),
            dv == lines.deep_view(),
            bp@ == begin_line_prefix(),
            spec_find_header(dv) == spec_find_header(dv.skip(i as int)),
        decreases dv.len() - i,
    {
        let ghost rest = dv.skip(i as int);
        proof {
            assert(rest[0] == dv[i as int]);
            assert(lines@[i as int].deep_view() =~= lines@[i as int]@);
            assert(rest.drop_first() =~= dv.skip(i + 1));
        }
        let t = trim_bytes(lines[i].as_slice());
        if starts_with_bytes(t, bp) {
            match parse_header_bytes(t) {
                Ok(h) => {
                    return Ok((h, i + 1));
                },
                Err(e) => {
                    return Err(e);
                },
            }
        }
        i = i + 1;
    }
    proof {
        assert(dv.skip(i as int) =~= Seq::<Seq<u8>>::empty());
    }
    Err(YencError::InvalidHeader(String::from_str("No header found")))
}

/// Whether the trailer size equals the span of the part range.
fn part_size_matches(p: &YencPart, size: usize) -> (r: bool)
    ensures
        r == (size as int == p.end as int - p.begin as int + 1),
{
    span_matches(p.begin, p.end, size)
}

/// Run the trailer validations and, on success, hand the decoded bytes to
/// the caller's sink.
fn handle_trailer(
    header: YencHeader,
    part: Option<YencPart>,
    trailer: YencTrailer,
    decoded: Vec<u8>,
    validate_crc: bool,
    out: &mut Vec<u8>,
) -> (r: Result<(YencHeader, Option<YencPart>, Option<YencTrailer>, usize), YencError>)
    ensures
        decode_result_matches(
            r,
            old(out)@,
            final(out)@,
            spec_finish(header@, part, trailer, decoded@, validate_crc),
        ),
{
    if let Some(p) = part {
        if !part_size_matches(&p, trailer.size) {
            return Err(
                YencError::InvalidData(
                    String::from_str("Part size mismatch between the trailer and the part range"),
                ),
            );
        }
        if header.part.is_some() {
            let part_matches = match (trailer.part, header.part) {
                (Some(a), Some(b)) => a == b,
                _ => false,
            };
            if !part_matches {
                return Err(
                    YencError::InvalidData(
                        String::from_str("Part number mismatch between the header and the trailer"),
                    ),
                );
            }
        }
    }
    if validate_crc {
        let expected = if part.is_some() {
            trailer.pcrc32
        } else {
            trailer.crc32
        };
        if let Some(e) = expected {
            let actual = compute_crc32(decoded.as_slice());
            if actual != e {
                return Err(YencError::CrcMismatch { expected: e, actual });
            }
        }
    }
    let n = decoded.len();
    out.extend_from_slice(decoded.as_slice());
    proof {
        assert(out@ =~= old(out)@ + decoded@);
    }
    Ok((header, part, Some(trailer), n))
}

/// Decoder with configurable options: strict escape validation (off by
/// default) and checksum validation (on by default).
#[derive(Debug, Clone)]
pub struct Decoder {
    /// Reject escape sequences that decode to a non-canonical byte.
    pub strict: bool,
    /// Compare the trailer checksum, when present, against the decoded bytes.
    pub validate_crc: bool,
}

impl Default for Decoder {
    /// Lenient decoding with checksum validation.
    fn default() -> (r: Self)
        ensures
            r.strict == false,
            r.validate_crc == true,
    {
        Decoder { strict: false, validate_crc: true }
    }
}

impl Decoder {
    /// A decoder with the default settings: lenient escape handling,
    /// checksum validation enabled.
    pub fn new() -> (r: Self)
        ensures
            r.strict == false,
            r.validate_crc == true,
    {
        Decoder { strict: false, validate_crc: true }
    }

    /// Enable strict validation of escape sequences: only the seven
    /// canonical escapable values may come out of an escape.
    pub fn strict(self) -> (r: Self)
        ensures
            r.strict == true,
            r.validate_crc == self.validate_crc,
    {
        Decoder { strict: true, ..self }
    }

    /// Disable checksum validation.
    pub fn no_crc_check(self) -> (r: Self)
        ensures
            r.strict == self.strict,
            r.validate_crc == false,
    {
        Decoder { validate_crc: false, ..self }
    }

    /// Decode a yEnc stream, appending the raw bytes to `out`.
    ///
    /// Returns the parsed header, the part line of a multi-part stream, the
    /// trailer (`None` when the stream ended before an end line), and the
    /// number of decoded bytes.  On an error nothing is appended.
    pub fn decode(&self, input: &[u8], out: &mut Vec<u8>) -> (r: Result<
        (YencHeader, Option<YencPart>, Option<YencTrailer>, usize),
        YencError,
    >)
        ensures
            decode_result_matches(
                r,
                old(out)@,
                final(out)@,
                spec_decode(input@, self.strict, self.validate_crc),
            ),
    {
        let ghost target = spec_decode(input@, self.strict, self.validate_crc);
        let lines = split_lines(input);
        let ghost dv = lines.deep_view();

        let bp: Vec<u8> = vec![61u8, 121, 98, 101, 103, 105, 110, 32];
        let pp: Vec<u8> = vec![61u8, 121, 112, 97, 114, 116, 32];
        let ep: Vec<u8> = vec![61u8, 121, 101, 110, 100, 32];
        proof {
            assert(bp@ =~= begin_line_prefix());
            assert(pp@ =~= part_line_prefix());
            assert(ep@ =~= end_line_prefix());
        }

        // Scan for the begin line.
        let (header, mut i) = match find_header(&lines, bp.as_slice()) {
            Ok(hj) => hj,
            Err(e) => {
                return Err(e);
            },
        };
        let ghost hv = header@;
        proof {
            assert(target == spec_after_header(hv, dv.skip(i as int), self.strict,
                self.validate_crc));
        }

        // An optional part line, then the first body line.
        let ghost rest_after_header = dv.skip(i as int);
        if i == lines.len() {
            proof {
                assert(rest_after_header =~= Seq::<Seq<u8>>::empty());
            }
            return Err(YencError::InvalidData(String::from_str("No data found")));
        }
        proof {
            assert(rest_after_header[0] == dv[i as int]);
            assert(lines@[i as int].deep_view() =~= lines@[i as int]@);
            assert(rest_after_header.drop_first() =~= dv.skip(i + 1));
        }
        let t = trim_bytes(lines[i].as_slice());
        let part: Option<YencPart>;
        if starts_with_bytes(t, pp.as_slice()) {
            match parse_part_bytes(t) {
                Ok(p) => {
                    if i + 1 == lines.len() {
                        return Err(
                            YencError::InvalidData(
                                String::from_str("No data found after part line"),
                            ),
                        );
                    }
                    part = Some(p);
                    i = i + 1;
                },
                Err(e) => {
                    return Err(e);
                },
            }
        } else {
            if header.part.is_some() {
                return Err(
                    YencError::InvalidData(
                        String::from_str("Header indicates multi-part but no =ypart line found"),
                    ),
                );
            }
            part = None;
        }
        proof {
            assert(target == spec_body_loop(hv, part, dv.skip(i as int), false, Seq::empty(),
                self.strict, self.validate_crc));
        }

        // The body scan.
        let mut escaped = false;
        let mut decoded: Vec<u8> = Vec::new();
        proof {
            assert(decoded@ =~= Seq::<u8>::empty());
        }
        while i < lines.len()
            invariant
                0 <= i <= dv.len(),
                dv == lines.deep_view(),
                ep@ == end_line_prefix(),
                out@ == old(out)@,
                hv == header@,
                target == spec_decode(input@, self.strict, self.validate_crc),
                target == spec_body_loop(
                    hv,
                    part,
                    dv.skip(i as int),
                    escaped,
                    decoded@,
                    self.strict,
                    self.validate_crc,
                ),
            decreases dv.len() - i,
        {
            let ghost rest = dv.skip(i as int);
            proof {
                assert(rest[0] == dv[i as int]);
                assert(lines@[i as int].deep_view() =~= lines@[i as int]@);
                assert(rest.drop_first() =~= dv.skip(i + 1));
            }
            let t = trim_bytes(lines[i].as_slice());
            if starts_with_bytes(t, ep.as_slice()) {
                proof {
                    assert(rest.len() > 0);
                    assert(t@ == spec_trim(rest[0]));
                    assert(has_prefix(t@, end_line_prefix()));
                    lemma_body_loop_end(hv, part, rest, escaped, decoded@, self.strict,
                        self.validate_crc);
                    assert(target == (match spec_parse_trailer(t@) {
                        Ok(tr) => spec_finish(hv, part, tr, decoded@, self.validate_crc),
                        Err(e) => Err(e),
                    }));
                }
                let trailer = match parse_trailer_bytes(t) {
                    Ok(tr) => tr,
                    Err(e) => {
                        return Err(e);
                    },
                };
                return handle_trailer(header, part, trailer, decoded, self.validate_crc, out);
            } else {
                proof {
                    assert(t@ == spec_trim(rest[0]));
                    lemma_body_loop_data(hv, part, rest, escaped, decoded@, self.strict,
                        self.validate_crc);
                }
                match decode_segment_line(t, escaped, self.strict, &mut decoded) {
                    Some(e2) => {
                        escaped = e2;
                    },
                    None => {
                        return Err(
                            YencError::InvalidData(String::from_str("Invalid escape sequence")),
                        );
                    },
                }
                i = i + 1;
            }
        }
        proof {
            assert(dv.skip(i as int) =~= Seq::<Seq<u8>>::empty());
            lemma_body_loop_empty(hv, part, dv.skip(i as int), escaped, decoded@, self.strict,
                self.validate_crc);
        }
        if escaped {
            return Err(
                YencError::InvalidData(
                    String::from_str("File ended with incomplete escape sequence"),
                ),
            );
        }
        let n = decoded.len();
        out.extend_from_slice(decoded.as_slice());
        proof {
            assert(out@ =~= old(out)@ + decoded@);
        }
        Ok((header, part, None, n))
    }
}

/// Decode a yEnc stream with the default settings: lenient escape handling,
/// checksum validation enabled.
pub fn decode(input: &[u8], out: &mut Vec<u8>) -> (r: Result<
    (YencHeader, Option<YencPart>, Option<YencTrailer>, usize),
    YencError,
>)
    ensures
        decode_result_matches(r, old(out)@, final(out)@, spec_decode(input@, false, true)),
{
    Decoder::new().decode(input, out)
}

} // verus!
