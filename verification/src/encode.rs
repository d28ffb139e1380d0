//! The stream encoder: emits the begin line (and, for a part, the part
//! line), transforms and escapes every raw byte, wraps the body at the
//! configured width, and closes with the end line and its checksums.

use vstd::prelude::*;
use vstd::string::StringSliceAdditionalSpecFns;

use crate::consts::LINE_LENGTH;
use crate::crc::{compute_crc32, crc32_of};
use crate::error::{SpecError, YencError};
use crate::header::{begin_line_prefix, end_line_prefix, part_line_prefix, span_matches};
use crate::numbers::{push_decimal, push_hex8, spec_dec_digits, spec_hex8};
use crate::transform::{
    encode_byte, needs_escape, spec_encode_byte, spec_escape_pair, spec_needs_escape,
};

verus! {

/// The wire form of one raw byte: the escape pair for a byte that needs
/// escaping, the transformed byte alone otherwise.
pub open spec fn spec_encode_one(b: u8) -> Seq<u8> {
    if spec_needs_escape(b) {
        seq![61u8, spec_escape_pair(b)]
    } else {
        seq![spec_encode_byte(b)]
    }
}

/// The encoded body: every raw byte in wire form, a line break wherever the
/// running column count reaches the wrap width, and a final line break after
/// a non-empty partial line.
pub open spec fn spec_encode_body(data: Seq<u8>, col: int, limit: int) -> Seq<u8>
    decreases data.len(),
{
    if data.len() == 0 {
        if col > 0 {
            seq![10u8]
        } else {
            Seq::empty()
        }
    } else {
        let e = spec_encode_one(data[0]);
        if col + e.len() >= limit {
            e + seq![10u8] + spec_encode_body(data.drop_first(), 0, limit)
        } else {
            e + spec_encode_body(data.drop_first(), col + e.len(), limit)
        }
    }
}

/// The bytes of `part=`.
pub open spec fn lit_part_eq() -> Seq<u8> {
    seq![112u8, 97, 114, 116, 61]
}

/// The bytes of ` total=`.
pub open spec fn lit_sp_total_eq() -> Seq<u8> {
    seq![32u8, 116, 111, 116, 97, 108, 61]
}

/// The bytes of `line=`.
pub open spec fn lit_line_eq() -> Seq<u8> {
    seq![108u8, 105, 110, 101, 61]
}

/// The bytes of ` line=`.
pub open spec fn lit_sp_line_eq() -> Seq<u8> {
    seq![32u8, 108, 105, 110, 101, 61]
}

/// The bytes of ` size=`.
pub open spec fn lit_sp_size_eq() -> Seq<u8> {
    seq![32u8, 115, 105, 122, 101, 61]
}

/// The bytes of ` name=`.
pub open spec fn lit_sp_name_eq() -> Seq<u8> {
    seq![32u8, 110, 97, 109, 101, 61]
}

/// The bytes of `begin=`.
pub open spec fn lit_begin_eq() -> Seq<u8> {
    seq![98u8, 101, 103, 105, 110, 61]
}

/// The bytes of ` end=`.
pub open spec fn lit_sp_end_eq() -> Seq<u8> {
    seq![32u8, 101, 110, 100, 61]
}

/// The bytes of `size=`.
pub open spec fn lit_size_eq() -> Seq<u8> {
    seq![115u8, 105, 122, 101, 61]
}

/// The bytes of ` part=`.
pub open spec fn lit_sp_part_eq() -> Seq<u8> {
    seq![32u8, 112, 97, 114, 116, 61]
}

/// The bytes of ` pcrc32=`.
pub open spec fn lit_sp_pcrc32_eq() -> Seq<u8> {
    seq![32u8, 112, 99, 114, 99, 51, 50, 61]
}

/// The bytes of ` crc32=`.
pub open spec fn lit_sp_crc32_eq() -> Seq<u8> {
    seq![32u8, 99, 114, 99, 51, 50, 61]
}

/// The content of the begin line the encoder emits: `=ybegin [part=P
/// total=T] line=L size=S name=NAME`, without the line break.
pub open spec fn spec_begin_content(
    part_total: Option<(nat, nat)>,
    line: nat,
    size: nat,
    name: Seq<u8>,
) -> Seq<u8> {
    begin_line_prefix() + (match part_total {
        Some(pt) => lit_part_eq() + spec_dec_digits(pt.0) + lit_sp_total_eq() + spec_dec_digits(
            pt.1,
        ) + lit_sp_line_eq(),
        None => lit_line_eq(),
    }) + spec_dec_digits(line) + lit_sp_size_eq() + spec_dec_digits(size) + lit_sp_name_eq()
        + name
}

/// The begin line: its content and a line break.
pub open spec fn spec_begin_line(
    part_total: Option<(nat, nat)>,
    line: nat,
    size: nat,
    name: Seq<u8>,
) -> Seq<u8> {
    spec_begin_content(part_total, line, size, name) + seq![10u8]
}

/// The content of the part line the encoder emits: `=ypart begin=B end=E`,
/// without the line break.
pub open spec fn spec_part_content(begin: nat, end: nat) -> Seq<u8> {
    part_line_prefix() + lit_begin_eq() + spec_dec_digits(begin) + lit_sp_end_eq()
        + spec_dec_digits(end)
}

/// The part line: its content and a line break.
pub open spec fn spec_part_line(begin: nat, end: nat) -> Seq<u8> {
    spec_part_content(begin, end) + seq![10u8]
}

/// The content of the end line the encoder emits: `=yend size=S [part=P]
/// [pcrc32=H] [crc32=H]`, without the line break.
pub open spec fn spec_end_content(
    size: nat,
    part: Option<nat>,
    pcrc: Option<u32>,
    fcrc: Option<u32>,
) -> Seq<u8> {
    end_line_prefix() + lit_size_eq() + spec_dec_digits(size) + (match part {
        Some(p) => lit_sp_part_eq() + spec_dec_digits(p),
        None => Seq::empty(),
    }) + (match pcrc {
        Some(c) => lit_sp_pcrc32_eq() + spec_hex8(c),
        None => Seq::empty(),
    }) + (match fcrc {
        Some(c) => lit_sp_crc32_eq() + spec_hex8(c),
        None => Seq::empty(),
    })
}

/// The end line: its content and a line break.
pub open spec fn spec_end_line(
    size: nat,
    part: Option<nat>,
    pcrc: Option<u32>,
    fcrc: Option<u32>,
) -> Seq<u8> {
    spec_end_content(size, part, pcrc, fcrc) + seq![10u8]
}

/// The whole single-part encoded stream for `data` under `name`.
pub open spec fn spec_encode(data: Seq<u8>, name: Seq<u8>, line_len: usize, with_crc: bool) -> Seq<
    u8,
> {
    spec_begin_line(None, line_len as nat, data.len(), name) + spec_encode_body(
        data,
        0,
        line_len as int,
    ) + spec_end_line(
        data.len(),
        None,
        None,
        if with_crc {
            Some(crc32_of(data))
        } else {
            None
        },
    )
}

/// Multi-part encoding configuration: the part's number and place in the
/// full file, and optionally the whole file's checksum.
#[derive(Debug, Clone, Copy, PartialEq, Eq, Structural)]
pub struct MultiPartInfo {
    /// Part number, 1-based.
    pub part: usize,
    /// Total number of parts.
    pub total: usize,
    /// First byte position of the part in the full file, 1-based, inclusive.
    pub begin: usize,
    /// Last byte position of the part in the full file, 1-based, inclusive.
    pub end: usize,
    /// Size of the full file, not of this part.
    pub full_size: usize,
    /// Checksum of the full file, conventionally set on the last part only.
    pub full_crc: Option<u32>,
}

impl MultiPartInfo {
    /// A configuration without a full-file checksum.
    pub fn new(part: usize, total: usize, begin: usize, end: usize, full_size: usize) -> (r: Self)
        ensures
            r == (MultiPartInfo { part, total, begin, end, full_size, full_crc: None }),
    {
        MultiPartInfo { part, total, begin, end, full_size, full_crc: None }
    }

    /// The same configuration with the full-file checksum set.
    pub fn with_full_crc(self, crc: u32) -> (r: Self)
        ensures
            r == (MultiPartInfo { full_crc: Some(crc), ..self }),
    {
        MultiPartInfo { full_crc: Some(crc), ..self }
    }

    /// The number of bytes the part must supply: `end - begin + 1`.
    pub fn expected_size(&self) -> (r: usize)
        requires
            1 <= self.begin <= self.end,
        ensures
            r == self.end - self.begin + 1,
    {
        self.end - self.begin + 1
    }
}

/// The whole encoded stream of one part of a multi-part file.
pub open spec fn spec_encode_part(
    data: Seq<u8>,
    name: Seq<u8>,
    line_len: usize,
    with_crc: bool,
    info: MultiPartInfo,
) -> Seq<u8> {
    spec_begin_line(
        Some((info.part as nat, info.total as nat)),
        line_len as nat,
        info.full_size as nat,
        name,
    ) + spec_part_line(info.begin as nat, info.end as nat) + spec_encode_body(
        data,
        0,
        line_len as int,
    ) + spec_end_line(
        data.len(),
        Some(info.part as nat),
        if with_crc {
            Some(crc32_of(data))
        } else {
            None
        },
        info.full_crc,
    )
}

/// Append a byte string.
fn push_bytes(out: &mut Vec<u8>, s: &[u8])
    ensures
        final(out)@ == old(out)@ + s@,
{
    let mut i: usize = 0;
    while i < s.len()
        invariant
            0 <= i <= s@.len(),
            out@ == old(out)@ + s@.take(i as int),
        decreases s@.len() - i,
    {
        out.push(s[i]);
        proof {
            assert(old(out)@ + s@.take(i as int) + seq![s@[i as int]] =~= old(out)@ + s@.take(
                i + 1,
            ));
        }
        i = i + 1;
    }
    proof {
        assert(s@.take(i as int) =~= s@);
    }
}

/// Emit a begin line.
fn write_begin_line(
    out: &mut Vec<u8>,
    part_total: Option<(usize, usize)>,
    line_len: usize,
    size: usize,
    name: &str,
)
    ensures
        final(out)@ == old(out)@ + spec_begin_line(
            (match part_total {
                Some(pt) => Some((pt.0 as nat, pt.1 as nat)),
                None => None,
            }),
            line_len as nat,
            size as nat,
            name.spec_bytes(),
        ),
{
    let bp: Vec<u8> = vec![61u8, 121, 98, 101, 103, 105, 110, 32];
    proof {
        assert(bp@ =~= begin_line_prefix());
    }
    push_bytes(out, bp.as_slice());
    match part_total {
        Some(pt) => {
            let l_part: Vec<u8> = vec![112u8, 97, 114, 116, 61];
            let l_total: Vec<u8> = vec![32u8, 116, 111, 116, 97, 108, 61];
            let l_line: Vec<u8> = vec![32u8, 108, 105, 110, 101, 61];
            proof {
                assert(l_part@ =~= lit_part_eq());
                assert(l_total@ =~= lit_sp_total_eq());
                assert(l_line@ =~= lit_sp_line_eq());
            }
            push_bytes(out, l_part.as_slice());
            push_decimal(out, pt.0);
            push_bytes(out, l_total.as_slice());
            push_decimal(out, pt.1);
            push_bytes(out, l_line.as_slice());
        },
        None => {
            let l_line: Vec<u8> = vec![108u8, 105, 110, 101, 61];
            proof {
                assert(l_line@ =~= lit_line_eq());
            }
            push_bytes(out, l_line.as_slice());
        },
    }
    push_decimal(out, line_len);
    let l_size: Vec<u8> = vec![32u8, 115, 105, 122, 101, 61];
    let l_name: Vec<u8> = vec![32u8, 110, 97, 109, 101, 61];
    proof {
        assert(l_size@ =~= lit_sp_size_eq());
        assert(l_name@ =~= lit_sp_name_eq());
    }
    push_bytes(out, l_size.as_slice());
    push_decimal(out, size);
    push_bytes(out, l_name.as_slice());
    push_bytes(out, name.as_bytes());
    out.push(10);
    proof {
        assert(out@ =~= old(out)@ + spec_begin_line(
            (match part_total {
                Some(pt) => Some((pt.0 as nat, pt.1 as nat)),
                None => None,
            }),
            line_len as nat,
            size as nat,
            name.spec_bytes(),
        ));
    }
}

/// Emit a part line.
fn write_part_line(out: &mut Vec<u8>, begin: usize, end: usize)
    ensures
        final(out)@ == old(out)@ + spec_part_line(begin as nat, end as nat),
{
    let pp: Vec<u8> = vec![61u8, 121, 112, 97, 114, 116, 32];
    let l_begin: Vec<u8> = vec![98u8, 101, 103, 105, 110, 61];
    let l_end: Vec<u8> = vec![32u8, 101, 110, 100, 61];
    proof {
        assert(pp@ =~= part_line_prefix());
        assert(l_begin@ =~= lit_begin_eq());
        assert(l_end@ =~= lit_sp_end_eq());
    }
    push_bytes(out, pp.as_slice());
    push_bytes(out, l_begin.as_slice());
    push_decimal(out, begin);
    push_bytes(out, l_end.as_slice());
    push_decimal(out, end);
    out.push(10);
    proof {
        assert(out@ =~= old(out)@ + spec_part_line(begin as nat, end as nat));
    }
}

/// Emit an end line.
fn write_end_line(
    out: &mut Vec<u8>,
    size: usize,
    part: Option<usize>,
    pcrc: Option<u32>,
    fcrc: Option<u32>,
)
    ensures
        final(out)@ == old(out)@ + spec_end_line(
            size as nat,
            (match part {
                Some(p) => Some(p as nat),
                None => None,
            }),
            pcrc,
            fcrc,
        ),
{
    let ep: Vec<u8> = vec![61u8, 121, 101, 110, 100, 32];
    let l_size: Vec<u8> = vec![115u8, 105, 122, 101, 61];
    proof {
        assert(ep@ =~= end_line_prefix());
        assert(l_size@ =~= lit_size_eq());
    }
    push_bytes(out, ep.as_slice());
    push_bytes(out, l_size.as_slice());
    push_decimal(out, size);
    if let Some(p) = part {
        let l_part: Vec<u8> = vec![32u8, 112, 97, 114, 116, 61];
        proof {
            assert(l_part@ =~= lit_sp_part_eq());
        }
        push_bytes(out, l_part.as_slice());
        push_decimal(out, p);
    }
    if let Some(c) = pcrc {
        let l_pcrc: Vec<u8> = vec![32u8, 112, 99, 114, 99, 51, 50, 61];
        proof {
            assert(l_pcrc@ =~= lit_sp_pcrc32_eq());
        }
        push_bytes(out, l_pcrc.as_slice());
        push_hex8(out, c);
    }
    if let Some(c) = fcrc {
        let l_crc: Vec<u8> = vec![32u8, 99, 114, 99, 51, 50, 61];
        proof {
            assert(l_crc@ =~= lit_sp_crc32_eq());
        }
        push_bytes(out, l_crc.as_slice());
        push_hex8(out, c);
    }
    out.push(10);
    proof {
        assert(out@ =~= old(out)@ + spec_end_line(
            size as nat,
            (match part {
                Some(p) => Some(p as nat),
                None => None,
            }),
            pcrc,
            fcrc,
        ));
    }
}

/// Emit the encoded body of `data`, wrapped at `limit`.
fn write_body(out: &mut Vec<u8>, data: &[u8], limit: usize)
    ensures
        final(out)@ == old(out)@ + spec_encode_body(data@, 0, limit as int),
{
    let mut col: usize = 0;
    let mut k: usize = 0;
    proof {
        assert(data@.skip(0) =~= data@);
    }
    while k < data.len()
        invariant
            0 <= k <= data@.len(),
            col <= limit,
            old(out)@ + spec_encode_body(data@, 0, limit as int) == out@ + spec_encode_body(
                data@.skip(k as int),
                col as int,
                limit as int,
            ),
        decreases data@.len() - k,
    {
        let ghost rest = data@.skip(k as int);
        let ghost out_before = out@;
        let ghost col0 = col as int;
        proof {
            assert(rest[0] == data@[k as int]);
            assert(rest.drop_first() =~= data@.skip(k + 1));
        }
        let b = data[k];
        let e = encode_byte(b);
        let w: usize;
        if needs_escape(b, e) {
            out.push(61);
            out.push(e.wrapping_add(64));
            w = 2;
            proof {
                assert(out@ =~= out_before + spec_encode_one(rest[0]));
            }
        } else {
            out.push(e);
            w = 1;
            proof {
                assert(out@ =~= out_before + spec_encode_one(rest[0]));
            }
        }
        proof {
            assert(spec_encode_one(rest[0]).len() == w);
        }
        if limit <= w || col >= limit - w {
            out.push(10);
            col = 0;
            proof {
                assert(col0 + spec_encode_one(rest[0]).len() >= limit as int);
                assert(out@ =~= out_before + spec_encode_one(rest[0]) + seq![10u8]);
                assert(out@ + spec_encode_body(data@.skip(k + 1), 0, limit as int) =~= out_before
                    + spec_encode_body(rest, col0, limit as int));
            }
        } else {
            col = col + w;
            proof {
                assert(col0 + spec_encode_one(rest[0]).len() < limit as int);
                assert(out@ + spec_encode_body(data@.skip(k + 1), col as int, limit as int)
                    =~= out_before + spec_encode_body(rest, col0, limit as int));
            }
        }
        k = k + 1;
    }
    proof {
        assert(data@.skip(k as int) =~= Seq::<u8>::empty());
    }
    if col > 0 {
        out.push(10);
        proof {
            assert(out@ =~= old(out)@ + spec_encode_body(data@, 0, limit as int));
        }
    } else {
        proof {
            assert(out@ + Seq::<u8>::empty() =~= out@);
            assert(out@ =~= old(out)@ + spec_encode_body(data@, 0, limit as int));
        }
    }
}

/// Encoder with configurable options: the wrap width (128 by default) and
/// checksum computation (on by default).
#[derive(Debug, Clone)]
pub struct Encoder {
    /// Wrap width for the encoded body.
    pub line_length: usize,
    /// Compute and emit checksums in the end line.
    pub compute_crc: bool,
}

impl Default for Encoder {
    /// The standard wrap width, with checksums.
    fn default() -> (r: Self)
        ensures
            r.line_length == LINE_LENGTH,
            r.compute_crc == true,
    {
        Encoder { line_length: LINE_LENGTH, compute_crc: true }
    }
}

impl Encoder {
    /// An encoder with the default settings: 128-column lines, checksums on.
    pub fn new() -> (r: Self)
        ensures
            r.line_length == LINE_LENGTH,
            r.compute_crc == true,
    {
        Encoder { line_length: LINE_LENGTH, compute_crc: true }
    }

    /// Set the wrap width for encoded output.
    pub fn line_length(self, length: usize) -> (r: Self)
        ensures
            r.line_length == length,
            r.compute_crc == self.compute_crc,
    {
        Encoder { line_length: length, ..self }
    }

    /// Disable checksum computation.
    pub fn no_crc(self) -> (r: Self)
        ensures
            r.line_length == self.line_length,
            r.compute_crc == false,
    {
        Encoder { compute_crc: false, ..self }
    }

    /// Encode `data` as a single-part yEnc stream, appending the encoded
    /// bytes to `out` and returning the number of raw bytes consumed.
    pub fn encode(&self, data: &[u8], out: &mut Vec<u8>, filename: &str) -> (r: Result<
        usize,
        YencError,
    >)
        ensures
            r matches Ok(n) && n == data@.len(),
            final(out)@ == old(out)@ + spec_encode(
                data@,
                filename.spec_bytes(),
                self.line_length,
                self.compute_crc,
            ),
    {
        let crc: Option<u32> = if self.compute_crc {
            Some(compute_crc32(data))
        } else {
            None
        };
        write_begin_line(out, None, self.line_length, data.len(), filename);
        write_body(out, data, self.line_length);
        write_end_line(out, data.len(), None, None, crc);
        proof {
            assert(out@ =~= old(out)@ + spec_encode(data@, filename.spec_bytes(),
                self.line_length, self.compute_crc));
        }
        Ok(data.len())
    }

    /// Encode one part of a multi-part file, appending the encoded bytes to
    /// `out`.  Fails, writing nothing, when the input length does not equal
    /// the span `end - begin + 1` of the configured range.
    pub fn encode_part(
        &self,
        data: &[u8],
        out: &mut Vec<u8>,
        filename: &str,
        part_info: &MultiPartInfo,
    ) -> (r: Result<usize, YencError>)
        ensures
            (if data@.len() == part_info.end as int - part_info.begin as int + 1 {
                &&& r matches Ok(n) && n == data@.len()
                &&& final(out)@ == old(out)@ + spec_encode_part(
                    data@,
                    filename.spec_bytes(),
                    self.line_length,
                    self.compute_crc,
                    *part_info,
                )
            } else {
                &&& r matches Err(e) && e@ == SpecError::BadData
                &&& final(out)@ == old(out)@
            }),
    {
        if !span_matches(part_info.begin, part_info.end, data.len()) {
            return Err(
                YencError::InvalidData(
                    String::from_str(
                        "Part size mismatch between the input length and the part range",
                    ),
                ),
            );
        }
        let crc: Option<u32> = if self.compute_crc {
            Some(compute_crc32(data))
        } else {
            None
        };
        write_begin_line(
            out,
            Some((part_info.part, part_info.total)),
            self.line_length,
            part_info.full_size,
            filename,
        );
        write_part_line(out, part_info.begin, part_info.end);
        write_body(out, data, self.line_length);
        write_end_line(out, data.len(), Some(part_info.part), crc, part_info.full_crc);
        proof {
            assert(out@ =~= old(out)@ + spec_encode_part(data@, filename.spec_bytes(),
                self.line_length, self.compute_crc, *part_info));
        }
        Ok(data.len())
    }
}

/// Encode with the default settings: 128-column lines, checksums on.
pub fn encode(data: &[u8], out: &mut Vec<u8>, filename: &str) -> (r: Result<usize, YencError>)
    ensures
        r matches Ok(n) && n == data@.len(),
        final(out)@ == old(out)@ + spec_encode(data@, filename.spec_bytes(), LINE_LENGTH, true),
{
    Encoder::new().encode(data, out, filename)
}

/// Encode a part with the default settings: 128-column lines, checksums on.
pub fn encode_part(data: &[u8], out: &mut Vec<u8>, filename: &str, part_info: &MultiPartInfo) -> (r:
    Result<usize, YencError>)
    ensures
        (if data@.len() == part_info.end as int - part_info.begin as int + 1 {
            &&& r matches Ok(n) && n == data@.len()
            &&& final(out)@ == old(out)@ + spec_encode_part(
                data@,
                filename.spec_bytes(),
                LINE_LENGTH,
                true,
                *part_info,
            )
        } else {
            &&& r matches Err(e) && e@ == SpecError::BadData
            &&& final(out)@ == old(out)@
        }),
{
    Encoder::new().encode_part(data, out, filename, part_info)
}

} // verus!
