//! Decimal and hexadecimal fields of the control lines: parsing and
//! formatting, with proofs that each parser inverts its formatter.

use vstd::prelude::*;
use vstd::arithmetic::div_mod::{lemma_fundamental_div_mod, lemma_mod_breakdown};

verus! {

/// ASCII decimal digit.
pub open spec fn spec_is_digit(b: u8) -> bool {
    48 <= b <= 57
}

/// ASCII hexadecimal digit, either case.
pub open spec fn spec_is_hex_digit(b: u8) -> bool {
    (48 <= b <= 57) || (97 <= b <= 102) || (65 <= b <= 70)
}

/// Numeric value of a hexadecimal digit.
pub open spec fn spec_hex_digit_val(b: u8) -> nat {
    if 48 <= b <= 57 {
        (b - 48) as nat
    } else if 97 <= b <= 102 {
        (b - 87) as nat
    } else {
        (b - 55) as nat
    }
}

/// Value of a digit string read as decimal.
pub open spec fn spec_dec_val(s: Seq<u8>) -> nat
    decreases s.len(),
{
    if s.len() == 0 {
        0
    } else {
        spec_dec_val(s.drop_last()) * 10 + (s.last() - 48) as nat
    }
}

/// Value of a digit string read as hexadecimal.
pub open spec fn spec_hex_val(s: Seq<u8>) -> nat
    decreases s.len(),
{
    if s.len() == 0 {
        0
    } else {
        spec_hex_val(s.drop_last()) * 16 + spec_hex_digit_val(s.last())
    }
}

pub open spec fn all_dec_digits(s: Seq<u8>) -> bool {
    forall|i: int| 0 <= i < s.len() ==> spec_is_digit(#[trigger] s[i])
}

pub open spec fn all_hex_digits(s: Seq<u8>) -> bool {
    forall|i: int| 0 <= i < s.len() ==> spec_is_hex_digit(#[trigger] s[i])
}

/// What a decimal integer field parses to: a nonempty string of decimal
/// digits whose value fits, and nothing else.
pub open spec fn spec_parse_decimal(s: Seq<u8>) -> Option<usize> {
    if s.len() > 0 && all_dec_digits(s) && spec_dec_val(s) <= usize::MAX {
        Some(spec_dec_val(s) as usize)
    } else {
        None
    }
}

/// What a checksum field parses to: a nonempty string of hexadecimal
/// digits, either case, whose value fits in 32 bits, and nothing else.
pub open spec fn spec_parse_hex32(s: Seq<u8>) -> Option<u32> {
    if s.len() > 0 && all_hex_digits(s) && spec_hex_val(s) <= u32::MAX {
        Some(spec_hex_val(s) as u32)
    } else {
        None
    }
}

/// A digit-string prefix never exceeds the whole string in value.
proof fn lemma_dec_val_prefix(s: Seq<u8>, k: int)
    requires
        0 <= k <= s.len(),
    ensures
        spec_dec_val(s.take(k)) <= spec_dec_val(s),
    decreases s.len() - k,
{
    if k < s.len() {
        lemma_dec_val_prefix(s, k + 1);
        assert(s.take(k + 1).drop_last() =~= s.take(k));
        assert(spec_dec_val(s.take(k + 1)) == spec_dec_val(s.take(k)) * 10 + (s.take(k + 1).last()
            - 48) as nat);
    } else {
        assert(s.take(k) =~= s);
    }
}

proof fn lemma_hex_val_prefix(s: Seq<u8>, k: int)
    requires
        0 <= k <= s.len(),
    ensures
        spec_hex_val(s.take(k)) <= spec_hex_val(s),
    decreases s.len() - k,
{
    if k < s.len() {
        lemma_hex_val_prefix(s, k + 1);
        assert(s.take(k + 1).drop_last() =~= s.take(k));
        assert(spec_hex_val(s.take(k + 1)) == spec_hex_val(s.take(k)) * 16 + spec_hex_digit_val(
            s.take(k + 1).last(),
        ));
    } else {
        assert(s.take(k) =~= s);
    }
}

/// Parse a decimal integer field.
pub fn parse_decimal(s: &[u8]) -> (r: Option<usize>)
    ensures
        r == spec_parse_decimal(s@),
{
    if s.len() == 0 {
        return None;
    }
    let mut acc: usize = 0;
    let mut i: usize = 0;
    while i < s.len()
        invariant
            0 <= i <= s@.len(),
            acc == spec_dec_val(s@.take(i as int)),
            all_dec_digits(s@.take(i as int)),
        decreases s@.len() - i,
    {
        let b = s[i];
        if !(48 <= b && b <= 57) {
            assert(!spec_is_digit(s@[i as int]));
            return None;
        }
        let d = (b - 48) as usize;
        proof {
            assert(s@.take(i + 1).drop_last() =~= s@.take(i as int));
        }
        let acc10 = match acc.checked_mul(10) {
            Some(v) => v,
            None => {
                proof {
                    lemma_dec_val_prefix(s@, i + 1);
                }
                return None;
            },
        };
        acc = match acc10.checked_add(d) {
            Some(v) => v,
            None => {
                proof {
                    lemma_dec_val_prefix(s@, i + 1);
                }
                return None;
            },
        };
        i = i + 1;
    }
    proof {
        assert(s@.take(i as int) =~= s@);
    }
    Some(acc)
}

/// Parse a hexadecimal checksum field.
pub fn parse_hex32(s: &[u8]) -> (r: Option<u32>)
    ensures
        r == spec_parse_hex32(s@),
{
    if s.len() == 0 {
        return None;
    }
    let mut acc: u32 = 0;
    let mut i: usize = 0;
    while i < s.len()
        invariant
            0 <= i <= s@.len(),
            acc == spec_hex_val(s@.take(i as int)),
            all_hex_digits(s@.take(i as int)),
        decreases s@.len() - i,
    {
        let b = s[i];
        let d: u32 = if 48 <= b && b <= 57 {
            (b - 48) as u32
        } else if 97 <= b && b <= 102 {
            (b - 87) as u32
        } else if 65 <= b && b <= 70 {
            (b - 55) as u32
        } else {
            assert(!spec_is_hex_digit(s@[i as int]));
            return None;
        };
        proof {
            assert(s@.take(i + 1).drop_last() =~= s@.take(i as int));
        }
        let acc16 = match acc.checked_mul(16) {
            Some(v) => v,
            None => {
                proof {
                    lemma_hex_val_prefix(s@, i + 1);
                }
                return None;
            },
        };
        acc = match acc16.checked_add(d) {
            Some(v) => v,
            None => {
                proof {
                    lemma_hex_val_prefix(s@, i + 1);
                }
                return None;
            },
        };
        i = i + 1;
    }
    proof {
        assert(s@.take(i as int) =~= s@);
    }
    Some(acc)
}

/// The decimal digit string of `n`, most significant digit first,
/// without leading zeros (`0` for zero).
pub open spec fn spec_dec_digits(n: nat) -> Seq<u8>
    decreases n,
{
    if n < 10 {
        seq![(48 + n) as u8]
    } else {
        spec_dec_digits(n / 10) + seq![(48 + n % 10) as u8]
    }
}

/// Lowercase hexadecimal digit for a value below 16.
pub open spec fn spec_hex_digit(d: nat) -> u8 {
    if d < 10 {
        (48 + d) as u8
    } else {
        (87 + d) as u8
    }
}

/// The last `k` hexadecimal digits of `v`, zero-padded, lowercase.
pub open spec fn spec_hex_digits(v: nat, k: nat) -> Seq<u8>
    decreases k,
{
    if k == 0 {
        Seq::empty()
    } else {
        spec_hex_digits(v / 16, (k - 1) as nat) + seq![spec_hex_digit(v % 16)]
    }
}

/// The eight-digit, zero-padded, lowercase hexadecimal form of a checksum.
pub open spec fn spec_hex8(v: u32) -> Seq<u8> {
    spec_hex_digits(v as nat, 8)
}

/// Sixteen to the `k`.
pub open spec fn pow16(k: nat) -> nat
    decreases k,
{
    if k == 0 {
        1
    } else {
        16 * pow16((k - 1) as nat)
    }
}

/// The decimal formatter emits digits whose value is `n`.
pub proof fn lemma_dec_digits_val(n: nat)
    ensures
        spec_dec_digits(n).len() >= 1,
        all_dec_digits(spec_dec_digits(n)),
        spec_dec_val(spec_dec_digits(n)) == n,
    decreases n,
{
    if n < 10 {
        assert(spec_dec_val(spec_dec_digits(n)) == spec_dec_val(
            spec_dec_digits(n).drop_last(),
        ) * 10 + (spec_dec_digits(n).last() - 48) as nat);
        assert(spec_dec_digits(n).drop_last() =~= Seq::<u8>::empty());
    } else {
        lemma_dec_digits_val(n / 10);
        let s = spec_dec_digits(n);
        assert(s.drop_last() =~= spec_dec_digits(n / 10));
        lemma_fundamental_div_mod(n as int, 10);
    }
}

/// Decimal parsing inverts decimal formatting.
pub proof fn lemma_parse_dec_digits(n: nat)
    requires
        n <= usize::MAX,
    ensures
        spec_parse_decimal(spec_dec_digits(n)) == Some(n as usize),
{
    lemma_dec_digits_val(n);
}

/// Powers of sixteen are positive.
pub proof fn lemma_pow16_pos(k: nat)
    ensures
        pow16(k) >= 1,
    decreases k,
{
    if k > 0 {
        lemma_pow16_pos((k - 1) as nat);
    }
}

/// The hexadecimal formatter emits `k` digits whose value is `v mod 16^k`.
pub proof fn lemma_hex_digits_val(v: nat, k: nat)
    ensures
        spec_hex_digits(v, k).len() == k,
        all_hex_digits(spec_hex_digits(v, k)),
        spec_hex_val(spec_hex_digits(v, k)) == v % pow16(k),
    decreases k,
{
    if k == 0 {
        assert(v % 1 == 0) by {
            lemma_fundamental_div_mod(v as int, 1);
        }
    } else {
        lemma_hex_digits_val(v / 16, (k - 1) as nat);
        let s = spec_hex_digits(v, k);
        assert(s.drop_last() =~= spec_hex_digits(v / 16, (k - 1) as nat));
        assert(spec_hex_digit_val(spec_hex_digit(v % 16)) == v % 16);
        assert(v % pow16(k) == 16 * ((v / 16) % pow16((k - 1) as nat)) + v % 16) by {
            lemma_pow16_pos((k - 1) as nat);
            lemma_mod_breakdown(v as int, 16, pow16((k - 1) as nat) as int);
        }
    }
}

/// Hexadecimal parsing inverts hexadecimal formatting on 32-bit values.
pub proof fn lemma_parse_hex8(v: u32)
    ensures
        spec_parse_hex32(spec_hex8(v)) == Some(v),
{
    lemma_hex_digits_val(v as nat, 8);
    assert(pow16(8) == 0x1_0000_0000) by {
        assert(pow16(0) == 1);
        assert(pow16(1) == 16);
        assert(pow16(2) == 256);
        assert(pow16(3) == 0x1000);
        assert(pow16(4) == 0x1_0000);
        assert(pow16(5) == 0x10_0000);
        assert(pow16(6) == 0x100_0000);
        assert(pow16(7) == 0x1000_0000);
    }
    assert(v as nat % 0x1_0000_0000 == v as nat) by {
        lemma_fundamental_div_mod(v as int, 0x1_0000_0000);
    }
}

/// Append the decimal digits of `n`.
pub fn push_decimal(out: &mut Vec<u8>, n: usize)
    ensures
        final(out)@ == old(out)@ + spec_dec_digits(n as nat),
    decreases n,
{
    if n < 10 {
        out.push(48 + n as u8);
        assert(final(out)@ =~= old(out)@ + spec_dec_digits(n as nat));
    } else {
        push_decimal(out, n / 10);
        out.push(48 + (n % 10) as u8);
        assert(final(out)@ =~= old(out)@ + spec_dec_digits(n as nat));
    }
}

/// Append the last `k` hexadecimal digits of `v`, zero-padded, lowercase.
pub fn push_hex_digits(out: &mut Vec<u8>, v: u32, k: usize)
    ensures
        final(out)@ == old(out)@ + spec_hex_digits(v as nat, k as nat),
    decreases k,
{
    if k > 0 {
        push_hex_digits(out, v / 16, k - 1);
        let d = (v % 16) as u8;
        if d < 10 {
            out.push(48 + d);
        } else {
            out.push(87 + d);
        }
        assert(final(out)@ =~= old(out)@ + spec_hex_digits(v as nat, k as nat));
    } else {
        assert(final(out)@ =~= old(out)@ + spec_hex_digits(v as nat, 0));
    }
}

/// Append the eight-digit hexadecimal form of a checksum.
pub fn push_hex8(out: &mut Vec<u8>, v: u32)
    ensures
        final(out)@ == old(out)@ + spec_hex8(v),
{
    push_hex_digits(out, v, 8);
}

} // verus!
