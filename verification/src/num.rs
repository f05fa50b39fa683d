//! Rendering and parsing of decimal and hexadecimal numbers as ASCII bytes.

use vstd::prelude::*;

verus! {

/// The ASCII digit for a value below ten.
pub open spec fn spec_dec_digit(d: nat) -> u8
    recommends
        d < 10,
{
    (48 + d) as u8
}

/// The ASCII digit for a value below sixteen, upper case for ten and above.
pub open spec fn spec_hex_digit(d: nat) -> u8
    recommends
        d < 16,
{
    if d < 10 {
        (48 + d) as u8
    } else {
        (55 + d) as u8
    }
}

/// The decimal rendering of `n`, most significant digit first, no padding.
pub open spec fn spec_dec_bytes(n: nat) -> Seq<u8>
    decreases n,
{
    if n < 10 {
        seq![spec_dec_digit(n)]
    } else {
        spec_dec_bytes(n / 10) + seq![spec_dec_digit(n % 10)]
    }
}

/// The hexadecimal rendering of `n`, upper case, no padding and no prefix.
pub open spec fn spec_hex_bytes(n: nat) -> Seq<u8>
    decreases n,
{
    if n < 16 {
        seq![spec_hex_digit(n)]
    } else {
        spec_hex_bytes(n / 16) + seq![spec_hex_digit(n % 16)]
    }
}

/// Two hexadecimal digits for one byte, upper case, zero padded.
pub open spec fn spec_hex_byte2(b: u8) -> Seq<u8> {
    seq![spec_hex_digit(b as nat / 16), spec_hex_digit(b as nat % 16)]
}

/// Appends the decimal rendering of `n` to `out`.
pub fn push_dec_u64(out: &mut Vec<u8>, n: u64)
    ensures
        final(out)@ == old(out)@ + spec_dec_bytes(n as nat),
    decreases n,
{
    if n >= 10 {
        push_dec_u64(out, n / 10);
    }
    out.push((n % 10) as u8 + 48);
}

/// Appends the hexadecimal rendering of `n` to `out`.
pub fn push_hex_u32(out: &mut Vec<u8>, n: u32)
    ensures
        final(out)@ == old(out)@ + spec_hex_bytes(n as nat),
    decreases n,
{
    if n >= 16 {
        push_hex_u32(out, n / 16);
    }
    let d: u32 = n % 16;
    if d < 10 {
        out.push(d as u8 + 48);
    } else {
        out.push(d as u8 + 55);
    }
}

/// Appends exactly two hexadecimal digits for `b` to `out`.
pub fn push_hex_byte2(out: &mut Vec<u8>, b: u8)
    ensures
        final(out)@ == old(out)@ + spec_hex_byte2(b),
{
    let hi: u8 = b / 16;
    let lo: u8 = b % 16;
    if hi < 10 {
        out.push(hi + 48);
    } else {
        out.push(hi + 55);
    }
    if lo < 10 {
        out.push(lo + 48);
    } else {
        out.push(lo + 55);
    }
}

/// The decimal rendering of `n`, zero padded on the left to at least `w` digits.
pub open spec fn spec_dec_bytes_pad(n: nat, w: nat) -> Seq<u8> {
    let d = spec_dec_bytes(n);
    if d.len() < w {
        Seq::new((w - d.len()) as nat, |i: int| 48u8) + d
    } else {
        d
    }
}

/// How many digits the decimal rendering of `n` has.
pub proof fn lemma_dec_bytes_len(n: nat)
    ensures
        n < 10 ==> spec_dec_bytes(n).len() == 1,
        10 <= n < 100 ==> spec_dec_bytes(n).len() == 2,
        100 <= n < 1000 ==> spec_dec_bytes(n).len() == 3,
    decreases n,
{
    if n >= 10 {
        lemma_dec_bytes_len(n / 10);
        assert(spec_dec_bytes(n) == spec_dec_bytes(n / 10) + seq![spec_dec_digit(n % 10)]);
    }
}

/// Appends the decimal rendering of `n`, zero padded to at least two digits.
pub fn push_dec_pad2(out: &mut Vec<u8>, n: u64)
    ensures
        final(out)@ == old(out)@ + spec_dec_bytes_pad(n as nat, 2),
    decreases n,
{
    proof {
        lemma_dec_bytes_len(n as nat);
    }
    if n < 10 {
        out.push(48);
    }
    push_dec_u64(out, n);
    proof {
        if n >= 10 {
            lemma_dec_bytes_len_ge(n as nat);
        }
    }
}

/// Appends the decimal rendering of `n`, zero padded to at least three digits.
pub fn push_dec_pad3(out: &mut Vec<u8>, n: u64)
    ensures
        final(out)@ == old(out)@ + spec_dec_bytes_pad(n as nat, 3),
{
    proof {
        lemma_dec_bytes_len(n as nat);
    }
    if n < 10 {
        out.push(48);
        out.push(48);
    } else if n < 100 {
        out.push(48);
    }
    push_dec_u64(out, n);
    proof {
        if n >= 100 {
            lemma_dec_bytes_len_ge(n as nat);
        }
    }
}

/// The decimal rendering of a number of at least `10^k` has more than `k` digits.
pub proof fn lemma_dec_bytes_len_ge(n: nat)
    ensures
        n >= 10 ==> spec_dec_bytes(n).len() >= 2,
        n >= 100 ==> spec_dec_bytes(n).len() >= 3,
    decreases n,
{
    if n >= 10 {
        lemma_dec_bytes_len_ge(n / 10);
        assert(spec_dec_bytes(n) == spec_dec_bytes(n / 10) + seq![spec_dec_digit(n % 10)]);
        if n >= 100 {
            lemma_dec_bytes_len(n / 10);
        }
    }
}

/// Whether `b` is an ASCII decimal digit.
pub open spec fn spec_is_dec_digit(b: u8) -> bool {
    48 <= b <= 57
}

/// Whether every byte of `s` is an ASCII decimal digit.
pub open spec fn spec_all_dec_digits(s: Seq<u8>) -> bool {
    forall|i: int| 0 <= i < s.len() ==> spec_is_dec_digit(#[trigger] s[i])
}

/// The numeric value of a string of decimal digits.
pub open spec fn spec_dec_val(s: Seq<u8>) -> nat
    decreases s.len(),
{
    if s.len() == 0 {
        0
    } else {
        spec_dec_val(s.drop_last()) * 10 + (if s.last() >= 48 {
            (s.last() - 48) as nat
        } else {
            0
        })
    }
}

/// The digit string that Rust's unsigned `parse` accepts: an optional leading
/// `+`, then at least one decimal digit.
pub open spec fn spec_dec_body(s: Seq<u8>) -> Seq<u8> {
    if s.len() > 0 && s[0] == 43 {
        s.drop_first()
    } else {
        s
    }
}

/// Whether `s` is a well-formed unsigned decimal literal with value at most `max`.
pub open spec fn spec_parses_as_uint(s: Seq<u8>, max: nat) -> bool {
    let b = spec_dec_body(s);
    b.len() > 0 && spec_all_dec_digits(b) && spec_dec_val(b) <= max
}

/// The value of a digit prefix never shrinks as the prefix grows.
proof fn lemma_dec_val_prefix_monotone(s: Seq<u8>, i: int)
    requires
        0 <= i <= s.len(),
    ensures
        spec_dec_val(s) >= spec_dec_val(s.take(i)),
    decreases s.len() - i,
{
    if i < s.len() {
        lemma_dec_val_prefix_monotone(s, i + 1);
        assert(s.take(i + 1).drop_last() =~= s.take(i));
        assert(spec_dec_val(s.take(i + 1)) >= spec_dec_val(s.take(i)));
    } else {
        assert(s.take(i) =~= s);
    }
}

/// Parses `digits` (no sign) as an unsigned 64-bit decimal number.
/// Returns `Some` exactly when the string is non-empty, all digits, and fits.
pub fn parse_dec_digits_u64(digits: &[u8]) -> (r: Option<u64>)
    ensures
        match r {
            Some(v) => digits@.len() > 0 && spec_all_dec_digits(digits@) && v as nat
                == spec_dec_val(digits@) && spec_dec_val(digits@) <= u64::MAX,
            None => !(digits@.len() > 0 && spec_all_dec_digits(digits@) && spec_dec_val(digits@)
                <= u64::MAX),
        },
{
    if digits.len() == 0 {
        return None;
    }
    let mut acc: u64 = 0;
    let mut i: usize = 0;
    while i < digits.len()
        invariant
            0 <= i <= digits@.len(),
            acc as nat == spec_dec_val(digits@.take(i as int)),
            forall|j: int| 0 <= j < i ==> spec_is_dec_digit(#[trigger] digits@[j]),
        decreases digits@.len() - i,
    {
        let b = digits[i];
        if b < 48 || b > 57 {
            return None;
        }
        let d: u64 = (b - 48) as u64;
        proof {
            assert(digits@.take(i + 1).drop_last() =~= digits@.take(i as int));
        }
        if acc > (u64::MAX - d) / 10 {
            proof {
                lemma_dec_val_prefix_monotone(digits@, i + 1);
            }
            return None;
        }
        acc = acc * 10 + d;
        i += 1;
    }
    proof {
        assert(digits@.take(i as int) =~= digits@);
    }
    Some(acc)
}

/// Parses `s` as Rust's `str::parse::<u64>` does: an optional leading `+`,
/// then decimal digits; `Some` exactly when well-formed and in range.
pub fn parse_u64_dec(s: &[u8]) -> (r: Option<u64>)
    ensures
        match r {
            Some(v) => spec_parses_as_uint(s@, u64::MAX as nat) && v as nat == spec_dec_val(
                spec_dec_body(s@),
            ),
            None => !spec_parses_as_uint(s@, u64::MAX as nat),
        },
{
    if s.len() > 0 && s[0] == 43 {
        let rest = vstd::slice::slice_subrange(s, 1, s.len());
        proof {
            assert(rest@ =~= spec_dec_body(s@));
        }
        parse_dec_digits_u64(rest)
    } else {
        parse_dec_digits_u64(s)
    }
}

/// Whether `s` is a well-formed signed 32-bit decimal literal: an optional
/// sign, then digits, with the value in range.
pub open spec fn spec_parses_as_i32(s: Seq<u8>) -> bool {
    if s.len() > 0 && s[0] == 45 {
        let b = s.drop_first();
        b.len() > 0 && spec_all_dec_digits(b) && spec_dec_val(b) <= 0x8000_0000
    } else {
        spec_parses_as_uint(s, 0x7FFF_FFFF)
    }
}

/// The value of a well-formed signed 32-bit decimal literal.
pub open spec fn spec_i32_val(s: Seq<u8>) -> int {
    if s.len() > 0 && s[0] == 45 {
        -(spec_dec_val(s.drop_first()) as int)
    } else {
        spec_dec_val(spec_dec_body(s)) as int
    }
}

/// Parses `s` as Rust's `str::parse::<i32>` does: an optional sign, then
/// decimal digits; `Some` exactly when well-formed and in range.
pub fn parse_i32_dec(s: &[u8]) -> (r: Option<i32>)
    ensures
        match r {
            Some(v) => spec_parses_as_i32(s@) && v as int == spec_i32_val(s@),
            None => !spec_parses_as_i32(s@),
        },
{
    if s.len() > 0 && s[0] == 45 {
        let rest = vstd::slice::slice_subrange(s, 1, s.len());
        proof {
            assert(rest@ =~= s@.drop_first());
        }
        match parse_dec_digits_u64(rest) {
            Some(v) => {
                if v <= 0x8000_0000 {
                    if v == 0x8000_0000 {
                        Some(i32::MIN)
                    } else {
                        Some(-(v as i32))
                    }
                } else {
                    None
                }
            },
            None => None,
        }
    } else {
        match parse_u64_dec(s) {
            Some(v) => {
                if v <= 0x7FFF_FFFF {
                    Some(v as i32)
                } else {
                    None
                }
            },
            None => None,
        }
    }
}

/// Parses `s` as Rust's `str::parse::<u8>` does.
pub fn parse_u8_dec(s: &[u8]) -> (r: Option<u8>)
    ensures
        match r {
            Some(v) => spec_parses_as_uint(s@, u8::MAX as nat) && v as nat == spec_dec_val(
                spec_dec_body(s@),
            ),
            None => !spec_parses_as_uint(s@, u8::MAX as nat),
        },
{
    match parse_u64_dec(s) {
        Some(v) => {
            if v <= 255 {
                Some(v as u8)
            } else {
                None
            }
        },
        None => None,
    }
}

} // verus!
