//! Fixed-point codec.
//!
//! Two conversions make up the codec: a decimal token from the wire is
//! turned into a saturated signed 32-bit fixed-point integer
//! ([`to_fixed`]), and a signed 32-bit integer is turned into the
//! 32-element four-valued logic vector the simulator reads
//! ([`fofb_server_u32_to_std_vec`]).  The logic encoding uses the two
//! driven states only: `2` for a zero bit and `3` for a one bit, most
//! significant bit first.

use vstd::arithmetic::div_mod::lemma_basic_div;
use vstd::arithmetic::div_mod::lemma_div_pos_is_pos;
use vstd::arithmetic::div_mod::lemma_fundamental_div_mod;
use vstd::arithmetic::div_mod::lemma_fundamental_div_mod_converse;
use vstd::prelude::*;

use crate::digits::all_digits;
use crate::digits::clamped_val;
use crate::digits::digits_are_zero;
use crate::digits::digits_val;
use crate::digits::frac_bits;
use crate::digits::lemma_digits_val_bound;
use crate::digits::lemma_digits_val_concat;
use crate::digits::lemma_digits_val_zeros;
use crate::digits::lemma_pow10_adds;
use crate::digits::lemma_pow10_ge_pow2;
use crate::digits::lemma_pow10_increases;
use crate::digits::lemma_pow10_pos;
use crate::digits::lemma_pow2_31;
use crate::digits::lemma_pow2_increases;
use crate::digits::lemma_pow2_pos;
use crate::digits::pow10;
use crate::digits::pow2;

verus! {

/// Driven-zero logic state.
pub const LOGIC_0: u8 = 2;

/// Driven-one logic state.
pub const LOGIC_1: u8 = 3;

/// The logic state of bit `31 - i` of `num`: element `i` of the vector
/// carries the bit of weight `2^(31 - i)`.
pub open spec fn logic_bit(num: u32, i: int) -> u8 {
    if (num >> ((31 - i) as u32)) & 1u32 == 1u32 {
        LOGIC_1
    } else {
        LOGIC_0
    }
}

/// The whole logic vector of `num`, most significant bit first.
pub open spec fn logic_vector_of(num: u32) -> Seq<u8> {
    Seq::new(32, |i: int| logic_bit(num, i))
}

/// Write the two's-complement bit pattern of `num` into `std_vec` as
/// driven four-valued logic states, most significant bit at index 0.
pub fn fofb_server_u32_to_std_vec(num: u32, std_vec: &mut [u8; 32])
    ensures
        final(std_vec)@ == logic_vector_of(num),
{
    let mut i: usize = 0;
    while i < 32
        invariant
            i <= 32,
            forall|k: int| 0 <= k < i ==> std_vec@[k] == logic_bit(num, k),
        decreases 32 - i,
    {
        let sh: u32 = (31 - i) as u32;
        let bit: u32 = (num >> sh) & 1;
        if bit == 1 {
            std_vec[i] = LOGIC_1;
        } else {
            std_vec[i] = LOGIC_0;
        }
        i = i + 1;
    }
    proof {
        assert(std_vec@ =~= logic_vector_of(num));
    }
}

/// The unsigned integer read back from the first `n` elements of a
/// logic vector, most significant bit first.
pub open spec fn logic_vector_decode_unsigned(s: Seq<u8>, n: int) -> int
    decreases n,
{
    if n <= 0 {
        0
    } else {
        2 * logic_vector_decode_unsigned(s, n - 1) + (if s[n - 1] == LOGIC_1 {
            1int
        } else {
            0int
        })
    }
}

/// The signed integer a 32-element logic vector denotes: MSB-first
/// two's complement.
pub open spec fn logic_vector_decode(s: Seq<u8>) -> int {
    let u = logic_vector_decode_unsigned(s, 32);
    if u >= 0x8000_0000 {
        u - 0x1_0000_0000
    } else {
        u
    }
}

proof fn lemma_shift_step(u: u32, k: u32)
    requires
        k < 32,
    ensures
        (u >> k) as int == 2 * ((u >> (k + 1) as u32) as int) + ((u >> k) & 1) as int,
        (((u >> k) & 1) as int) < 2,
{
    let k2 = (k + 1) as u32;
    assert((u >> k) == 2 * (u >> k2) + ((u >> k) & 1) && ((u >> k) & 1) < 2) by (bit_vector)
        requires k < 32 && k2 == k + 1;
}

proof fn lemma_decode_prefix(u: u32, s: Seq<u8>, n: int)
    requires
        0 <= n <= 32,
        forall|i: int| 0 <= i < 32 ==> s[i] == logic_bit(u, i),
    ensures
        logic_vector_decode_unsigned(s, n) == (u >> ((32 - n) as u32)) as int,
    decreases n,
{
    if n == 0 {
        assert(u >> 32u32 == 0) by (bit_vector);
    } else {
        lemma_decode_prefix(u, s, n - 1);
        lemma_shift_step(u, (32 - n) as u32);
        assert(s[n - 1] == logic_bit(u, n - 1));
        assert((31 - (n - 1)) as u32 == (32 - n) as u32);
    }
}

/// Round trip: decoding the logic vector of a signed 32-bit value as
/// MSB-first two's complement gives back exactly that value.
pub proof fn lemma_logic_vector_round_trip(v: i32)
    ensures
        logic_vector_decode(logic_vector_of(v as u32)) == v,
{
    let u = v as u32;
    let s = logic_vector_of(u);
    lemma_decode_prefix(u, s, 32);
    assert(u >> 0u32 == u) by (bit_vector);
    assert(u as int == if v >= 0 {
        v as int
    } else {
        v + 0x1_0000_0000
    }) by (bit_vector)
        requires u == v as u32;
}

// ---------------------------------------------------------------------
// Token grammar.
//
// A value token is the usual decimal floating-point grammar: an optional
// sign, then either a special word (`inf`, `infinity`, `nan`, any case)
// or a mantissa (digits, with at most one point, at least one digit) and
// an optional exponent (`e`/`E`, optional sign, at least one digit).
// ---------------------------------------------------------------------

/// ASCII decimal digit.
pub open spec fn is_digit_byte(c: u8) -> bool {
    48 <= c && c <= 57
}

/// Value of an ASCII decimal digit.
pub open spec fn digit_of(c: u8) -> u8 {
    (c - 48) as u8
}

/// First position at or after `i` that does not hold a digit.
pub open spec fn digits_end(s: Seq<u8>, i: int) -> int
    decreases s.len() - i,
{
    if 0 <= i && i < s.len() && is_digit_byte(s[i]) {
        digits_end(s, i + 1)
    } else {
        i
    }
}

pub proof fn lemma_digits_end(s: Seq<u8>, i: int)
    requires
        0 <= i <= s.len(),
    ensures
        i <= digits_end(s, i) <= s.len(),
        forall|j: int| i <= j < digits_end(s, i) ==> is_digit_byte(s[j]),
    decreases s.len() - i,
{
    if i < s.len() && is_digit_byte(s[i]) {
        lemma_digits_end(s, i + 1);
    }
}

/// The digit values in `s[from .. to]`.
pub open spec fn digit_seq(s: Seq<u8>, from: int, to: int) -> Seq<u8> {
    s.subrange(from, to).map_values(|c: u8| digit_of(c))
}

/// ASCII lower-casing of one byte.
pub open spec fn lower_byte_spec(c: u8) -> u8 {
    if 65 <= c && c <= 90 {
        (c + 32) as u8
    } else {
        c
    }
}

/// Case-insensitive match of `s` against the lower-case pattern `pat`.
pub open spec fn matches_ci(s: Seq<u8>, pat: Seq<u8>) -> bool {
    s.len() == pat.len() && (forall|i: int| 0 <= i < s.len() ==> lower_byte_spec(s[i]) == pat[i])
}

pub open spec fn inf_pat() -> Seq<u8> {
    seq![105u8, 110u8, 102u8]
}

pub open spec fn infinity_pat() -> Seq<u8> {
    seq![105u8, 110u8, 102u8, 105u8, 110u8, 105u8, 116u8, 121u8]
}

pub open spec fn nan_pat() -> Seq<u8> {
    seq![110u8, 97u8, 110u8]
}

/// Length of the optional leading sign.
pub open spec fn sign_len(s: Seq<u8>) -> int {
    if s.len() > 0 && (s[0] == 43 || s[0] == 45) {
        1
    } else {
        0
    }
}

/// Whether the token carries a leading minus sign.
pub open spec fn is_negative_tok(s: Seq<u8>) -> bool {
    s.len() > 0 && s[0] == 45
}

/// What a token denotes: not-a-number, a signed infinity, or a finite
/// decimal `± digits · 10^(point − digits.len())` (`point` is the
/// position of the decimal point counted from the left of `digits`).
pub enum TokenForm {
    NotANumber,
    Infinite { neg: bool },
    Number { neg: bool, digits: Seq<u8>, point: int },
}

/// The exponent that starts at `epos` (just after `e`/`E`) and runs to
/// the end of the token, if well-formed.
pub open spec fn exp_value(s: Seq<u8>, epos: int) -> Option<int> {
    let has_sign = epos < s.len() && (s[epos] == 43 || s[epos] == 45);
    let eneg = epos < s.len() && s[epos] == 45;
    let e0 = if has_sign {
        epos + 1
    } else {
        epos
    };
    let e1 = digits_end(s, e0);
    if e1 == s.len() && e1 > e0 {
        let ev = digits_val(digit_seq(s, e0, e1)) as int;
        Some(
            if eneg {
                -ev
            } else {
                ev
            },
        )
    } else {
        None
    }
}

/// The finite-number grammar: mantissa digits around an optional point,
/// then an optional exponent.
pub open spec fn parse_number(s: Seq<u8>) -> Option<TokenForm> {
    let i0 = sign_len(s);
    let d1 = digits_end(s, i0);
    let dot = d1 < s.len() && s[d1] == 46;
    let d2 = if dot {
        digits_end(s, d1 + 1)
    } else {
        d1
    };
    let has_digits = d1 > i0 || (dot && d2 > d1 + 1);
    if !has_digits {
        None
    } else {
        let mant = if dot {
            digit_seq(s, i0, d1) + digit_seq(s, d1 + 1, d2)
        } else {
            digit_seq(s, i0, d1)
        };
        if d2 == s.len() {
            Some(TokenForm::Number { neg: is_negative_tok(s), digits: mant, point: d1 - i0 })
        } else if s[d2] == 101 || s[d2] == 69 {
            match exp_value(s, d2 + 1) {
                Some(e) => Some(
                    TokenForm::Number { neg: is_negative_tok(s), digits: mant, point: d1 - i0 + e },
                ),
                None => None,
            }
        } else {
            None
        }
    }
}

/// The full token grammar.
pub open spec fn parse_token(s: Seq<u8>) -> Option<TokenForm> {
    let body = s.skip(sign_len(s));
    if matches_ci(body, inf_pat()) || matches_ci(body, infinity_pat()) {
        Some(TokenForm::Infinite { neg: is_negative_tok(s) })
    } else if matches_ci(body, nan_pat()) {
        Some(TokenForm::NotANumber)
    } else {
        parse_number(s)
    }
}

// ---------------------------------------------------------------------
// The fixed-point value of a token.
// ---------------------------------------------------------------------

/// `⌊ digits · 10^(point − digits.len()) · 2^w ⌋` — the scaled magnitude
/// of a finite decimal, truncated to an integer.
pub open spec fn scaled_floor(d: Seq<u8>, point: int, w: nat) -> int {
    if point >= d.len() {
        (digits_val(d) * pow10((point - d.len()) as nat) * pow2(w)) as int
    } else {
        (digits_val(d) * pow2(w)) as int / (pow10((d.len() - point) as nat) as int)
    }
}

/// Saturation to the signed 32-bit range.
pub open spec fn clamp_i32(x: int) -> i32 {
    if x > i32::MAX {
        i32::MAX
    } else if x < i32::MIN {
        i32::MIN
    } else {
        x as i32
    }
}

/// The fixed-point encoding of a finite decimal: its magnitude scaled by
/// `2^w`, truncated toward zero, signed, then saturated.
pub open spec fn fixed_value(neg: bool, d: Seq<u8>, point: int, w: nat) -> i32 {
    clamp_i32(
        if neg {
            -scaled_floor(d, point, w)
        } else {
            scaled_floor(d, point, w)
        },
    )
}

/// What `to_fixed` returns for a token: nothing for a malformed token,
/// zero for `nan`, the saturation bound for an infinity, and the
/// truncated scaled value for a finite decimal.
pub open spec fn tok_fixed(s: Seq<u8>, w: nat) -> Option<i32> {
    match parse_token(s) {
        None => None,
        Some(TokenForm::NotANumber) => Some(0i32),
        Some(TokenForm::Infinite { neg }) => Some(
            if neg {
                i32::MIN
            } else {
                i32::MAX
            },
        ),
        Some(TokenForm::Number { neg, digits, point }) => Some(
            fixed_value(neg, digits, point, w),
        ),
    }
}

// ---------------------------------------------------------------------
// Facts about the scaled magnitude.
// ---------------------------------------------------------------------

/// A zero mantissa scales to zero wherever the point sits.
proof fn lemma_scaled_floor_of_zero(d: Seq<u8>, point: int, w: nat)
    requires
        digits_val(d) == 0,
    ensures
        scaled_floor(d, point, w) == 0,
{
    if point >= d.len() {
        assert(digits_val(d) * pow10((point - d.len()) as nat) == 0);
    } else {
        let den = pow10((d.len() - point) as nat) as int;
        lemma_pow10_pos((d.len() - point) as nat);
        assert(digits_val(d) * pow2(w) == 0);
        lemma_basic_div(0, den);
    }
}

/// A point at least 31 places right of the last digit drives any
/// non-zero mantissa past the 32-bit magnitude bound.
proof fn lemma_scaled_floor_sat(d: Seq<u8>, point: int, w: nat)
    requires
        all_digits(d),
        digits_val(d) >= 1,
        point >= d.len() + 31,
    ensures
        scaled_floor(d, point, w) >= 0x8000_0000,
{
    let e = (point - d.len()) as nat;
    lemma_pow10_increases(31, e);
    lemma_pow10_ge_pow2(31);
    lemma_pow2_31();
    lemma_pow2_pos(w);
    lemma_pow10_pos(e);
    assert(digits_val(d) * pow10(e) * pow2(w) >= pow10(e)) by (nonlinear_arith)
        requires
            digits_val(d) >= 1,
            pow2(w) >= 1,
            pow10(e) >= 1,
    ;
}

/// A point at least 31 places left of the first digit scales any
/// mantissa below one: the truncation is zero.
proof fn lemma_scaled_floor_small(d: Seq<u8>, point: int, w: nat)
    requires
        all_digits(d),
        point <= -31,
        w <= 31,
    ensures
        scaled_floor(d, point, w) == 0,
{
    let l = d.len() as nat;
    lemma_digits_val_bound(d);
    lemma_pow2_increases(w, 31);
    lemma_pow10_ge_pow2(31);
    lemma_pow10_pos(l);
    lemma_pow10_pos(31);
    assert(digits_val(d) * pow2(w) < pow10(l) * pow10(31)) by (nonlinear_arith)
        requires
            digits_val(d) < pow10(l),
            pow2(w) <= pow10(31),
            pow10(l) >= 1,
            pow10(31) >= 1,
    ;
    lemma_pow10_adds(l, 31);
    lemma_pow10_increases(l + 31, (d.len() - point) as nat);
    lemma_basic_div((digits_val(d) * pow2(w)) as int, pow10((d.len() - point) as nat) as int);
}

/// Splitting the scaled magnitude at the decimal point: the integer
/// digits contribute `A · 2^w`; the fraction digits contribute the
/// truncated `F · 2^w / 10^|F|`.
proof fn lemma_div_split(a: nat, f: nat, l: nat, w: nat)
    requires
        f < pow10(l),
    ensures
        ((a * pow10(l) + f) * pow2(w)) as int / (pow10(l) as int) == a * pow2(w) + ((f * pow2(
            w,
        )) as int / (pow10(l) as int)),
{
    let p = pow10(l) as int;
    lemma_pow10_pos(l);
    assert((a * p + f) * pow2(w) == (a * pow2(w)) * p + f * pow2(w)) by (nonlinear_arith);
    let q = (f * pow2(w)) as int / p;
    let r = (f * pow2(w)) as int % p;
    lemma_fundamental_div_mod((f * pow2(w)) as int, p);
    lemma_div_pos_is_pos((f * pow2(w)) as int, p);
    assert((a * pow2(w)) * p + f * pow2(w) == p * (a * pow2(w) + q) + r) by (nonlinear_arith)
        requires
            f * pow2(w) == p * q + r,
    ;
    lemma_fundamental_div_mod_converse(
        ((a * pow10(l) + f) * pow2(w)) as int,
        p,
        a * pow2(w) + q,
        r,
    );
}

// ---------------------------------------------------------------------
// Executable conversion.
// ---------------------------------------------------------------------

/// `2^w` as a machine word.
fn pow2_u64(w: u32) -> (r: u64)
    requires
        w <= 31,
    ensures
        r == pow2(w as nat),
        r <= 0x8000_0000,
{
    let mut r: u64 = 1;
    let mut k: u32 = 0;
    while k < w
        invariant
            k <= w,
            w <= 31,
            r == pow2(k as nat),
        decreases w - k,
    {
        proof {
            lemma_pow2_increases(k as nat, 30);
            reveal_with_fuel(pow2, 32);
        }
        r = r * 2;
        k = k + 1;
    }
    proof {
        lemma_pow2_increases(w as nat, 31);
        lemma_pow2_31();
    }
    r
}

/// Appends `src[from .. to]` to `out`.
pub(crate) fn copy_range(src: &Vec<u8>, from: usize, to: usize, out: &mut Vec<u8>)
    requires
        from <= to <= src@.len(),
    ensures
        final(out)@ == old(out)@ + src@.subrange(from as int, to as int),
{
    let mut k: usize = from;
    proof {
        assert(out@ =~= old(out)@ + src@.subrange(from as int, from as int));
    }
    while k < to
        invariant
            from <= k <= to <= src@.len(),
            out@ == old(out)@ + src@.subrange(from as int, k as int),
        decreases to - k,
    {
        let c: u8 = src[k];
        out.push(c);
        proof {
            assert(out@ =~= old(out)@ + src@.subrange(from as int, k as int + 1));
        }
        k = k + 1;
    }
}

/// Fixed-point encoding of the finite decimal
/// `± dig · 10^(point − dig.len())`, scaled by `2^w`, truncated toward
/// zero and saturated to the signed 32-bit range.
fn fixed_of_digits(dig: Vec<u8>, point: i128, neg: bool, w: u32) -> (r: i32)
    requires
        all_digits(dig@),
        w <= 31,
    ensures
        r == fixed_value(neg, dig@, point as int, w as nat),
{
    let len = dig.len();
    if digits_are_zero(&dig) {
        proof {
            lemma_scaled_floor_of_zero(dig@, point as int, w as nat);
        }
        return 0;
    }
    if point >= len as i128 + 31 {
        proof {
            lemma_scaled_floor_sat(dig@, point as int, w as nat);
        }
        return if neg {
            i32::MIN
        } else {
            i32::MAX
        };
    }
    if point <= -31 {
        proof {
            lemma_scaled_floor_small(dig@, point as int, w as nat);
        }
        return 0;
    }
    // The point is within reach: split the digits into an integer part
    // and a fraction part, padding with zeros where the point falls
    // outside the digits.
    let mut avec: Vec<u8> = Vec::new();
    let mut fvec: Vec<u8> = Vec::new();
    if point <= 0 {
        let zn = (0 - point) as usize;
        let mut z: usize = 0;
        while z < zn
            invariant
                z <= zn,
                fvec@.len() == z,
                forall|k: int| 0 <= k < z ==> fvec@[k] == 0,
            decreases zn - z,
        {
            fvec.push(0);
            z = z + 1;
        }
        let ghost zeros = fvec@;
        copy_range(&dig, 0, len, &mut fvec);
        proof {
            assert(dig@.subrange(0, len as int) =~= dig@);
            lemma_digits_val_zeros(zeros);
            lemma_digits_val_concat(zeros, dig@);
            assert(digits_val(fvec@) == digits_val(dig@));
            assert(avec@ =~= Seq::<u8>::empty());
        }
    } else if point < len as i128 {
        let p = point as usize;
        copy_range(&dig, 0, p, &mut avec);
        copy_range(&dig, p, len, &mut fvec);
        proof {
            assert(avec@ =~= dig@.subrange(0, p as int));
            assert(fvec@ =~= dig@.subrange(p as int, len as int));
            assert(dig@ =~= avec@ + fvec@);
            lemma_digits_val_concat(avec@, fvec@);
        }
    } else {
        let zn = (point - len as i128) as usize;
        copy_range(&dig, 0, len, &mut avec);
        proof {
            assert(avec@ =~= dig@);
        }
        let ghost base = avec@;
        let mut z: usize = 0;
        while z < zn
            invariant
                z <= zn,
                avec@.len() == base.len() + z,
                avec@.take(base.len() as int) == base,
                forall|k: int| base.len() <= k < avec@.len() ==> avec@[k] == 0,
            decreases zn - z,
        {
            avec.push(0);
            proof {
                assert(avec@.take(base.len() as int) =~= base);
            }
            z = z + 1;
        }
        proof {
            let zeros = avec@.skip(base.len() as int);
            assert(avec@ =~= base + zeros);
            lemma_digits_val_zeros(zeros);
            lemma_digits_val_concat(base, zeros);
            assert(digits_val(avec@) == digits_val(dig@) * pow10(zn as nat));
            assert(fvec@ =~= Seq::<u8>::empty());
        }
    }
    proof {
        assert(all_digits(avec@));
        assert(all_digits(fvec@));
    }
    // The scaled magnitude splits into the two parts.
    let ghost fl = fvec@.len() as nat;
    let ghost sf = scaled_floor(dig@, point as int, w as nat);
    proof {
        lemma_pow10_pos(fl);
        lemma_digits_val_bound(fvec@);
        if point <= 0 {
            assert(fl == len - point);
            assert(digits_val(avec@) == 0);
            assert(sf == digits_val(avec@) * pow2(w as nat) + (digits_val(fvec@) * pow2(
                w as nat,
            )) as int / (pow10(fl) as int));
        } else if point < len as i128 {
            assert(fl == len - point);
            lemma_div_split(digits_val(avec@), digits_val(fvec@), fl, w as nat);
            assert(sf == digits_val(avec@) * pow2(w as nat) + (digits_val(fvec@) * pow2(
                w as nat,
            )) as int / (pow10(fl) as int));
        } else {
            assert(fl == 0 && digits_val(fvec@) == 0);
            assert(digits_val(fvec@) * pow2(w as nat) == 0);
            lemma_basic_div(0, 1);
            assert(sf == digits_val(avec@) * pow2(w as nat) + (digits_val(fvec@) * pow2(
                w as nat,
            )) as int / (pow10(fl) as int));
        }
    }
    let a = clamped_val(&avec);
    if a == 0x8000_0000 {
        proof {
            lemma_pow2_pos(w as nat);
            assert(digits_val(avec@) * pow2(w as nat) >= digits_val(avec@)) by (nonlinear_arith)
                requires
                    pow2(w as nat) >= 1,
            ;
            lemma_div_pos_is_pos((digits_val(fvec@) * pow2(w as nat)) as int, pow10(fl) as int);
            assert(sf >= 0x8000_0000);
        }
        return if neg {
            i32::MIN
        } else {
            i32::MAX
        };
    }
    let ghost f0 = fvec@;
    let b = frac_bits(&mut fvec, w);
    proof {
        lemma_digits_val_bound(fvec@);
        lemma_fundamental_div_mod_converse(
            (digits_val(f0) * pow2(w as nat)) as int,
            pow10(fl) as int,
            b as int,
            digits_val(fvec@) as int,
        );
        assert((digits_val(f0) * pow2(w as nat)) as int / (pow10(fl) as int) == b);
    }
    let pw = pow2_u64(w);
    proof {
        assert(a * pw <= 0x7FFF_FFFFu64 * 0x8000_0000u64) by (nonlinear_arith)
            requires
                a <= 0x7FFF_FFFF,
                pw <= 0x8000_0000,
        ;
    }
    let m: u64 = a * pw + b;
    proof {
        assert(sf == m);
    }
    if neg {
        if m >= 0x8000_0000 {
            i32::MIN
        } else {
            0 - (m as i32)
        }
    } else {
        if m > 0x7FFF_FFFF {
            i32::MAX
        } else {
            m as i32
        }
    }
}

/// Exponents are saturated here: any exponent this large is far past
/// every saturation threshold, whatever the mantissa.
pub const EXP_CAP: i128 = 1_000_000_000_000_000_000_000_000_000_000;

/// Results at points this far out do not depend on the exact point:
/// on the high side any non-zero mantissa saturates, on the low side
/// everything truncates to zero.
proof fn lemma_fixed_value_far(neg: bool, d: Seq<u8>, p1: int, p2: int, w: nat)
    requires
        all_digits(d),
        w <= 31,
        (p1 >= d.len() + 31 && p2 >= d.len() + 31) || (p1 <= -31 && p2 <= -31),
    ensures
        fixed_value(neg, d, p1, w) == fixed_value(neg, d, p2, w),
{
    if digits_val(d) == 0 {
        lemma_scaled_floor_of_zero(d, p1, w);
        lemma_scaled_floor_of_zero(d, p2, w);
    } else if p1 >= d.len() + 31 {
        lemma_scaled_floor_sat(d, p1, w);
        lemma_scaled_floor_sat(d, p2, w);
    } else {
        lemma_scaled_floor_small(d, p1, w);
        lemma_scaled_floor_small(d, p2, w);
    }
}

/// ASCII lower-casing of one byte.
fn lower_ascii(c: u8) -> (r: u8)
    ensures
        r == lower_byte_spec(c),
{
    if 65 <= c && c <= 90 {
        c + 32
    } else {
        c
    }
}

fn make_inf_pat() -> (p: Vec<u8>)
    ensures
        p@ == inf_pat(),
{
    let mut p: Vec<u8> = Vec::new();
    p.push(105);
    p.push(110);
    p.push(102);
    proof {
        assert(p@ =~= inf_pat());
    }
    p
}

fn make_infinity_pat() -> (p: Vec<u8>)
    ensures
        p@ == infinity_pat(),
{
    let mut p: Vec<u8> = Vec::new();
    p.push(105);
    p.push(110);
    p.push(102);
    p.push(105);
    p.push(110);
    p.push(105);
    p.push(116);
    p.push(121);
    proof {
        assert(p@ =~= infinity_pat());
    }
    p
}

fn make_nan_pat() -> (p: Vec<u8>)
    ensures
        p@ == nan_pat(),
{
    let mut p: Vec<u8> = Vec::new();
    p.push(110);
    p.push(97);
    p.push(110);
    proof {
        assert(p@ =~= nan_pat());
    }
    p
}

/// Case-insensitive comparison of `t[from ..]` against a lower-case
/// pattern.
fn matches_ci_from(t: &Vec<u8>, from: usize, pat: &Vec<u8>) -> (r: bool)
    requires
        from <= t@.len(),
    ensures
        r == matches_ci(t@.skip(from as int), pat@),
{
    if t.len() - from != pat.len() {
        return false;
    }
    let mut i: usize = 0;
    let tlen = t.len();
    while i < pat.len()
        invariant
            from + pat@.len() == t@.len(),
            i <= pat@.len(),
            from <= t@.len(),
            tlen == t@.len(),
            forall|k: int| 0 <= k < i ==> lower_byte_spec(t@.skip(from as int)[k]) == pat@[k],
        decreases pat@.len() - i,
    {
        let c = lower_ascii(t[from + i]);
        proof {
            assert(t@.skip(from as int)[i as int] == t@[from + i]);
        }
        if c != pat[i] {
            return false;
        }
        i = i + 1;
    }
    true
}

/// First position at or after `from` in `t` that does not hold an ASCII
/// digit.
fn scan_digits(t: &Vec<u8>, from: usize) -> (j: usize)
    requires
        from <= t@.len(),
    ensures
        from <= j <= t@.len(),
        j == digits_end(t@, from as int),
{
    let mut j = from;
    while j < t.len() && 48 <= t[j] && t[j] <= 57
        invariant
            from <= j <= t@.len(),
            digits_end(t@, from as int) == digits_end(t@, j as int),
        decreases t@.len() - j,
    {
        j = j + 1;
    }
    j
}

/// Appends the digit values of `t[from .. to]` to `out`.
fn push_digit_range(t: &Vec<u8>, from: usize, to: usize, out: &mut Vec<u8>)
    requires
        from <= to <= t@.len(),
        forall|j: int| from <= j < to ==> is_digit_byte(t@[j]),
        all_digits(old(out)@),
    ensures
        final(out)@ == old(out)@ + digit_seq(t@, from as int, to as int),
        all_digits(final(out)@),
{
    let mut k: usize = from;
    proof {
        assert(out@ =~= old(out)@ + digit_seq(t@, from as int, from as int));
    }
    while k < to
        invariant
            from <= k <= to <= t@.len(),
            forall|j: int| from <= j < to ==> is_digit_byte(t@[j]),
            all_digits(old(out)@),
            all_digits(out@),
            out@ == old(out)@ + digit_seq(t@, from as int, k as int),
        decreases to - k,
    {
        let c: u8 = t[k];
        out.push(c - 48);
        proof {
            assert(out@ =~= old(out)@ + digit_seq(t@, from as int, k as int + 1));
        }
        k = k + 1;
    }
}

/// Value of the exponent digits, saturated at [`EXP_CAP`].
fn clamped_exp(d: &Vec<u8>) -> (e: i128)
    requires
        all_digits(d@),
    ensures
        0 <= e <= EXP_CAP,
        e == if digits_val(d@) >= EXP_CAP {
            EXP_CAP as int
        } else {
            digits_val(d@) as int
        },
{
    let mut acc: i128 = 0;
    let mut i: usize = 0;
    proof {
        assert(d@.take(0) =~= Seq::<u8>::empty());
    }
    while i < d.len()
        invariant
            i <= d@.len(),
            all_digits(d@),
            0 <= acc <= EXP_CAP,
            acc == if digits_val(d@.take(i as int)) >= EXP_CAP {
                EXP_CAP as int
            } else {
                digits_val(d@.take(i as int)) as int
            },
        decreases d@.len() - i,
    {
        let dg: u8 = d[i];
        proof {
            assert(d@.take(i as int + 1).drop_last() =~= d@.take(i as int));
            assert(d@.take(i as int + 1).last() == d@[i as int]);
            assert(digits_val(d@.take(i as int + 1)) == digits_val(d@.take(i as int)) * 10 + dg);
        }
        let next: i128 = acc * 10 + dg as i128;
        if next >= EXP_CAP {
            proof {
                if digits_val(d@.take(i as int)) >= EXP_CAP {
                    assert(digits_val(d@.take(i as int)) * 10 + dg >= EXP_CAP)
                        by (nonlinear_arith)
                        requires digits_val(d@.take(i as int)) >= EXP_CAP;
                }
            }
            acc = EXP_CAP;
        } else {
            acc = next;
        }
        i = i + 1;
    }
    proof {
        assert(d@.take(d@.len() as int) =~= d@);
    }
    acc
}

/// Converts one decimal token to a saturated signed 32-bit fixed-point
/// integer with `frac_width` fractional bits: the token's value is
/// scaled by `2^frac_width`, truncated toward zero, and clamped to the
/// 32-bit range.  Malformed tokens give `None`; `nan` gives zero and a
/// signed infinity gives the saturation bound, as a float conversion
/// would.
#[verifier::rlimit(100)]
pub fn to_fixed(tok: &Vec<u8>, frac_width: u32) -> (r: Option<i32>)
    requires
        frac_width <= 31,
    ensures
        r == tok_fixed(tok@, frac_width as nat),
{
    let n = tok.len();
    let has_sign = n > 0 && (tok[0] == 43 || tok[0] == 45);
    let i0: usize = if has_sign {
        1
    } else {
        0
    };
    let neg = n > 0 && tok[0] == 45;
    proof {
        assert(i0 as int == sign_len(tok@));
        assert(neg == is_negative_tok(tok@));
    }
    let infp = make_inf_pat();
    let infinityp = make_infinity_pat();
    let nanp = make_nan_pat();
    if matches_ci_from(tok, i0, &infp) || matches_ci_from(tok, i0, &infinityp) {
        return Some(
            if neg {
                i32::MIN
            } else {
                i32::MAX
            },
        );
    }
    if matches_ci_from(tok, i0, &nanp) {
        return Some(0);
    }
    let d1 = scan_digits(tok, i0);
    let dot = d1 < n && tok[d1] == 46;
    let d2 = if dot {
        scan_digits(tok, d1 + 1)
    } else {
        d1
    };
    let has_digits = d1 > i0 || (dot && d2 > d1 + 1);
    if !has_digits {
        return None;
    }
    let mut dig: Vec<u8> = Vec::new();
    proof {
        lemma_digits_end(tok@, i0 as int);
        if dot {
            lemma_digits_end(tok@, d1 as int + 1);
        }
    }
    push_digit_range(tok, i0, d1, &mut dig);
    if dot {
        push_digit_range(tok, d1 + 1, d2, &mut dig);
        proof {
            assert(dig@ =~= digit_seq(tok@, i0 as int, d1 as int) + digit_seq(
                tok@,
                d1 as int + 1,
                d2 as int,
            ));
        }
    } else {
        proof {
            assert(dig@ =~= digit_seq(tok@, i0 as int, d1 as int));
        }
    }
    if d2 == n {
        let point: i128 = d1 as i128 - i0 as i128;
        let r = fixed_of_digits(dig, point, neg, frac_width);
        return Some(r);
    }
    let ec = tok[d2];
    if !(ec == 101 || ec == 69) {
        return None;
    }
    let epos = d2 + 1;
    let ehas_sign = epos < n && (tok[epos] == 43 || tok[epos] == 45);
    let eneg = epos < n && tok[epos] == 45;
    let e0 = if ehas_sign {
        epos + 1
    } else {
        epos
    };
    let e1 = scan_digits(tok, e0);
    if !(e1 == n && e1 > e0) {
        return None;
    }
    let mut edig: Vec<u8> = Vec::new();
    proof {
        lemma_digits_end(tok@, e0 as int);
    }
    push_digit_range(tok, e0, e1, &mut edig);
    proof {
        assert(edig@ =~= digit_seq(tok@, e0 as int, e1 as int));
    }
    let eacc = clamped_exp(&edig);
    let esigned: i128 = if eneg {
        0 - eacc
    } else {
        eacc
    };
    let point: i128 = d1 as i128 - i0 as i128 + esigned;
    let ghost ev: int = digits_val(digit_seq(tok@, e0 as int, e1 as int)) as int;
    let ghost eexact: int = if eneg {
        -ev
    } else {
        ev
    };
    let ghost point_exact: int = d1 - i0 + eexact;
    let r = fixed_of_digits(dig, point, neg, frac_width);
    proof {
        if ev >= EXP_CAP {
            assert(dig@.len() <= tok@.len() < EXP_CAP - 0x1_0000_0000_0000_0000);
            lemma_fixed_value_far(
                neg,
                dig@,
                point as int,
                point_exact,
                frac_width as nat,
            );
        }
    }
    Some(r)
}

} // verus!
