//! Decimal digit vectors and their arithmetic.
//!
//! A number taken from the wire is held as a sequence of base-10 digit
//! values (most significant first).  This module gives the sequence its
//! mathematical value, and provides the two verified operations the
//! fixed-point codec needs: doubling a fraction in place (to pull out
//! binary digits one at a time) and accumulating an integer part with
//! saturation.

use vstd::arithmetic::div_mod::lemma_fundamental_div_mod;
use vstd::prelude::*;

verus! {

/// 10 raised to `n`.
pub open spec fn pow10(n: nat) -> nat
    decreases n,
{
    if n == 0 {
        1
    } else {
        10 * pow10((n - 1) as nat)
    }
}

/// 2 raised to `n`.
pub open spec fn pow2(n: nat) -> nat
    decreases n,
{
    if n == 0 {
        1
    } else {
        2 * pow2((n - 1) as nat)
    }
}

/// Every element of `s` is a base-10 digit value.
pub open spec fn all_digits(s: Seq<u8>) -> bool {
    forall|i: int| 0 <= i < s.len() ==> s[i] < 10
}

/// The number denoted by the digit sequence `s`, most significant first.
pub open spec fn digits_val(s: Seq<u8>) -> nat
    decreases s.len(),
{
    if s.len() == 0 {
        0
    } else {
        digits_val(s.drop_last()) * 10 + s.last() as nat
    }
}

pub proof fn lemma_pow10_pos(n: nat)
    ensures
        pow10(n) >= 1,
    decreases n,
{
    if n > 0 {
        lemma_pow10_pos((n - 1) as nat);
    }
}

pub proof fn lemma_pow2_pos(n: nat)
    ensures
        pow2(n) >= 1,
    decreases n,
{
    if n > 0 {
        lemma_pow2_pos((n - 1) as nat);
    }
}

pub proof fn lemma_pow10_adds(a: nat, b: nat)
    ensures
        pow10(a + b) == pow10(a) * pow10(b),
    decreases a,
{
    if a == 0 {
        assert(pow10(0 + b) == 1 * pow10(b));
    } else {
        lemma_pow10_adds((a - 1) as nat, b);
        assert((a - 1) + b == (a + b - 1));
        assert(pow10(a + b) == 10 * pow10((a + b - 1) as nat));
        assert(10 * (pow10((a - 1) as nat) * pow10(b)) == (10 * pow10((a - 1) as nat)) * pow10(b))
            by (nonlinear_arith);
    }
}

/// Ten to a power dominates two to the same power.
pub proof fn lemma_pow10_ge_pow2(n: nat)
    ensures
        pow10(n) >= pow2(n),
    decreases n,
{
    if n > 0 {
        lemma_pow10_ge_pow2((n - 1) as nat);
    }
}

pub proof fn lemma_pow10_increases(a: nat, b: nat)
    requires
        a <= b,
    ensures
        pow10(a) <= pow10(b),
    decreases b,
{
    if a < b {
        lemma_pow10_increases(a, (b - 1) as nat);
        lemma_pow10_pos((b - 1) as nat);
    }
}

pub proof fn lemma_pow2_increases(a: nat, b: nat)
    requires
        a <= b,
    ensures
        pow2(a) <= pow2(b),
    decreases b,
{
    if a < b {
        lemma_pow2_increases(a, (b - 1) as nat);
        lemma_pow2_pos((b - 1) as nat);
    }
}

/// The power of two at the saturation bound.
pub proof fn lemma_pow2_31()
    ensures
        pow2(31) == 0x8000_0000,
{
    reveal_with_fuel(pow2, 32);
}

/// Concatenation shifts the left part by the length of the right part.
pub proof fn lemma_digits_val_concat(a: Seq<u8>, b: Seq<u8>)
    ensures
        digits_val(a + b) == digits_val(a) * pow10(b.len()) + digits_val(b),
    decreases b.len(),
{
    if b.len() == 0 {
        assert(a + b =~= a);
        assert(digits_val(a + b) == digits_val(a));
        assert(pow10(b.len()) == 1);
        assert(digits_val(b) == 0);
        assert(digits_val(a) * pow10(b.len()) == digits_val(a)) by (nonlinear_arith)
            requires pow10(b.len()) == 1;
    } else {
        lemma_digits_val_concat(a, b.drop_last());
        assert((a + b).drop_last() =~= a + b.drop_last());
        assert((a + b).last() == b.last());
        let ghost p = pow10((b.len() - 1) as nat);
        assert(digits_val(a + b) == digits_val(a + b.drop_last()) * 10 + b.last());
        assert(digits_val(a + b.drop_last()) == digits_val(a) * p + digits_val(b.drop_last()));
        assert(pow10(b.len()) == 10 * p);
        assert((digits_val(a) * p + digits_val(b.drop_last())) * 10
            == digits_val(a) * (10 * p) + digits_val(b.drop_last()) * 10) by (nonlinear_arith);
        assert(digits_val(b) == digits_val(b.drop_last()) * 10 + b.last());
        assert(digits_val(a + b)
            == digits_val(a) * (10 * p) + (digits_val(b.drop_last()) * 10 + b.last()));
        assert(digits_val(a) * (10 * p) == digits_val(a) * pow10(b.len()))
            by (nonlinear_arith)
            requires 10 * p == pow10(b.len());
    }
}

/// Peeling the leading digit off a non-empty sequence.
pub proof fn lemma_digits_val_head(s: Seq<u8>)
    requires
        s.len() > 0,
    ensures
        digits_val(s) == s[0] * pow10((s.len() - 1) as nat) + digits_val(s.skip(1)),
{
    assert(s =~= seq![s[0]] + s.skip(1));
    lemma_digits_val_concat(seq![s[0]], s.skip(1));
    assert(digits_val(seq![s[0]]) == digits_val(seq![s[0]].drop_last()) * 10 + s[0]);
    assert(seq![s[0]].drop_last() =~= Seq::<u8>::empty());
}

/// A digit sequence denotes less than ten to its length.
pub proof fn lemma_digits_val_bound(s: Seq<u8>)
    requires
        all_digits(s),
    ensures
        digits_val(s) < pow10(s.len()),
    decreases s.len(),
{
    if s.len() == 0 {
    } else {
        lemma_digits_val_bound(s.drop_last());
        assert(s.last() < 10);
        assert(digits_val(s.drop_last()) <= pow10((s.len() - 1) as nat) - 1);
        assert(digits_val(s.drop_last()) * 10 <= (pow10((s.len() - 1) as nat) - 1) * 10)
            by (nonlinear_arith)
            requires digits_val(s.drop_last()) <= pow10((s.len() - 1) as nat) - 1;
        assert(pow10(s.len()) == 10 * pow10((s.len() - 1) as nat));
    }
}

/// A digit sequence denotes zero exactly when every digit is zero.
pub proof fn lemma_digits_val_zero(s: Seq<u8>)
    ensures
        digits_val(s) == 0 <==> (forall|i: int| 0 <= i < s.len() ==> s[i] == 0),
    decreases s.len(),
{
    if s.len() > 0 {
        lemma_digits_val_zero(s.drop_last());
        if digits_val(s) == 0 {
            assert(digits_val(s.drop_last()) == 0);
            assert(forall|i: int| 0 <= i < s.len() - 1 ==> s[i] == s.drop_last()[i]);
        } else {
            if forall|i: int| 0 <= i < s.len() ==> s[i] == 0 {
                assert(forall|i: int|
                    0 <= i < s.len() - 1 ==> s.drop_last()[i] == s[i] && s[i] == 0);
                assert(digits_val(s.drop_last()) == 0);
                assert(s.last() == 0);
            }
        }
    }
}

/// A sequence of zero digits denotes zero.
pub proof fn lemma_digits_val_zeros(s: Seq<u8>)
    requires
        forall|i: int| 0 <= i < s.len() ==> s[i] == 0,
    ensures
        digits_val(s) == 0,
{
    lemma_digits_val_zero(s);
}

/// Doubles the fraction `0.f` in place and returns the digit carried out
/// of the ones place, so that `carry.f_new == 2 * 0.f_old`.
pub fn double_digits(f: &mut Vec<u8>) -> (carry: u8)
    requires
        all_digits(old(f)@),
    ensures
        final(f)@.len() == old(f)@.len(),
        all_digits(final(f)@),
        carry <= 1,
        2 * digits_val(old(f)@) == carry * pow10(final(f)@.len() as nat)
            + digits_val(final(f)@),
{
    let ghost orig = f@;
    let mut j: usize = f.len();
    let mut carry: u8 = 0;
    proof {
        assert(orig.skip(j as int) =~= Seq::<u8>::empty());
    }
    while j > 0
        invariant
            j <= f@.len(),
            f@.len() == orig.len(),
            all_digits(orig),
            all_digits(f@),
            carry <= 1,
            f@.take(j as int) =~= orig.take(j as int),
            2 * digits_val(orig.skip(j as int)) == carry * pow10((orig.len() - j) as nat)
                + digits_val(f@.skip(j as int)),
        decreases j,
    {
        j = j - 1;
        let ghost pre = f@;
        let ghost p = pow10((orig.len() - j - 1) as nat);
        let d: u8 = f[j];
        proof {
            assert(pre.take(j as int + 1)[j as int] == orig.take(j as int + 1)[j as int]);
            assert(d == orig[j as int]);
        }
        let t: u8 = 2 * d + carry;
        f.set(j, t % 10);
        let ghost oldcarry = carry;
        carry = t / 10;
        proof {
            // Decompose both sequences at position j.
            lemma_digits_val_head(orig.skip(j as int));
            assert(orig.skip(j as int).skip(1) =~= orig.skip(j as int + 1));
            assert(orig.skip(j as int)[0] == orig[j as int]);
            lemma_digits_val_head(f@.skip(j as int));
            assert(f@.skip(j as int).skip(1) =~= pre.skip(j as int + 1));
            assert(f@.skip(j as int)[0] == t % 10);
            // The carry relation for one digit position.
            assert(t == 10 * (t / 10) + t % 10) by {
                lemma_fundamental_div_mod(t as int, 10);
            }
            assert(2 * digits_val(orig.skip(j as int)) == 2 * (orig[j as int] * p)
                + 2 * digits_val(orig.skip(j as int + 1))) by (nonlinear_arith)
                requires
                    digits_val(orig.skip(j as int)) == orig[j as int] * p
                        + digits_val(orig.skip(j as int + 1)),
            ;
            assert(2 * digits_val(orig.skip(j as int + 1)) == oldcarry * p
                + digits_val(pre.skip(j as int + 1)));
            assert(pow10((orig.len() - j) as nat) == 10 * p);
            assert(2 * (orig[j as int] * p) + oldcarry * p + digits_val(pre.skip(j as int + 1))
                == (t / 10) * (10 * p) + (t % 10) * p + digits_val(pre.skip(j as int + 1)))
                by (nonlinear_arith)
                requires
                    t == 2 * orig[j as int] + oldcarry,
                    t == 10 * (t / 10) + t % 10,
            ;
            assert(digits_val(f@.skip(j as int)) == (t % 10) * p
                + digits_val(pre.skip(j as int + 1)));
            assert(f@.take(j as int) =~= orig.take(j as int));
        }
    }
    proof {
        assert(orig.skip(0) =~= orig);
        assert(f@.skip(0) =~= f@);
    }
    carry
}

/// Pulls the first `w` binary digits out of the fraction `0.f`,
/// most significant first, by repeated doubling: afterwards
/// `0.f_old · 2^w == b + 0.f_new`.
pub fn frac_bits(f: &mut Vec<u8>, w: u32) -> (b: u64)
    requires
        all_digits(old(f)@),
        w <= 31,
    ensures
        final(f)@.len() == old(f)@.len(),
        all_digits(final(f)@),
        b < pow2(w as nat),
        digits_val(old(f)@) * pow2(w as nat) == b * pow10(old(f)@.len() as nat)
            + digits_val(final(f)@),
{
    let ghost orig = f@;
    let mut b: u64 = 0;
    let mut k: u32 = 0;
    while k < w
        invariant
            k <= w,
            w <= 31,
            f@.len() == orig.len(),
            all_digits(f@),
            all_digits(orig),
            b < pow2(k as nat),
            digits_val(orig) * pow2(k as nat) == b * pow10(orig.len() as nat) + digits_val(f@),
        decreases w - k,
    {
        proof {
            lemma_pow2_increases(k as nat, 30);
            reveal_with_fuel(pow2, 32);
        }
        let ghost pre = f@;
        let ghost b0 = b;
        let c = double_digits(f);
        b = 2 * b + c as u64;
        proof {
            let pk = pow2(k as nat);
            let pl = pow10(orig.len() as nat);
            assert(pow2((k + 1) as nat) == 2 * pk);
            assert(digits_val(orig) * (2 * pk) == 2 * (digits_val(orig) * pk)) by (nonlinear_arith);
            assert(2 * (b0 * pl + digits_val(pre)) == (2 * b0) * pl + 2 * digits_val(pre))
                by (nonlinear_arith);
            assert(2 * digits_val(pre) == c * pl + digits_val(f@));
            assert((2 * b0) * pl + c * pl == (2 * b0 + c) * pl) by (nonlinear_arith);
            assert(b == 2 * b0 + c);
            assert(b < pow2((k + 1) as nat));
        }
        k = k + 1;
    }
    b
}

/// The value of the digit sequence, saturated at `2^31`.
pub fn clamped_val(d: &Vec<u8>) -> (a: u64)
    requires
        all_digits(d@),
    ensures
        a == if digits_val(d@) >= 0x8000_0000 {
            0x8000_0000u64 as nat
        } else {
            digits_val(d@)
        },
{
    let mut acc: u64 = 0;
    let mut i: usize = 0;
    proof {
        assert(d@.take(0) =~= Seq::<u8>::empty());
    }
    while i < d.len()
        invariant
            i <= d@.len(),
            all_digits(d@),
            acc <= 0x8000_0000,
            acc == if digits_val(d@.take(i as int)) >= 0x8000_0000 {
                0x8000_0000u64 as nat
            } else {
                digits_val(d@.take(i as int))
            },
        decreases d@.len() - i,
    {
        let dig: u8 = d[i];
        proof {
            assert(d@.take(i as int + 1).drop_last() =~= d@.take(i as int));
            assert(d@.take(i as int + 1).last() == d@[i as int]);
            assert(digits_val(d@.take(i as int + 1))
                == digits_val(d@.take(i as int)) * 10 + dig);
        }
        let next: u64 = acc * 10 + (dig as u64);
        if next >= 0x8000_0000 {
            proof {
                if digits_val(d@.take(i as int)) < 0x8000_0000 {
                    assert(digits_val(d@.take(i as int + 1)) == acc * 10 + dig);
                } else {
                    assert(digits_val(d@.take(i as int)) * 10 + dig >= 0x8000_0000)
                        by (nonlinear_arith)
                        requires digits_val(d@.take(i as int)) >= 0x8000_0000;
                }
            }
            acc = 0x8000_0000;
        } else {
            proof {
                assert(digits_val(d@.take(i as int)) < 0x8000_0000);
                assert(digits_val(d@.take(i as int + 1)) == acc * 10 + dig);
            }
            acc = next;
        }
        i = i + 1;
    }
    proof {
        assert(d@.take(d@.len() as int) =~= d@);
    }
    acc
}

/// Whether the digit sequence denotes zero.
pub fn digits_are_zero(d: &Vec<u8>) -> (r: bool)
    requires
        all_digits(d@),
    ensures
        r <==> digits_val(d@) == 0,
{
    let mut i: usize = 0;
    while i < d.len()
        invariant
            i <= d@.len(),
            forall|k: int| 0 <= k < i ==> d@[k] == 0,
        decreases d@.len() - i,
    {
        if d[i] != 0 {
            proof {
                lemma_digits_val_zero(d@);
            }
            return false;
        }
        i = i + 1;
    }
    proof {
        lemma_digits_val_zero(d@);
    }
    true
}

} // verus!
