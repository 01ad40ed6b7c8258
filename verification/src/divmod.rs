//! Long division, the remainder, and integer exponentiation.
//!
//! Division is schoolbook trial subtraction: the dividend's digits are taken
//! most significant first, each one appended to a running remainder, and the
//! divisor's magnitude is subtracted from that remainder as often as it fits;
//! the count is the next quotient digit.  Quotient and remainder follow
//! truncating semantics: the quotient's sign is positive when the operand
//! signs agree, and the remainder keeps the dividend's sign.

use vstd::prelude::*;
use core::cmp::Ordering;
use vstd::arithmetic::div_mod::lemma_fundamental_div_mod_converse;
use vstd::arithmetic::power::{lemma0_pow, lemma1_pow, lemma_pow0, lemma_pow1, lemma_pow_adds, pow};
use crate::arith::{lemma_canonical_len_le, mag_sub};
use crate::bigint::{lemma_dec_val_single, trimmed, BigInt};
use crate::cmp_ops::mag_cmp;
use crate::digits::{canonical, dec_val, digits_ok};

verus! {

/// The absolute value.
pub open spec fn abs_int(x: int) -> nat {
    if x >= 0 {
        x as nat
    } else {
        (-x) as nat
    }
}

/// Truncating division: the magnitude quotient with the sign of the operand
/// signs' agreement.
pub open spec fn tdiv(x: int, y: int) -> int {
    if (x >= 0) == (y >= 0) {
        (abs_int(x) / abs_int(y)) as int
    } else {
        -((abs_int(x) / abs_int(y)) as int)
    }
}

/// The remainder of truncating division; its sign follows the dividend.
pub open spec fn tmod(x: int, y: int) -> int {
    x - tdiv(x, y) * y
}

/// Whether one canonical magnitude is at least another.
pub fn mag_ge(a: &Vec<u8>, b: &Vec<u8>) -> (r: bool)
    requires
        canonical(a@),
        canonical(b@),
    ensures
        r == (dec_val(a@) >= dec_val(b@)),
{
    matches!(mag_cmp(a, b), Ordering::Greater | Ordering::Equal)
}

/// Schoolbook long division of magnitudes: returns quotient and remainder.
pub fn mag_divmod(a: &Vec<u8>, b: &Vec<u8>) -> (qr: (Vec<u8>, Vec<u8>))
    requires
        canonical(a@),
        canonical(b@),
        dec_val(b@) >= 1,
    ensures
        canonical(qr.0@),
        canonical(qr.1@),
        dec_val(a@) == dec_val(qr.0@) * dec_val(b@) + dec_val(qr.1@),
        dec_val(qr.1@) < dec_val(b@),
{
    let ghost bv = dec_val(b@);
    let mut q: Vec<u8> = Vec::new();
    let mut left: Vec<u8> = Vec::new();
    left.push(0);
    proof {
        assert(left@ =~= seq![0u8]);
        lemma_dec_val_single(0);
        assert(a@.take(0) =~= Seq::<u8>::empty());
        assert(dec_val(Seq::<u8>::empty()) == 0);
        assert(dec_val(q@) * bv == 0) by (nonlinear_arith)
            requires
                dec_val(q@) == 0,
        ;
    }
    let mut i: usize = 0;
    while i < a.len()
        invariant
            0 <= i <= a@.len(),
            canonical(a@),
            canonical(b@),
            dec_val(b@) == bv,
            bv >= 1,
            digits_ok(q@),
            canonical(left@),
            dec_val(a@.take(i as int)) == dec_val(q@) * bv + dec_val(left@),
            dec_val(left@) < bv,
        decreases a.len() - i,
    {
        let ghost l_old = dec_val(left@);
        proof {
            assert(left@.push(a@[i as int]).drop_last() =~= left@);
            assert(left@.push(a@[i as int]).last() == a@[i as int]);
        }
        left.push(a[i]);
        let pushed = trimmed(&left);
        left = pushed;
        let ghost l0 = dec_val(left@);
        proof {
            assert(l0 == l_old * 10 + a@[i as int]);
            assert(l0 < 10 * bv) by (nonlinear_arith)
                requires
                    l0 == l_old * 10 + a@[i as int],
                    l_old < bv,
                    a@[i as int] < 10,
            ;
        }
        let mut digit: u8 = 0;
        while mag_ge(&left, b)
            invariant
                canonical(left@),
                canonical(b@),
                dec_val(b@) == bv,
                bv >= 1,
                l0 < 10 * bv,
                digit <= 9,
                l0 == (digit as nat) * bv + dec_val(left@),
            decreases dec_val(left@),
        {
            proof {
                lemma_canonical_len_le(b@, left@);
                assert((digit as nat) * bv + bv == ((digit + 1) as nat) * bv) by (nonlinear_arith);
                assert(digit < 9) by (nonlinear_arith)
                    requires
                        l0 == (digit as nat) * bv + dec_val(left@),
                        dec_val(left@) >= bv,
                        l0 < 10 * bv,
                        bv >= 1,
                        digit <= 9,
                ;
            }
            let next = mag_sub(&left, b);
            left = next;
            digit = digit + 1;
        }
        proof {
            assert(q@.push(digit).drop_last() =~= q@);
            assert(q@.push(digit).last() == digit);
            crate::digits::lemma_dec_val_take_succ(a@, i as int);
            assert(dec_val(a@.take(i + 1)) == dec_val(q@.push(digit)) * bv + dec_val(left@))
                by (nonlinear_arith)
                requires
                    dec_val(a@.take(i + 1)) == dec_val(a@.take(i as int)) * 10 + a@[i as int],
                    dec_val(a@.take(i as int)) == dec_val(q@) * bv + l_old,
                    l0 == l_old * 10 + a@[i as int],
                    l0 == (digit as nat) * bv + dec_val(left@),
                    dec_val(q@.push(digit)) == dec_val(q@) * 10 + digit,
            ;
        }
        q.push(digit);
        i = i + 1;
    }
    proof {
        assert(a@.take(a@.len() as int) =~= a@);
    }
    let qt = trimmed(&q);
    (qt, left)
}

impl BigInt {
    /// The quotient of truncating division.  The divisor must not be zero:
    /// division by zero is a fatal error, never a value.
    pub fn div(&self, rhs: &BigInt) -> (r: BigInt)
        requires
            self.wf(),
            rhs.wf(),
            rhs.as_int() != 0,
        ensures
            r.wf(),
            r.as_int() == tdiv(self.as_int(), rhs.as_int()),
    {
        let (q, rem) = mag_divmod(&self.numbers, &rhs.numbers);
        let positive = self.positive == rhs.positive;
        proof {
            lemma_fundamental_div_mod_converse(
                self.mag() as int,
                rhs.mag() as int,
                dec_val(q@) as int,
                dec_val(rem@) as int,
            );
            assert(abs_int(self.as_int()) == self.mag());
            assert(abs_int(rhs.as_int()) == rhs.mag());
        }
        BigInt::from_sign_digits(positive, q)
    }

    /// The remainder `x - (x / y) * y`; its sign follows the dividend.
    pub fn rem(&self, rhs: &BigInt) -> (r: BigInt)
        requires
            self.wf(),
            rhs.wf(),
            rhs.as_int() != 0,
        ensures
            r.wf(),
            r.as_int() == tmod(self.as_int(), rhs.as_int()),
    {
        let q = self.div(rhs);
        let prod = q.mul(rhs);
        self.sub(&prod)
    }

    /// Integer exponentiation by repeated multiplication.  `x^0` is one for
    /// every `x` (a deliberate convention, `0^0` included); a negative
    /// exponent gives one when the base's magnitude is one and zero
    /// otherwise — integer-power semantics, not rational ones.
    pub fn pow(&self, rhs: &BigInt) -> (r: BigInt)
        requires
            self.wf(),
            rhs.wf(),
        ensures
            r.wf(),
            rhs.as_int() >= 0 ==> r.as_int() == pow(self.as_int(), rhs.as_int() as nat),
            rhs.as_int() < 0 ==> r.as_int() == if self.mag() == 1 {
                1int
            } else {
                0int
            },
    {
        let one = one_value();
        if rhs.is_zero() {
            proof {
                lemma_pow0(self.as_int());
            }
            return one;
        }
        if !rhs.positive {
            if self.mag_is_one() {
                return one;
            }
            return BigInt::new();
        }
        if self.is_zero() {
            proof {
                lemma0_pow(rhs.as_int() as nat);
            }
            return BigInt::new();
        }
        if self.positive && self.mag_is_one() {
            proof {
                lemma1_pow(rhs.as_int() as nat);
            }
            return one;
        }
        let ghost e = rhs.as_int();
        let mut result = one_value();
        let mut k = rhs.duplicate();
        proof {
            lemma_pow0(self.as_int());
        }
        while !k.is_zero()
            invariant
                self.wf(),
                result.wf(),
                k.wf(),
                0 <= k.as_int() <= e,
                result.as_int() == pow(self.as_int(), (e - k.as_int()) as nat),
            decreases k.as_int(),
        {
            let next = result.mul(self);
            result = next;
            let one_step = one_value();
            let lowered = k.sub(&one_step);
            k = lowered;
            proof {
                let n = (e - k.as_int() - 1) as nat;
                lemma_pow_adds(self.as_int(), n, 1);
                lemma_pow1(self.as_int());
            }
        }
        result
    }
}

/// The canonical one.
pub fn one_value() -> (r: BigInt)
    ensures
        r.wf(),
        r.as_int() == 1,
{
    let mut numbers: Vec<u8> = Vec::new();
    numbers.push(1);
    proof {
        assert(numbers@ =~= seq![1u8]);
        lemma_dec_val_single(1);
    }
    BigInt { positive: true, numbers }
}

} // verus!
