//! Schoolbook addition, subtraction and multiplication.
//!
//! The digit algorithms work on least-significant-first copies of the
//! magnitudes, exactly as taught by hand: add with a carry, subtract with a
//! borrow, and multiply one digit at a time.  The signed operations reduce
//! the mixed-sign cases to a magnitude comparison followed by a magnitude
//! subtraction, which is the sign-rewriting of the textbook rules
//! `-x + y = y - x` and `x - (-y) = x + y` carried out directly.

use vstd::prelude::*;
use core::cmp::Ordering;
use crate::bigint::{copy_digits, rev_digits, trimmed, BigInt};
use crate::cmp_ops::mag_cmp;
use crate::digits::{
    canonical, dec_val, digits_ok, lemma_canonical_len_order, lemma_lsb_is_rev, lemma_lsb_push,
    lemma_lsb_take_succ, lemma_lsb_upper, lsb_val, pow10,
};

verus! {

/// A shorter magnitude never denotes a larger value.
pub proof fn lemma_canonical_len_le(a: Seq<u8>, b: Seq<u8>)
    requires
        canonical(a),
        canonical(b),
        dec_val(a) <= dec_val(b),
    ensures
        a.len() <= b.len(),
{
    if a.len() > b.len() {
        lemma_canonical_len_order(b, a);
    }
}

/// Reversing a reversed sequence gives the sequence back; stated through
/// `lsb_val`: the least-significant-first reading of a reversed sequence is
/// the value of the original.
pub proof fn lemma_lsb_of_rev(s: Seq<u8>)
    ensures
        lsb_val(s.reverse()) == dec_val(s),
{
    lemma_lsb_is_rev(s.reverse());
    assert(s.reverse().reverse() =~= s);
}

/// A least-significant-first sequence padded with zero digits at its high
/// end, up to length `n`; the value is unchanged.
pub fn padded(v: &Vec<u8>, n: usize) -> (r: Vec<u8>)
    requires
        v@.len() <= n,
        digits_ok(v@),
    ensures
        r@.len() == n,
        digits_ok(r@),
        lsb_val(r@) == lsb_val(v@),
        forall|j: int| 0 <= j < v@.len() ==> r@[j] == v@[j],
        forall|j: int| v@.len() <= j < n ==> r@[j] == 0,
{
    let mut r = copy_digits(v);
    while r.len() < n
        invariant
            v@.len() <= r@.len() <= n,
            digits_ok(r@),
            lsb_val(r@) == lsb_val(v@),
            forall|j: int| 0 <= j < v@.len() ==> r@[j] == v@[j],
            forall|j: int| v@.len() <= j < r@.len() ==> r@[j] == 0,
        decreases n - r.len(),
    {
        proof {
            lemma_lsb_push(r@, 0);
        }
        r.push(0);
    }
    r
}

/// Adds two magnitudes digit by digit with a carry.
pub fn mag_add(a: &Vec<u8>, b: &Vec<u8>) -> (r: Vec<u8>)
    requires
        digits_ok(a@),
        digits_ok(b@),
    ensures
        canonical(r@),
        dec_val(r@) == dec_val(a@) + dec_val(b@),
{
    let ra = rev_digits(a);
    let rb = rev_digits(b);
    proof {
        lemma_lsb_of_rev(a@);
        lemma_lsb_of_rev(b@);
        assert(digits_ok(ra@));
        assert(digits_ok(rb@));
    }
    let n = if ra.len() >= rb.len() {
        ra.len()
    } else {
        rb.len()
    };
    let pa = padded(&ra, n);
    let pb = padded(&rb, n);
    let mut out: Vec<u8> = Vec::new();
    let mut carry: u8 = 0;
    let mut i: usize = 0;
    proof {
        assert(pa@.take(0) =~= Seq::<u8>::empty());
        assert(pb@.take(0) =~= Seq::<u8>::empty());
        assert(lsb_val(Seq::<u8>::empty()) == 0);
        assert(pow10(0) == 1);
    }
    while i < n
        invariant
            0 <= i <= n,
            pa@.len() == n,
            pb@.len() == n,
            digits_ok(pa@),
            digits_ok(pb@),
            digits_ok(out@),
            out@.len() == i,
            carry <= 1,
            lsb_val(out@) + (carry as nat) * pow10(i as nat)
                == lsb_val(pa@.take(i as int)) + lsb_val(pb@.take(i as int)),
        decreases n - i,
    {
        let s = pa[i] + pb[i] + carry;
        let d = s % 10;
        let c = s / 10;
        proof {
            lemma_lsb_push(out@, d);
            lemma_lsb_take_succ(pa@, i as int);
            lemma_lsb_take_succ(pb@, i as int);
            assert(s == 10 * c + d);
            assert(lsb_val(out@.push(d)) + (c as nat) * pow10((i + 1) as nat)
                == lsb_val(pa@.take(i + 1)) + lsb_val(pb@.take(i + 1))) by (nonlinear_arith)
                requires
                    lsb_val(out@.push(d)) == lsb_val(out@) + (d as nat) * pow10(i as nat),
                    lsb_val(pa@.take(i + 1)) == lsb_val(pa@.take(i as int)) + (pa@[i as int] as nat)
                        * pow10(i as nat),
                    lsb_val(pb@.take(i + 1)) == lsb_val(pb@.take(i as int)) + (pb@[i as int] as nat)
                        * pow10(i as nat),
                    pow10((i + 1) as nat) == 10 * pow10(i as nat),
                    lsb_val(out@) + (carry as nat) * pow10(i as nat) == lsb_val(pa@.take(i as int))
                        + lsb_val(pb@.take(i as int)),
                    (d as int) + 10 * (c as int) == (pa@[i as int] as int) + (pb@[i as int] as int)
                        + (carry as int),
            ;
        }
        out.push(d);
        carry = c;
        i = i + 1;
    }
    proof {
        assert(pa@.take(n as int) =~= pa@);
        assert(pb@.take(n as int) =~= pb@);
    }
    if carry > 0 {
        proof {
            lemma_lsb_push(out@, carry);
        }
        out.push(carry);
    }
    let msb = rev_digits(&out);
    proof {
        lemma_lsb_is_rev(out@);
        assert(digits_ok(msb@));
    }
    trimmed(&msb)
}

/// Subtracts a smaller magnitude from a larger one digit by digit with a
/// borrow.
pub fn mag_sub(a: &Vec<u8>, b: &Vec<u8>) -> (r: Vec<u8>)
    requires
        digits_ok(a@),
        digits_ok(b@),
        b@.len() <= a@.len(),
        dec_val(b@) <= dec_val(a@),
    ensures
        canonical(r@),
        dec_val(r@) == dec_val(a@) - dec_val(b@),
{
    let ra = rev_digits(a);
    let rb = rev_digits(b);
    proof {
        lemma_lsb_of_rev(a@);
        lemma_lsb_of_rev(b@);
        assert(digits_ok(ra@));
        assert(digits_ok(rb@));
    }
    let n = ra.len();
    let pb = padded(&rb, n);
    let mut out: Vec<u8> = Vec::new();
    let mut borrow: u8 = 0;
    let mut i: usize = 0;
    proof {
        assert(ra@.take(0) =~= Seq::<u8>::empty());
        assert(pb@.take(0) =~= Seq::<u8>::empty());
        assert(lsb_val(Seq::<u8>::empty()) == 0);
        assert(pow10(0) == 1);
    }
    while i < n
        invariant
            0 <= i <= n,
            ra@.len() == n,
            pb@.len() == n,
            digits_ok(ra@),
            digits_ok(pb@),
            digits_ok(out@),
            out@.len() == i,
            borrow <= 1,
            lsb_val(out@) as int == lsb_val(ra@.take(i as int)) - lsb_val(pb@.take(i as int))
                + (borrow as int) * pow10(i as nat),
        decreases n - i,
    {
        let d = ra[i];
        let e = pb[i];
        let (pushed, nb): (u8, u8) = if d >= e + borrow {
            (d - e - borrow, 0)
        } else {
            (d + 10 - e - borrow, 1)
        };
        proof {
            lemma_lsb_push(out@, pushed);
            lemma_lsb_take_succ(ra@, i as int);
            lemma_lsb_take_succ(pb@, i as int);
            assert(lsb_val(out@.push(pushed)) as int == lsb_val(ra@.take(i + 1)) - lsb_val(
                pb@.take(i + 1),
            ) + (nb as int) * pow10((i + 1) as nat)) by (nonlinear_arith)
                requires
                    lsb_val(out@.push(pushed)) == lsb_val(out@) + (pushed as nat) * pow10(i as nat),
                    lsb_val(ra@.take(i + 1)) == lsb_val(ra@.take(i as int)) + (d as nat) * pow10(
                        i as nat,
                    ),
                    lsb_val(pb@.take(i + 1)) == lsb_val(pb@.take(i as int)) + (e as nat) * pow10(
                        i as nat,
                    ),
                    pow10((i + 1) as nat) == 10 * pow10(i as nat),
                    lsb_val(out@) as int == lsb_val(ra@.take(i as int)) - lsb_val(pb@.take(
                        i as int,
                    )) + (borrow as int) * pow10(i as nat),
                    (borrow as int) + (pushed as int) == (d as int) - (e as int) + 10 * (nb as int),
            ;
        }
        out.push(pushed);
        borrow = nb;
        i = i + 1;
    }
    proof {
        assert(ra@.take(n as int) =~= ra@);
        assert(pb@.take(n as int) =~= pb@);
        lemma_lsb_upper(out@);
        // A borrow left over would force the result value to reach
        // `pow10(n)`, which the digit bound above rules out.
        assert(borrow == 0);
    }
    let msb = rev_digits(&out);
    proof {
        lemma_lsb_is_rev(out@);
        assert(digits_ok(msb@));
    }
    trimmed(&msb)
}

/// Multiplies a least-significant-first magnitude by a single digit.
pub fn mul_digit(rb: &Vec<u8>, d: u8) -> (r: Vec<u8>)
    requires
        digits_ok(rb@),
        d < 10,
    ensures
        digits_ok(r@),
        lsb_val(r@) == (d as nat) * lsb_val(rb@),
{
    let mut out: Vec<u8> = Vec::new();
    let mut carry: u8 = 0;
    let mut i: usize = 0;
    proof {
        assert(rb@.take(0) =~= Seq::<u8>::empty());
        assert(lsb_val(Seq::<u8>::empty()) == 0);
        assert(pow10(0) == 1);
        assert((d as nat) * 0 == 0) by (nonlinear_arith);
    }
    while i < rb.len()
        invariant
            0 <= i <= rb@.len(),
            digits_ok(rb@),
            d < 10,
            digits_ok(out@),
            out@.len() == i,
            carry <= 8,
            lsb_val(out@) + (carry as nat) * pow10(i as nat) == (d as nat) * lsb_val(
                rb@.take(i as int),
            ),
        decreases rb.len() - i,
    {
        proof {
            assert((d as int) * (rb@[i as int] as int) <= 81) by (nonlinear_arith)
                requires
                    d <= 9,
                    rb@[i as int] <= 9,
            ;
        }
        let s = d * rb[i] + carry;
        let dd = s % 10;
        let c = s / 10;
        proof {
            lemma_lsb_push(out@, dd);
            lemma_lsb_take_succ(rb@, i as int);
            assert(s == 10 * c + dd);
            assert(lsb_val(out@.push(dd)) + (c as nat) * pow10((i + 1) as nat) == (d as nat)
                * lsb_val(rb@.take(i + 1))) by (nonlinear_arith)
                requires
                    lsb_val(out@.push(dd)) == lsb_val(out@) + (dd as nat) * pow10(i as nat),
                    lsb_val(rb@.take(i + 1)) == lsb_val(rb@.take(i as int)) + (rb@[i as int] as nat)
                        * pow10(i as nat),
                    pow10((i + 1) as nat) == 10 * pow10(i as nat),
                    lsb_val(out@) + (carry as nat) * pow10(i as nat) == (d as nat) * lsb_val(
                        rb@.take(i as int),
                    ),
                    (dd as int) + 10 * (c as int) == (d as int) * (rb@[i as int] as int) + (
                    carry as int),
            ;
        }
        out.push(dd);
        carry = c;
        i = i + 1;
    }
    proof {
        assert(rb@.take(rb@.len() as int) =~= rb@);
    }
    if carry > 0 {
        proof {
            lemma_lsb_push(out@, carry);
        }
        out.push(carry);
    }
    out
}

/// Long multiplication, running over the left operand's digits from the most
/// significant end: multiply the accumulator by ten, multiply the right
/// operand by the next digit, and add.
pub fn mag_mul(a: &Vec<u8>, b: &Vec<u8>) -> (r: Vec<u8>)
    requires
        digits_ok(a@),
        digits_ok(b@),
    ensures
        canonical(r@),
        dec_val(r@) == dec_val(a@) * dec_val(b@),
{
    let rb = rev_digits(b);
    proof {
        lemma_lsb_of_rev(b@);
        assert(digits_ok(rb@));
    }
    let mut acc: Vec<u8> = Vec::new();
    let mut i: usize = 0;
    proof {
        assert(a@.take(0) =~= Seq::<u8>::empty());
        assert(dec_val(Seq::<u8>::empty()) == 0);
        assert(0 * dec_val(b@) == 0) by (nonlinear_arith);
    }
    while i < a.len()
        invariant
            0 <= i <= a@.len(),
            digits_ok(a@),
            digits_ok(b@),
            digits_ok(rb@),
            lsb_val(rb@) == dec_val(b@),
            digits_ok(acc@),
            dec_val(acc@) == dec_val(a@.take(i as int)) * dec_val(b@),
        decreases a.len() - i,
    {
        let ghost acc_old = acc@;
        proof {
            assert(acc@.push(0).drop_last() =~= acc@);
            assert(acc@.push(0).last() == 0);
        }
        acc.push(0);
        let pd = mul_digit(&rb, a[i]);
        let pdm = rev_digits(&pd);
        proof {
            lemma_lsb_is_rev(pd@);
            assert(digits_ok(pdm@));
        }
        let next = mag_add(&acc, &pdm);
        acc = next;
        proof {
            crate::digits::lemma_dec_val_take_succ(a@, i as int);
            assert(dec_val(acc@) == dec_val(a@.take(i + 1)) * dec_val(b@)) by (nonlinear_arith)
                requires
                    dec_val(acc@) == dec_val(acc_old) * 10 + (a@[i as int] as nat) * dec_val(b@),
                    dec_val(acc_old) == dec_val(a@.take(i as int)) * dec_val(b@),
                    dec_val(a@.take(i + 1)) == dec_val(a@.take(i as int)) * 10 + a@[i as int],
            ;
        }
        i = i + 1;
    }
    proof {
        assert(a@.take(a@.len() as int) =~= a@);
    }
    trimmed(&acc)
}

impl BigInt {
    /// The sum.  Equal signs add the magnitudes; differing signs subtract
    /// the smaller magnitude from the larger, and the operand with the
    /// larger magnitude gives the sum its sign.
    pub fn add(&self, rhs: &BigInt) -> (r: BigInt)
        requires
            self.wf(),
            rhs.wf(),
        ensures
            r.wf(),
            r.as_int() == self.as_int() + rhs.as_int(),
    {
        if self.positive == rhs.positive {
            let numbers = mag_add(&self.numbers, &rhs.numbers);
            BigInt { positive: self.positive, numbers }
        } else {
            match mag_cmp(&self.numbers, &rhs.numbers) {
                Ordering::Equal => BigInt::new(),
                Ordering::Greater => {
                    proof {
                        lemma_canonical_len_le(rhs.numbers@, self.numbers@);
                    }
                    let numbers = mag_sub(&self.numbers, &rhs.numbers);
                    BigInt { positive: self.positive, numbers }
                },
                Ordering::Less => {
                    proof {
                        lemma_canonical_len_le(self.numbers@, rhs.numbers@);
                    }
                    let numbers = mag_sub(&rhs.numbers, &self.numbers);
                    BigInt { positive: rhs.positive, numbers }
                },
            }
        }
    }

    /// The difference.  Differing signs add the magnitudes (`x - (-y) =
    /// x + y`, `-x - y = -(x + y)`); equal signs subtract the smaller
    /// magnitude from the larger and pick the sign accordingly.
    pub fn sub(&self, rhs: &BigInt) -> (r: BigInt)
        requires
            self.wf(),
            rhs.wf(),
        ensures
            r.wf(),
            r.as_int() == self.as_int() - rhs.as_int(),
    {
        if self.positive != rhs.positive {
            let numbers = mag_add(&self.numbers, &rhs.numbers);
            BigInt { positive: self.positive, numbers }
        } else {
            match mag_cmp(&self.numbers, &rhs.numbers) {
                Ordering::Equal => BigInt::new(),
                Ordering::Greater => {
                    proof {
                        lemma_canonical_len_le(rhs.numbers@, self.numbers@);
                    }
                    let numbers = mag_sub(&self.numbers, &rhs.numbers);
                    BigInt { positive: self.positive, numbers }
                },
                Ordering::Less => {
                    proof {
                        lemma_canonical_len_le(self.numbers@, rhs.numbers@);
                    }
                    let numbers = mag_sub(&rhs.numbers, &self.numbers);
                    BigInt { positive: !self.positive, numbers }
                },
            }
        }
    }

    /// The product: long multiplication of the magnitudes; the sign is
    /// positive exactly when the operand signs agree.
    pub fn mul(&self, rhs: &BigInt) -> (r: BigInt)
        requires
            self.wf(),
            rhs.wf(),
        ensures
            r.wf(),
            r.as_int() == self.as_int() * rhs.as_int(),
    {
        if self.is_zero() || rhs.is_zero() {
            proof {
                assert(self.as_int() * rhs.as_int() == 0) by (nonlinear_arith)
                    requires
                        self.as_int() == 0 || rhs.as_int() == 0,
                ;
            }
            BigInt::new()
        } else {
            let numbers = mag_mul(&self.numbers, &rhs.numbers);
            let positive = self.positive == rhs.positive;
            let r = BigInt { positive, numbers };
            proof {
                let a = self.mag() as int;
                let b = rhs.mag() as int;
                assert(a * b > 0) by (nonlinear_arith)
                    requires
                        a > 0,
                        b > 0,
                ;
                assert(self.as_int() * rhs.as_int() == if positive {
                    a * b
                } else {
                    -(a * b)
                }) by (nonlinear_arith)
                    requires
                        a > 0,
                        b > 0,
                        self.as_int() == if self.positive {
                            a
                        } else {
                            -a
                        },
                        rhs.as_int() == if rhs.positive {
                            b
                        } else {
                            -b
                        },
                        positive == (self.positive == rhs.positive),
                ;
            }
            r
        }
    }
}

} // verus!
