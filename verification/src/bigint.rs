//! The big-integer value type, its invariant, and basic helpers.

use vstd::prelude::*;
use crate::digits::{
    canonical, dec_val, digits_ok, lemma_dec_val_lower, lemma_dec_val_zero_prefix,
    lemma_pow10_pos,
};

verus! {

/// The errors that the recoverable operations report: parsing rejects input
/// that matches neither textual grammar, and conversion to a native integer
/// fails when the magnitude does not fit the target type.
#[derive(Clone, Copy, Debug, PartialEq, Eq, Structural)]
pub enum BigIntError {
    NotANumber,
    ConversionOverflow,
}

/// An arbitrary-precision signed integer.
///
/// `numbers` holds the decimal digits of the absolute value, most significant
/// first.  A well-formed value is canonical: at least one digit, no leading
/// zero except for the single-digit zero, and zero is always positive.
#[derive(Debug)]
pub struct BigInt {
    pub positive: bool,
    pub numbers: Vec<u8>,
}

impl BigInt {
    /// The representation invariant: canonical digits and no negative zero.
    pub open spec fn wf(self) -> bool {
        &&& canonical(self.numbers@)
        &&& !self.positive ==> dec_val(self.numbers@) > 0
    }

    /// The absolute value this representation denotes.
    pub open spec fn mag(self) -> nat {
        dec_val(self.numbers@)
    }

    /// The signed mathematical value this representation denotes.
    pub open spec fn as_int(self) -> int {
        if self.positive {
            self.mag() as int
        } else {
            -(self.mag() as int)
        }
    }

    /// The canonical zero.
    pub fn new() -> (r: BigInt)
        ensures
            r.wf(),
            r.as_int() == 0,
            r.positive,
            r.numbers@ =~= seq![0u8],
    {
        let mut numbers: Vec<u8> = Vec::new();
        numbers.push(0);
        proof {
            assert(numbers@ =~= seq![0u8]);
            lemma_dec_val_single(0);
        }
        BigInt { positive: true, numbers }
    }

    /// An exact copy of the value.
    pub fn duplicate(&self) -> (r: BigInt)
        ensures
            r.positive == self.positive,
            r.numbers@ == self.numbers@,
            r.wf() == self.wf(),
            r.as_int() == self.as_int(),
    {
        BigInt { positive: self.positive, numbers: copy_digits(&self.numbers) }
    }

    /// Whether the magnitude is one.
    pub fn mag_is_one(&self) -> (r: bool)
        requires
            self.wf(),
        ensures
            r == (self.mag() == 1),
    {
        let r = self.numbers.len() == 1 && self.numbers[0] == 1;
        proof {
            lemma_canonical_one(self.numbers@);
        }
        r
    }

    /// Whether the value is zero.
    pub fn is_zero(&self) -> (r: bool)
        requires
            self.wf(),
        ensures
            r == (self.as_int() == 0),
    {
        let r = self.numbers.len() == 1 && self.numbers[0] == 0;
        proof {
            lemma_canonical_zero(self.numbers@);
        }
        r
    }

    /// The one place every constructor funnels through: strips leading zero
    /// digits, collapses an all-zero magnitude to `[0]`, and forces the sign
    /// positive when the magnitude is zero.
    pub fn from_sign_digits(positive: bool, numbers: Vec<u8>) -> (r: BigInt)
        requires
            digits_ok(numbers@),
        ensures
            r.wf(),
            r.as_int() == if positive {
                dec_val(numbers@) as int
            } else {
                -(dec_val(numbers@) as int)
            },
    {
        let mag = trimmed(&numbers);
        let zero = mag.len() == 1 && mag[0] == 0;
        proof {
            lemma_canonical_zero(mag@);
        }
        BigInt { positive: positive || zero, numbers: mag }
    }

    /// The same magnitude with the opposite sign; zero stays positive.
    pub fn neg(&self) -> (r: BigInt)
        requires
            self.wf(),
        ensures
            r.wf(),
            r.as_int() == -self.as_int(),
    {
        if self.is_zero() {
            self.duplicate()
        } else {
            BigInt { positive: !self.positive, numbers: copy_digits(&self.numbers) }
        }
    }
}

impl Default for BigInt {
    /// The default value is the canonical zero.
    fn default() -> (r: BigInt)
        ensures
            r.wf(),
            r.as_int() == 0,
            r.positive,
            r.numbers@ =~= seq![0u8],
    {
        BigInt::new()
    }
}

/// The value of a one-digit sequence is that digit.
pub proof fn lemma_dec_val_single(d: u8)
    ensures
        dec_val(seq![d]) == d,
{
    assert(seq![d].drop_last() =~= Seq::<u8>::empty());
    assert(dec_val(Seq::<u8>::empty()) == 0);
    assert(seq![d].last() == d);
}

/// A canonical sequence denotes zero exactly when it is the single digit `0`.
pub proof fn lemma_canonical_zero(s: Seq<u8>)
    requires
        canonical(s),
    ensures
        (dec_val(s) == 0) == (s.len() == 1 && s[0] == 0),
{
    if s.len() > 1 {
        lemma_dec_val_lower(s);
        lemma_pow10_pos((s.len() - 1) as nat);
    } else {
        lemma_dec_val_single(s[0]);
        assert(s =~= seq![s[0]]);
    }
}

/// A canonical sequence denotes one exactly when it is the single digit `1`.
pub proof fn lemma_canonical_one(s: Seq<u8>)
    requires
        canonical(s),
    ensures
        (dec_val(s) == 1) == (s.len() == 1 && s[0] == 1),
{
    if s.len() > 1 {
        lemma_dec_val_lower(s);
        crate::digits::lemma_pow10_increases(1, (s.len() - 1) as nat);
        assert(crate::digits::pow10(0) == 1);
        assert(crate::digits::pow10(1) == 10);
    } else {
        lemma_dec_val_single(s[0]);
        assert(s =~= seq![s[0]]);
    }
}

/// An element-for-element copy of a digit vector.
pub fn copy_digits(v: &Vec<u8>) -> (r: Vec<u8>)
    ensures
        r@ == v@,
{
    let mut r: Vec<u8> = Vec::new();
    let mut i: usize = 0;
    while i < v.len()
        invariant
            0 <= i <= v.len(),
            r@ =~= v@.take(i as int),
        decreases v.len() - i,
    {
        r.push(v[i]);
        i = i + 1;
        proof {
            assert(r@ =~= v@.take(i as int));
        }
    }
    proof {
        assert(r@ =~= v@);
    }
    r
}

/// The digits of `v` in the opposite order.
pub fn rev_digits(v: &Vec<u8>) -> (r: Vec<u8>)
    ensures
        r@ == v@.reverse(),
{
    let mut r: Vec<u8> = Vec::new();
    let mut i: usize = 0;
    while i < v.len()
        invariant
            0 <= i <= v.len(),
            r@.len() == i,
            forall|j: int| 0 <= j < i ==> r@[j] == v@[v@.len() - 1 - j],
        decreases v.len() - i,
    {
        r.push(v[v.len() - 1 - i]);
        i = i + 1;
    }
    proof {
        assert(r@ =~= v@.reverse());
    }
    r
}

/// Strips leading zeroes; an all-zero or empty input collapses to `[0]`.
pub fn trimmed(v: &Vec<u8>) -> (r: Vec<u8>)
    requires
        digits_ok(v@),
    ensures
        canonical(r@),
        dec_val(r@) == dec_val(v@),
{
    let mut k: usize = 0;
    while k < v.len() && v[k] == 0
        invariant
            0 <= k <= v.len(),
            forall|i: int| 0 <= i < k ==> v@[i] == 0,
        decreases v.len() - k,
    {
        k = k + 1;
    }
    proof {
        lemma_dec_val_zero_prefix(v@, k as int);
    }
    if k == v.len() {
        // All digits are zero (or there were none): the canonical zero.
        let mut r: Vec<u8> = Vec::new();
        r.push(0);
        proof {
            assert(r@ =~= seq![0u8]);
            lemma_dec_val_single(0);
            assert(v@.skip(k as int) =~= Seq::<u8>::empty());
        }
        r
    } else {
        let mut r: Vec<u8> = Vec::new();
        let mut i: usize = k;
        while i < v.len()
            invariant
                k <= i <= v.len(),
                r@ =~= v@.subrange(k as int, i as int),
            decreases v.len() - i,
        {
            r.push(v[i]);
            i = i + 1;
            proof {
                assert(r@ =~= v@.subrange(k as int, i as int));
            }
        }
        proof {
            assert(r@ =~= v@.skip(k as int));
            assert(r@[0] == v@[k as int]);
        }
        r
    }
}

} // verus!
