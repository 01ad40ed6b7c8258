//! Equality and the total order.
//!
//! The order is computed without materialising a subtraction: equal sign and
//! digits mean equal values; otherwise the positive operand is greater; with
//! equal signs a longer magnitude is greater for positive values and smaller
//! for negative ones; and with equal lengths the first differing digit
//! decides, inverted for negative values.  `lemma_cmp_agrees_with_value`
//! shows that on well-formed values this order is exactly the numeric order.

use vstd::prelude::*;
use core::cmp::Ordering;
use crate::bigint::BigInt;
use crate::digits::{
    canonical, dec_val, digits_ok, lemma_canonical_len_order, lemma_dec_val_lex,
    lemma_dec_val_split, lemma_pow10_pos, pow10,
};

verus! {

/// Digit-by-digit comparison of two equally long sequences, most significant
/// digit first.
pub open spec fn lex_cmp(s: Seq<u8>, t: Seq<u8>) -> Ordering
    decreases s.len(),
{
    if s.len() == 0 {
        Ordering::Equal
    } else if s.first() < t.first() {
        Ordering::Less
    } else if s.first() > t.first() {
        Ordering::Greater
    } else {
        lex_cmp(s.drop_first(), t.drop_first())
    }
}

/// The comparison rule on raw representations: structural equality first,
/// then sign, then magnitude length, then the first differing digit, with
/// the digit comparison inverted for negative values.
pub open spec fn spec_cmp(a: BigInt, b: BigInt) -> Ordering {
    if a.positive == b.positive && a.numbers@ == b.numbers@ {
        Ordering::Equal
    } else if a.positive != b.positive {
        if a.positive {
            Ordering::Greater
        } else {
            Ordering::Less
        }
    } else if a.numbers@.len() != b.numbers@.len() {
        if a.positive == (a.numbers@.len() > b.numbers@.len()) {
            Ordering::Greater
        } else {
            Ordering::Less
        }
    } else {
        let l = lex_cmp(a.numbers@, b.numbers@);
        if l == Ordering::Equal {
            Ordering::Equal
        } else if a.positive {
            l
        } else if l == Ordering::Less {
            Ordering::Greater
        } else {
            Ordering::Less
        }
    }
}

/// Digit-by-digit order agrees with the numeric value of the sequences.
pub proof fn lemma_lex_cmp_val(s: Seq<u8>, t: Seq<u8>)
    requires
        digits_ok(s),
        digits_ok(t),
        s.len() == t.len(),
    ensures
        (lex_cmp(s, t) == Ordering::Equal) == (s == t),
        (lex_cmp(s, t) == Ordering::Less) == (dec_val(s) < dec_val(t)),
        (lex_cmp(s, t) == Ordering::Greater) == (dec_val(s) > dec_val(t)),
    decreases s.len(),
{
    if s.len() == 0 {
        assert(s =~= t);
    } else if s.first() < t.first() {
        assert(s.take(0) =~= t.take(0));
        lemma_dec_val_lex(s, t, 0);
    } else if s.first() > t.first() {
        assert(t.take(0) =~= s.take(0));
        lemma_dec_val_lex(t, s, 0);
    } else {
        assert(digits_ok(s.drop_first()));
        assert(digits_ok(t.drop_first()));
        lemma_lex_cmp_val(s.drop_first(), t.drop_first());
        lemma_dec_val_split(s, 1);
        lemma_dec_val_split(t, 1);
        assert(s.skip(1) =~= s.drop_first());
        assert(t.skip(1) =~= t.drop_first());
        assert(s.take(1) =~= seq![s.first()]);
        assert(t.take(1) =~= seq![t.first()]);
        crate::bigint::lemma_dec_val_single(s.first());
        crate::bigint::lemma_dec_val_single(t.first());
        lemma_pow10_pos((s.len() - 1) as nat);
        if s.drop_first() == t.drop_first() {
            assert forall|i: int| 0 <= i < s.len() implies s[i] == t[i] by {
                if i > 0 {
                    assert(s.drop_first()[i - 1] == t.drop_first()[i - 1]);
                }
            }
            assert(s =~= t);
        }
        if s == t {
            assert(s.drop_first() =~= t.drop_first());
        }
    }
}

/// On well-formed values the comparison rule is the numeric order.
pub proof fn lemma_cmp_agrees_with_value(a: BigInt, b: BigInt)
    requires
        a.wf(),
        b.wf(),
    ensures
        (spec_cmp(a, b) == Ordering::Equal) == (a.as_int() == b.as_int()),
        (spec_cmp(a, b) == Ordering::Less) == (a.as_int() < b.as_int()),
        (spec_cmp(a, b) == Ordering::Greater) == (a.as_int() > b.as_int()),
{
    if a.positive == b.positive && a.numbers@ == b.numbers@ {
    } else if a.positive != b.positive {
        crate::bigint::lemma_canonical_zero(a.numbers@);
        crate::bigint::lemma_canonical_zero(b.numbers@);
        if a.positive {
            // b is negative, so b's magnitude is positive and b < 0 <= a.
        }
    } else if a.numbers@.len() != b.numbers@.len() {
        if a.numbers@.len() > b.numbers@.len() {
            lemma_canonical_len_order(b.numbers@, a.numbers@);
        } else {
            lemma_canonical_len_order(a.numbers@, b.numbers@);
        }
    } else {
        lemma_lex_cmp_val(a.numbers@, b.numbers@);
    }
}

/// Whether two digit vectors hold the same digits.
pub fn eq_digits(a: &Vec<u8>, b: &Vec<u8>) -> (r: bool)
    ensures
        r == (a@ == b@),
{
    if a.len() != b.len() {
        return false;
    }
    let mut i: usize = 0;
    while i < a.len()
        invariant
            0 <= i <= a.len(),
            a@.len() == b@.len(),
            forall|j: int| 0 <= j < i ==> a@[j] == b@[j],
        decreases a.len() - i,
    {
        if a[i] != b[i] {
            return false;
        }
        i = i + 1;
    }
    proof {
        assert(a@ =~= b@);
    }
    true
}

/// Digit-by-digit comparison of two equally long digit vectors.
pub fn lex_digits(a: &Vec<u8>, b: &Vec<u8>) -> (r: Ordering)
    requires
        a@.len() == b@.len(),
    ensures
        r == lex_cmp(a@, b@),
{
    let mut i: usize = 0;
    proof {
        assert(a@.skip(0) =~= a@);
        assert(b@.skip(0) =~= b@);
    }
    while i < a.len()
        invariant
            0 <= i <= a.len(),
            a@.len() == b@.len(),
            lex_cmp(a@, b@) == lex_cmp(a@.skip(i as int), b@.skip(i as int)),
        decreases a.len() - i,
    {
        proof {
            assert(a@.skip(i as int).first() == a@[i as int]);
            assert(b@.skip(i as int).first() == b@[i as int]);
            assert(a@.skip(i as int).drop_first() =~= a@.skip(i as int + 1));
            assert(b@.skip(i as int).drop_first() =~= b@.skip(i as int + 1));
        }
        if a[i] < b[i] {
            return Ordering::Less;
        }
        if a[i] > b[i] {
            return Ordering::Greater;
        }
        i = i + 1;
    }
    proof {
        assert(a@.skip(i as int) =~= Seq::<u8>::empty());
        assert(b@.skip(i as int).len() == 0);
    }
    Ordering::Equal
}

/// Compares two canonical magnitudes by value.
pub fn mag_cmp(a: &Vec<u8>, b: &Vec<u8>) -> (r: Ordering)
    requires
        canonical(a@),
        canonical(b@),
    ensures
        (r == Ordering::Equal) == (dec_val(a@) == dec_val(b@)),
        (r == Ordering::Less) == (dec_val(a@) < dec_val(b@)),
        (r == Ordering::Greater) == (dec_val(a@) > dec_val(b@)),
{
    if a.len() < b.len() {
        proof {
            lemma_canonical_len_order(a@, b@);
        }
        Ordering::Less
    } else if a.len() > b.len() {
        proof {
            lemma_canonical_len_order(b@, a@);
        }
        Ordering::Greater
    } else {
        proof {
            lemma_lex_cmp_val(a@, b@);
        }
        lex_digits(a, b)
    }
}

impl PartialEq for BigInt {
    /// Structural equality: on well-formed values this is value equality,
    /// because the canonical representation of a value is unique.
    fn eq(&self, other: &BigInt) -> (r: bool) {
        self.positive == other.positive && eq_digits(&self.numbers, &other.numbers)
    }
}

impl vstd::std_specs::cmp::PartialEqSpecImpl for BigInt {
    open spec fn obeys_eq_spec() -> bool {
        true
    }

    open spec fn eq_spec(&self, other: &BigInt) -> bool {
        self.positive == other.positive && self.numbers@ == other.numbers@
    }
}

impl PartialOrd for BigInt {
    /// The total order, computed by sign, then magnitude length, then the
    /// first differing digit; `spec_cmp` states the rule.
    fn partial_cmp(&self, other: &BigInt) -> (r: Option<Ordering>) {
        if self.positive == other.positive && eq_digits(&self.numbers, &other.numbers) {
            Some(Ordering::Equal)
        } else if self.positive != other.positive {
            if self.positive {
                Some(Ordering::Greater)
            } else {
                Some(Ordering::Less)
            }
        } else if self.numbers.len() != other.numbers.len() {
            if self.positive == (self.numbers.len() > other.numbers.len()) {
                Some(Ordering::Greater)
            } else {
                Some(Ordering::Less)
            }
        } else {
            let l = lex_digits(&self.numbers, &other.numbers);
            if matches!(l, Ordering::Equal) {
                Some(Ordering::Equal)
            } else if self.positive {
                Some(l)
            } else if matches!(l, Ordering::Less) {
                Some(Ordering::Greater)
            } else {
                Some(Ordering::Less)
            }
        }
    }
}

impl vstd::std_specs::cmp::PartialOrdSpecImpl for BigInt {
    open spec fn obeys_partial_cmp_spec() -> bool {
        true
    }

    open spec fn partial_cmp_spec(&self, other: &BigInt) -> Option<Ordering> {
        Some(spec_cmp(*self, *other))
    }
}

impl BigInt {
    /// Comparison against a native integer: the numeric order.
    pub fn cmp_native(&self, n: i128) -> (r: Ordering)
        requires
            self.wf(),
        ensures
            (r == Ordering::Equal) == (self.as_int() == n),
            (r == Ordering::Less) == (self.as_int() < n),
            (r == Ordering::Greater) == (self.as_int() > n),
    {
        let other = BigInt::from_i128(n);
        proof {
            lemma_cmp_agrees_with_value(*self, other);
        }
        match self.partial_cmp(&other) {
            Some(o) => o,
            None => Ordering::Equal,
        }
    }

    /// Equality against a native integer.
    pub fn eq_native(&self, n: i128) -> (r: bool)
        requires
            self.wf(),
        ensures
            r == (self.as_int() == n),
    {
        matches!(self.cmp_native(n), Ordering::Equal)
    }

    /// Comparison against a parseable string; fails open — an input outside
    /// both grammars compares as unordered, never as an error.
    pub fn cmp_str(&self, s: &str) -> (r: Option<Ordering>)
        requires
            self.wf(),
        ensures
            (r is Some) == (crate::parse::parse_result(s@) is Some),
            r matches Some(o) ==> (crate::parse::parse_result(s@) matches Some(pr) && {
                let w = crate::parse::signed_of(pr.0, pr.1);
                &&& (o == Ordering::Equal) == (self.as_int() == w)
                &&& (o == Ordering::Less) == (self.as_int() < w)
                &&& (o == Ordering::Greater) == (self.as_int() > w)
            }),
    {
        match BigInt::from_str(s) {
            Ok(other) => {
                proof {
                    lemma_cmp_agrees_with_value(*self, other);
                }
                self.partial_cmp(&other)
            },
            Err(_) => None,
        }
    }

    /// Equality against a parseable string; an input outside both grammars is
    /// equal to nothing.
    pub fn eq_str(&self, s: &str) -> (r: bool)
        requires
            self.wf(),
        ensures
            r == (crate::parse::parse_result(s@) matches Some(pr) && self.as_int()
                == crate::parse::signed_of(pr.0, pr.1)),
    {
        matches!(self.cmp_str(s), Some(Ordering::Equal))
    }
}

} // verus!
