//! The bitwise layer: a transient binary encoding and the operations on it.
//!
//! A value's encoding is a leading sign bit (`true` for negative) followed by
//! the magnitude's bits, most significant first.  The logical operations
//! align two encodings at the least significant end, pad the shorter with
//! leading `false` bits, apply the operation position-wise — the sign bit
//! position included — and decode: the leading bit becomes the sign, the rest
//! the magnitude.  Shifts are defined arithmetically, as multiplication and
//! division by a power of two.

use vstd::prelude::*;
use vstd::arithmetic::div_mod::lemma_fundamental_div_mod_converse;
use vstd::arithmetic::power::{lemma_pow0, lemma_pow_positive, pow};
use crate::bigint::{copy_digits, lemma_canonical_zero, lemma_dec_val_single, BigInt};
use crate::cmp_ops::mag_cmp;
use crate::digits::{canonical, dec_val, lemma_dec_val_lower, pow10};
use crate::divmod::{abs_int, mag_divmod, tdiv};

verus! {

/// The bits of `n`, least significant first, with no high zero bits.
pub open spec fn bits_of(n: nat) -> Seq<bool>
    decreases n,
{
    if n == 0 {
        Seq::empty()
    } else {
        seq![n % 2 == 1] + bits_of(n / 2)
    }
}

/// The number a most-significant-first bit sequence denotes.
pub open spec fn bits_val(s: Seq<bool>) -> nat
    decreases s.len(),
{
    if s.len() == 0 {
        0
    } else {
        bits_val(s.drop_last()) * 2 + (if s.last() {
            1nat
        } else {
            0nat
        })
    }
}

/// The magnitude's bits, most significant first; zero has no bits at all,
/// as repeated division by two yields no remainders.
pub open spec fn bin_repr(n: nat) -> Seq<bool> {
    bits_of(n).reverse()
}

/// The transient encoding: the sign bit, then the magnitude's bits; zero's
/// encoding is the sign bit alone.
pub open spec fn enc(v: int) -> Seq<bool> {
    seq![v < 0] + bin_repr(abs_int(v))
}

/// The bit `j` positions from the least significant end; `false` past the
/// high end.
pub open spec fn bit_from_right(s: Seq<bool>, j: int) -> bool {
    0 <= j < s.len() && s[s.len() - 1 - j]
}

/// The three position-wise operations.
#[derive(Clone, Copy)]
pub enum BitOp {
    And,
    Or,
    Xor,
}

pub open spec fn apply_op(op: BitOp, x: bool, y: bool) -> bool {
    match op {
        BitOp::And => x && y,
        BitOp::Or => x || y,
        BitOp::Xor => x != y,
    }
}

/// Two bit streams aligned at the least significant end, the shorter padded
/// with leading `false`, combined position-wise.
pub open spec fn bitop_bits(op: BitOp, a: Seq<bool>, b: Seq<bool>) -> Seq<bool> {
    let n = if a.len() >= b.len() {
        a.len() as int
    } else {
        b.len() as int
    };
    Seq::new(n as nat, |i: int| apply_op(op, bit_from_right(a, n - 1 - i), bit_from_right(b, n - 1 - i)))
}

/// Decoding an encoded stream: the leading bit is the sign, the remaining
/// bits the magnitude; a negative zero decodes to zero.
pub open spec fn decode(s: Seq<bool>) -> int {
    if s.len() == 0 {
        0
    } else if s.first() {
        -(bits_val(s.drop_first()) as int)
    } else {
        bits_val(s.drop_first()) as int
    }
}

/// What a bitwise operation means on values.
pub open spec fn bitop_val(op: BitOp, x: int, y: int) -> int {
    decode(bitop_bits(op, enc(x), enc(y)))
}

/// Decoding the bits of `n` gives `n` back.
pub proof fn lemma_bits_of_val(n: nat)
    ensures
        bits_val(bits_of(n).reverse()) == n,
    decreases n,
{
    if n == 0 {
        assert(bits_of(0) =~= Seq::<bool>::empty());
        assert(Seq::<bool>::empty().reverse() =~= Seq::<bool>::empty());
    } else {
        lemma_bits_of_val(n / 2);
        let b = (n % 2 == 1);
        let rest = bits_of(n / 2);
        assert(bits_of(n).reverse() =~= rest.reverse().push(b));
        assert(rest.reverse().push(b).drop_last() =~= rest.reverse());
        assert(rest.reverse().push(b).last() == b);
    }
}

impl BigInt {
    /// Whether the value is even: the least significant decimal digit is.
    pub fn is_even(&self) -> (r: bool)
        requires
            self.wf(),
        ensures
            r == (self.as_int() % 2 == 0),
    {
        let last = self.numbers[self.numbers.len() - 1];
        let r = last % 2 == 0;
        proof {
            let s = self.numbers@;
            let a = dec_val(s.drop_last()) as int;
            vstd::arithmetic::div_mod::lemma_mod_multiples_vanish(5 * a, last as int, 2);
            assert(a * 10 == 2 * (5 * a)) by (nonlinear_arith);
            assert(dec_val(s) as int % 2 == (last as int) % 2);
            let m = dec_val(s) as int;
            if !self.positive {
                let k = m / 2;
                vstd::arithmetic::div_mod::lemma_fundamental_div_mod(m, 2);
                vstd::arithmetic::div_mod::lemma_mod_bound(m, 2);
                vstd::arithmetic::div_mod::lemma_mod_multiples_vanish(-k, m % 2, 2);
                assert(-m == 2 * (-k) + (-(m % 2)));
                if m % 2 == 0 {
                    assert((-m) % 2 == 0);
                } else {
                    vstd::arithmetic::div_mod::lemma_mod_multiples_vanish(-k - 1, 1, 2);
                    assert(-m == 2 * (-k - 1) + 1);
                    assert((-m) % 2 == 1);
                }
            }
        }
        r
    }

    /// The sign and the magnitude's bits, most significant bit first,
    /// computed by repeated division by two; zero yields no bits.
    pub fn to_binary(&self) -> (r: (bool, Vec<bool>))
        requires
            self.wf(),
        ensures
            r.0 == self.positive,
            r.1@ == bin_repr(self.mag()),
    {
        let ghost m0 = self.mag();
        let mut two: Vec<u8> = Vec::new();
        two.push(2);
        proof {
            assert(two@ =~= seq![2u8]);
            lemma_dec_val_single(2);
        }
        let mut bits: Vec<bool> = Vec::new();
        let mut cur: Vec<u8> = copy_digits(&self.numbers);
        proof {
            assert(bits@ + bits_of(dec_val(cur@)) =~= bits_of(m0));
        }
        while !(cur.len() == 1 && cur[0] == 0)
            invariant
                canonical(cur@),
                canonical(two@),
                dec_val(two@) == 2,
                bits@ + bits_of(dec_val(cur@)) == bits_of(m0),
            decreases dec_val(cur@),
        {
            proof {
                lemma_canonical_zero(cur@);
            }
            let ghost cv = dec_val(cur@);
            let (q, rem) = mag_divmod(&cur, &two);
            proof {
                lemma_fundamental_div_mod_converse(
                    cv as int,
                    2,
                    dec_val(q@) as int,
                    dec_val(rem@) as int,
                );
                // The remainder is below two, so it is a single digit.
                if rem@.len() > 1 {
                    lemma_dec_val_lower(rem@);
                    assert(pow10(0) == 1);
                    assert(pow10(1) == 10);
                    crate::digits::lemma_pow10_increases(1, (rem@.len() - 1) as nat);
                }
                assert(rem@ =~= seq![rem@[0]]);
                lemma_dec_val_single(rem@[0]);
                assert(dec_val(q@) < cv) by (nonlinear_arith)
                    requires
                        cv == dec_val(q@) * 2 + dec_val(rem@),
                        cv > 0,
                        dec_val(rem@) < 2,
                ;
            }
            let bit = rem[0] == 1;
            proof {
                assert(bits_of(cv) =~= seq![bit] + bits_of(dec_val(q@)));
                assert(bits@.push(bit) + bits_of(dec_val(q@)) =~= bits@ + (seq![bit] + bits_of(
                    dec_val(q@),
                )));
            }
            bits.push(bit);
            cur = q;
        }
        proof {
            lemma_canonical_zero(cur@);
            assert(bits_of(dec_val(cur@)) =~= Seq::<bool>::empty());
            assert(bits@ + Seq::<bool>::empty() =~= bits@);
            assert(bits@ == bits_of(m0));
        }
        let msb = rev_bools(&bits);
        (self.positive, msb)
    }

    /// Decodes a sign and a most-significant-first magnitude bit sequence,
    /// normalising a negative zero to the canonical zero.
    pub fn from_binary(positive: bool, binary: Vec<bool>) -> (r: BigInt)
        ensures
            r.wf(),
            r.as_int() == if positive {
                bits_val(binary@) as int
            } else {
                -(bits_val(binary@) as int)
            },
    {
        let mut acc = BigInt::new();
        let mut i: usize = 0;
        proof {
            assert(binary@.take(0) =~= Seq::<bool>::empty());
            assert(bits_val(Seq::<bool>::empty()) == 0);
        }
        while i < binary.len()
            invariant
                0 <= i <= binary@.len(),
                acc.wf(),
                acc.as_int() == bits_val(binary@.take(i as int)),
            decreases binary@.len() - i,
        {
            let doubled = acc.add(&acc);
            proof {
                assert(binary@.take(i + 1).drop_last() =~= binary@.take(i as int));
                assert(binary@.take(i + 1).last() == binary@[i as int]);
            }
            if binary[i] {
                let one = crate::divmod::one_value();
                acc = doubled.add(&one);
            } else {
                acc = doubled;
            }
            i = i + 1;
        }
        proof {
            assert(binary@.take(binary@.len() as int) =~= binary@);
        }
        if positive {
            acc
        } else {
            acc.neg()
        }
    }

    /// The shared body of the three bitwise operations.
    fn bit_op_impl(&self, rhs: &BigInt, op: BitOp) -> (r: BigInt)
        requires
            self.wf(),
            rhs.wf(),
        ensures
            r.wf(),
            r.as_int() == bitop_val(op, self.as_int(), rhs.as_int()),
    {
        let (pa, ba) = self.to_binary();
        let (pb, bb) = rhs.to_binary();
        let mut ea: Vec<bool> = Vec::new();
        ea.push(!pa);
        let mut j: usize = 0;
        while j < ba.len()
            invariant
                0 <= j <= ba@.len(),
                ea@ =~= seq![!pa] + ba@.take(j as int),
            decreases ba.len() - j,
        {
            ea.push(ba[j]);
            j = j + 1;
            proof {
                assert(ea@ =~= seq![!pa] + ba@.take(j as int));
            }
        }
        let mut eb: Vec<bool> = Vec::new();
        eb.push(!pb);
        let mut k: usize = 0;
        while k < bb.len()
            invariant
                0 <= k <= bb@.len(),
                eb@ =~= seq![!pb] + bb@.take(k as int),
            decreases bb.len() - k,
        {
            eb.push(bb[k]);
            k = k + 1;
            proof {
                assert(eb@ =~= seq![!pb] + bb@.take(k as int));
            }
        }
        proof {
            assert(ba@.take(ba@.len() as int) =~= ba@);
            assert(bb@.take(bb@.len() as int) =~= bb@);
            lemma_canonical_zero(self.numbers@);
            lemma_canonical_zero(rhs.numbers@);
            assert(abs_int(self.as_int()) == self.mag());
            assert(abs_int(rhs.as_int()) == rhs.mag());
            assert((self.as_int() < 0) == !self.positive);
            assert((rhs.as_int() < 0) == !rhs.positive);
            assert(ea@ =~= enc(self.as_int()));
            assert(eb@ =~= enc(rhs.as_int()));
        }
        let n = if ea.len() >= eb.len() {
            ea.len()
        } else {
            eb.len()
        };
        let mut out: Vec<bool> = Vec::new();
        let mut i: usize = 0;
        while i < n
            invariant
                0 <= i <= n,
                n == if ea@.len() >= eb@.len() {
                    ea@.len()
                } else {
                    eb@.len()
                },
                out@.len() == i,
                forall|t: int|
                    0 <= t < i ==> out@[t] == apply_op(
                        op,
                        bit_from_right(ea@, n - 1 - t),
                        bit_from_right(eb@, n - 1 - t),
                    ),
            decreases n - i,
        {
            let xa = if i >= n - ea.len() {
                ea[i - (n - ea.len())]
            } else {
                false
            };
            let xb = if i >= n - eb.len() {
                eb[i - (n - eb.len())]
            } else {
                false
            };
            proof {
                assert(xa == bit_from_right(ea@, n - 1 - i));
                assert(xb == bit_from_right(eb@, n - 1 - i));
            }
            let bit = match op {
                BitOp::And => xa && xb,
                BitOp::Or => xa || xb,
                BitOp::Xor => xa != xb,
            };
            out.push(bit);
            i = i + 1;
        }
        proof {
            assert(out@ =~= bitop_bits(op, ea@, eb@));
        }
        let neg_sign = out[0];
        let mut mag_bits: Vec<bool> = Vec::new();
        let mut t: usize = 1;
        while t < out.len()
            invariant
                1 <= t <= out@.len(),
                mag_bits@ =~= out@.subrange(1, t as int),
            decreases out.len() - t,
        {
            mag_bits.push(out[t]);
            t = t + 1;
            proof {
                assert(mag_bits@ =~= out@.subrange(1, t as int));
            }
        }
        proof {
            assert(mag_bits@ =~= out@.drop_first());
        }
        BigInt::from_binary(!neg_sign, mag_bits)
    }

    /// Bitwise conjunction over the transient encoding.
    pub fn bitand(&self, rhs: &BigInt) -> (r: BigInt)
        requires
            self.wf(),
            rhs.wf(),
        ensures
            r.wf(),
            r.as_int() == bitop_val(BitOp::And, self.as_int(), rhs.as_int()),
    {
        self.bit_op_impl(rhs, BitOp::And)
    }

    /// Bitwise disjunction over the transient encoding.
    pub fn bitor(&self, rhs: &BigInt) -> (r: BigInt)
        requires
            self.wf(),
            rhs.wf(),
        ensures
            r.wf(),
            r.as_int() == bitop_val(BitOp::Or, self.as_int(), rhs.as_int()),
    {
        self.bit_op_impl(rhs, BitOp::Or)
    }

    /// Bitwise exclusive disjunction over the transient encoding.
    pub fn bitxor(&self, rhs: &BigInt) -> (r: BigInt)
        requires
            self.wf(),
            rhs.wf(),
        ensures
            r.wf(),
            r.as_int() == bitop_val(BitOp::Xor, self.as_int(), rhs.as_int()),
    {
        self.bit_op_impl(rhs, BitOp::Xor)
    }

    /// The value shifted left by `rhs` bits: multiplication by `2^rhs`.
    pub fn shl(&self, rhs: &BigInt) -> (r: BigInt)
        requires
            self.wf(),
            rhs.wf(),
            rhs.as_int() >= 0,
        ensures
            r.wf(),
            r.as_int() == self.as_int() * pow(2, rhs.as_int() as nat),
    {
        let two = BigInt::from_u128(2);
        let p = two.pow(rhs);
        self.mul(&p)
    }

    /// The value shifted right by `rhs` bits: truncating division by `2^rhs`.
    pub fn shr(&self, rhs: &BigInt) -> (r: BigInt)
        requires
            self.wf(),
            rhs.wf(),
            rhs.as_int() >= 0,
        ensures
            r.wf(),
            r.as_int() == tdiv(self.as_int(), pow(2, rhs.as_int() as nat)),
    {
        let two = BigInt::from_u128(2);
        let p = two.pow(rhs);
        proof {
            lemma_pow_positive(2, rhs.as_int() as nat);
        }
        self.div(&p)
    }
}

/// The bits of `v` in the opposite order.
pub fn rev_bools(v: &Vec<bool>) -> (r: Vec<bool>)
    ensures
        r@ == v@.reverse(),
{
    let mut r: Vec<bool> = Vec::new();
    let mut i: usize = 0;
    while i < v.len()
        invariant
            0 <= i <= v.len(),
            r@.len() == i,
            forall|j: int| 0 <= j < i ==> r@[j] == v@[v@.len() - 1 - j],
        decreases v.len() - i,
    {
        r.push(v[v.len() - 1 - i]);
        i = i + 1;
    }
    proof {
        assert(r@ =~= v@.reverse());
    }
    r
}

} // verus!
