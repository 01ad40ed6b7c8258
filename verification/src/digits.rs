//! The mathematical model of the digit representation.
//!
//! A magnitude is a sequence of decimal digits, most significant first.
//! `dec_val` gives the number such a sequence denotes; `canonical` is the
//! unique representative of each number (no leading zeroes, zero is `[0]`).
//! The lemmas here relate values of prefixes, suffixes and reversals of a
//! digit sequence, and justify comparison by length and by the first
//! differing digit.

use vstd::prelude::*;
use vstd::arithmetic::mul::*;
use vstd::arithmetic::div_mod::*;

verus! {

/// Ten to the power `n`.
pub open spec fn pow10(n: nat) -> nat
    decreases n,
{
    if n == 0 {
        1
    } else {
        10 * pow10((n - 1) as nat)
    }
}

/// Every digit of `s` is a decimal digit.
pub open spec fn digits_ok(s: Seq<u8>) -> bool {
    forall|i: int| 0 <= i < s.len() ==> s[i] < 10
}

/// The canonical digit form: non-empty, decimal digits, no leading zero
/// except for the single-digit zero itself.
pub open spec fn canonical(s: Seq<u8>) -> bool {
    &&& s.len() >= 1
    &&& digits_ok(s)
    &&& s.len() > 1 ==> s[0] != 0
}

/// The number denoted by a most-significant-first digit sequence.
pub open spec fn dec_val(s: Seq<u8>) -> nat
    decreases s.len(),
{
    if s.len() == 0 {
        0
    } else {
        dec_val(s.drop_last()) * 10 + (s.last() as nat)
    }
}

/// The number denoted by a least-significant-first digit sequence.
pub open spec fn lsb_val(s: Seq<u8>) -> nat
    decreases s.len(),
{
    if s.len() == 0 {
        0
    } else {
        (s.first() as nat) + 10 * lsb_val(s.drop_first())
    }
}

pub proof fn lemma_pow10_pos(n: nat)
    ensures
        pow10(n) >= 1,
    decreases n,
{
    if n > 0 {
        lemma_pow10_pos((n - 1) as nat);
    }
}

pub proof fn lemma_pow10_increases(m: nat, n: nat)
    requires
        m <= n,
    ensures
        pow10(m) <= pow10(n),
    decreases n,
{
    if m < n && n > 0 {
        lemma_pow10_increases(m, (n - 1) as nat);
        lemma_pow10_pos((n - 1) as nat);
    }
}

pub proof fn lemma_dec_val_upper(s: Seq<u8>)
    requires
        digits_ok(s),
    ensures
        dec_val(s) < pow10(s.len()),
    decreases s.len(),
{
    if s.len() > 0 {
        assert(digits_ok(s.drop_last()));
        lemma_dec_val_upper(s.drop_last());
    }
}

pub proof fn lemma_dec_val_lower(s: Seq<u8>)
    requires
        s.len() >= 1,
        s[0] >= 1,
    ensures
        dec_val(s) >= pow10((s.len() - 1) as nat),
    decreases s.len(),
{
    if s.len() > 1 {
        assert(s.drop_last()[0] == s[0]);
        lemma_dec_val_lower(s.drop_last());
    }
}

pub proof fn lemma_dec_val_all_zero(s: Seq<u8>)
    requires
        forall|i: int| 0 <= i < s.len() ==> s[i] == 0,
    ensures
        dec_val(s) == 0,
    decreases s.len(),
{
    if s.len() > 0 {
        lemma_dec_val_all_zero(s.drop_last());
    }
}

/// Appending a digit multiplies the value by ten and adds the digit.
pub proof fn lemma_dec_val_take_succ(s: Seq<u8>, i: int)
    requires
        0 <= i < s.len(),
    ensures
        dec_val(s.take(i + 1)) == dec_val(s.take(i)) * 10 + s[i],
{
    assert(s.take(i + 1).drop_last() =~= s.take(i));
    assert(s.take(i + 1).last() == s[i]);
}

/// Splitting a digit sequence at `k` splits its value positionally.
pub proof fn lemma_dec_val_split(s: Seq<u8>, k: int)
    requires
        0 <= k <= s.len(),
    ensures
        dec_val(s) == dec_val(s.take(k)) * pow10((s.len() - k) as nat) + dec_val(s.skip(k)),
    decreases s.len(),
{
    if k == s.len() {
        assert(s.take(k) =~= s);
        assert(s.skip(k) =~= Seq::<u8>::empty());
        assert(pow10((s.len() - k) as nat) == 1);
        assert(dec_val(s.skip(k)) == 0);
        assert(dec_val(s) == dec_val(s.take(k)) * 1 + 0);
    } else {
        let dl = s.drop_last();
        lemma_dec_val_split(dl, k);
        assert(dl.take(k) =~= s.take(k));
        assert(dl.skip(k) =~= s.skip(k).drop_last());
        assert(s.skip(k).last() == s.last());
        let d = dec_val(s.take(k));
        let p = pow10((dl.len() - k) as nat);
        let e = dec_val(dl.skip(k));
        let l = s.last() as nat;
        assert(dec_val(s) == (d * p + e) * 10 + l);
        assert((d * p + e) * 10 + l == d * (10 * p) + (e * 10 + l)) by (nonlinear_arith);
        assert(dec_val(s.skip(k)) == e * 10 + l);
        assert((s.len() - k) as nat == (dl.len() - k) as nat + 1);
        assert(pow10((s.len() - k) as nat) == 10 * p);
        assert(dec_val(s) == d * pow10((s.len() - k) as nat) + dec_val(s.skip(k)));
    }
}

/// Leading zeroes do not change the value.
pub proof fn lemma_dec_val_zero_prefix(s: Seq<u8>, k: int)
    requires
        0 <= k <= s.len(),
        forall|i: int| 0 <= i < k ==> s[i] == 0,
    ensures
        dec_val(s) == dec_val(s.skip(k)),
{
    lemma_dec_val_split(s, k);
    lemma_dec_val_all_zero(s.take(k));
}

/// A value determines the digits once the length is fixed.
pub proof fn lemma_dec_val_unique_fixed(s: Seq<u8>, t: Seq<u8>)
    requires
        digits_ok(s),
        digits_ok(t),
        s.len() == t.len(),
        dec_val(s) == dec_val(t),
    ensures
        s =~= t,
    decreases s.len(),
{
    if s.len() > 0 {
        let v = dec_val(s) as int;
        lemma_fundamental_div_mod_converse(v, 10, dec_val(s.drop_last()) as int, s.last() as int);
        lemma_fundamental_div_mod_converse(v, 10, dec_val(t.drop_last()) as int, t.last() as int);
        assert(digits_ok(s.drop_last()));
        assert(digits_ok(t.drop_last()));
        lemma_dec_val_unique_fixed(s.drop_last(), t.drop_last());
        assert(s =~= s.drop_last().push(s.last()));
        assert(t =~= t.drop_last().push(t.last()));
    }
}

/// A canonical digit sequence is the unique one with its value.
pub proof fn lemma_canonical_unique(s: Seq<u8>, t: Seq<u8>)
    requires
        canonical(s),
        canonical(t),
        dec_val(s) == dec_val(t),
    ensures
        s =~= t,
{
    if s.len() < t.len() {
        lemma_canonical_len_order(s, t);
    } else if t.len() < s.len() {
        lemma_canonical_len_order(t, s);
    } else {
        lemma_dec_val_unique_fixed(s, t);
    }
}

/// A strictly longer canonical sequence denotes a strictly larger number.
pub proof fn lemma_canonical_len_order(s: Seq<u8>, t: Seq<u8>)
    requires
        canonical(s),
        canonical(t),
        s.len() < t.len(),
    ensures
        dec_val(s) < dec_val(t),
{
    lemma_dec_val_upper(s);
    lemma_dec_val_lower(t);
    lemma_pow10_increases(s.len(), (t.len() - 1) as nat);
}

/// With a common prefix, the first differing digit decides the order.
pub proof fn lemma_dec_val_lex(s: Seq<u8>, t: Seq<u8>, i: int)
    requires
        digits_ok(s),
        digits_ok(t),
        s.len() == t.len(),
        0 <= i < s.len(),
        s.take(i) =~= t.take(i),
        s[i] < t[i],
    ensures
        dec_val(s) < dec_val(t),
{
    let p = pow10((s.len() - i - 1) as nat) as int;
    lemma_pow10_pos((s.len() - i - 1) as nat);
    lemma_dec_val_split(s, i + 1);
    lemma_dec_val_split(t, i + 1);
    lemma_dec_val_take_succ(s, i);
    lemma_dec_val_take_succ(t, i);
    assert(digits_ok(s.skip(i + 1)));
    lemma_dec_val_upper(s.skip(i + 1));
    assert(s.skip(i + 1).len() == s.len() - i - 1);
    let a = dec_val(s.take(i + 1)) as int;
    let b = dec_val(t.take(i + 1)) as int;
    assert(a + 1 <= b);
    assert(a * p + p <= b * p) by {
        lemma_mul_inequality(a + 1, b, p);
        lemma_mul_is_distributive_add_other_way(p, a, 1);
    }
}

/// The value of a prefix never exceeds the value of the whole.
pub proof fn lemma_dec_val_prefix_le(s: Seq<u8>, k: int)
    requires
        0 <= k <= s.len(),
    ensures
        dec_val(s.take(k)) <= dec_val(s),
{
    lemma_dec_val_split(s, k);
    let d = dec_val(s.take(k)) as int;
    let p = pow10((s.len() - k) as nat) as int;
    lemma_pow10_pos((s.len() - k) as nat);
    assert(d <= d * p) by (nonlinear_arith)
        requires
            d >= 0,
            p >= 1,
    ;
}

/// Reading a sequence least-significant-first reverses it.
pub proof fn lemma_lsb_is_rev(s: Seq<u8>)
    ensures
        lsb_val(s) == dec_val(s.reverse()),
    decreases s.len(),
{
    if s.len() > 0 {
        assert(s.reverse().drop_last() =~= s.drop_first().reverse());
        assert(s.reverse().last() == s.first());
        lemma_lsb_is_rev(s.drop_first());
    }
}

/// Appending to a least-significant-first sequence adds at the high end.
pub proof fn lemma_lsb_push(s: Seq<u8>, d: u8)
    ensures
        lsb_val(s.push(d)) == lsb_val(s) + (d as nat) * pow10(s.len()),
    decreases s.len(),
{
    if s.len() == 0 {
        assert(s.push(d).drop_first() =~= Seq::<u8>::empty());
        assert(s.push(d).first() == d);
        assert(lsb_val(Seq::<u8>::empty()) == 0);
        assert(lsb_val(s.push(d)) == d);
        assert(lsb_val(s) == 0);
        assert(pow10(s.len()) == 1);
        assert((d as nat) * 1 == d);
    } else {
        assert(s.push(d).first() == s.first());
        assert(s.push(d).drop_first() =~= s.drop_first().push(d));
        lemma_lsb_push(s.drop_first(), d);
        let dn = d as nat;
        let p = pow10((s.len() - 1) as nat);
        let e = lsb_val(s.drop_first());
        assert(lsb_val(s.push(d)) == (s.first() as nat) + 10 * (e + dn * p));
        assert(10 * (e + dn * p) == 10 * e + dn * (10 * p)) by (nonlinear_arith);
        assert(s.drop_first().len() == s.len() - 1);
        assert(pow10(s.len()) == 10 * p);
        assert(lsb_val(s.push(d)) == lsb_val(s) + dn * pow10(s.len()));
    }
}

pub proof fn lemma_lsb_upper(s: Seq<u8>)
    requires
        digits_ok(s),
    ensures
        lsb_val(s) < pow10(s.len()),
    decreases s.len(),
{
    if s.len() > 0 {
        assert(digits_ok(s.drop_first()));
        lemma_lsb_upper(s.drop_first());
    }
}

/// One more digit of a least-significant-first prefix.
pub proof fn lemma_lsb_take_succ(s: Seq<u8>, i: int)
    requires
        0 <= i < s.len(),
    ensures
        lsb_val(s.take(i + 1)) == lsb_val(s.take(i)) + (s[i] as nat) * pow10(i as nat),
{
    assert(s.take(i + 1) =~= s.take(i).push(s[i]));
    lemma_lsb_push(s.take(i), s[i]);
}

} // verus!
