//! The laws the library states about itself, each proved from the public
//! contracts: uniqueness of the canonical representation, the algebraic
//! identities of addition and multiplication, the division–remainder law,
//! order consistency, and the two textual round trips.

use vstd::prelude::*;
use core::cmp::Ordering;
use crate::bigint::{lemma_canonical_zero, BigInt};
use crate::cmp_ops::{lemma_cmp_agrees_with_value, spec_cmp};
use crate::digits::{canonical, dec_val, digits_ok, lemma_canonical_unique};
use crate::divmod::{abs_int, tdiv, tmod};
use crate::parse::{
    all_word_digits, ci_match, digit_seq_of, is_sign_token, is_word_digit, matches_digit_grammar,
    parse_result, signed_of, split_ws, token_len, word_digit_of, word_minus, words_parse,
};
use crate::render::{
    decimal_chars, digit_chars, digit_word, sign_chars, words_render, words_tail,
};
use crate::text::{ci_eq, dec_digit_char, digit_of, is_digit_char, is_space};

verus! {

/// Two well-formed values with the same mathematical value have the same
/// sign and the same digits: the canonical representation is unique.
pub proof fn lemma_value_determines_representation(a: BigInt, b: BigInt)
    requires
        a.wf(),
        b.wf(),
        a.as_int() == b.as_int(),
    ensures
        a.positive == b.positive,
        a.numbers@ == b.numbers@,
{
    if a.as_int() == 0 {
        lemma_canonical_zero(a.numbers@);
        lemma_canonical_zero(b.numbers@);
        assert(a.numbers@ =~= b.numbers@);
    } else {
        lemma_canonical_unique(a.numbers@, b.numbers@);
    }
}

/// A value is zero only with the positive sign: there is no negative zero.
pub proof fn lemma_zero_is_positive(x: BigInt)
    requires
        x.wf(),
    ensures
        x.as_int() == 0 ==> x.positive,
{
}

/// Adding zero gives the identical representation back: any well-formed
/// result whose value is `x + 0` is `x`, sign and digits alike.
pub proof fn lemma_add_identity(x: BigInt, z: BigInt, r: BigInt)
    requires
        x.wf(),
        z.wf(),
        r.wf(),
        z.as_int() == 0,
        r.as_int() == x.as_int() + z.as_int(),
    ensures
        r.positive == x.positive,
        r.numbers@ == x.numbers@,
{
    lemma_value_determines_representation(r, x);
}

/// Adding a value's negation gives the canonical zero.
pub proof fn lemma_add_inverse(x: BigInt, n: BigInt, r: BigInt)
    requires
        x.wf(),
        n.wf(),
        r.wf(),
        n.as_int() == -x.as_int(),
        r.as_int() == x.as_int() + n.as_int(),
    ensures
        r.as_int() == 0,
        r.positive,
        r.numbers@ == seq![0u8],
{
    lemma_canonical_zero(r.numbers@);
    assert(r.numbers@ =~= seq![0u8]);
}

/// Multiplying by one gives the identical representation back.
pub proof fn lemma_mul_identity(x: BigInt, one: BigInt, r: BigInt)
    requires
        x.wf(),
        one.wf(),
        r.wf(),
        one.as_int() == 1,
        r.as_int() == x.as_int() * one.as_int(),
    ensures
        r.positive == x.positive,
        r.numbers@ == x.numbers@,
{
    assert(x.as_int() * 1 == x.as_int()) by (nonlinear_arith);
    lemma_value_determines_representation(r, x);
}

/// Multiplying by zero gives the canonical zero.
pub proof fn lemma_mul_annihilator(x: BigInt, z: BigInt, r: BigInt)
    requires
        x.wf(),
        z.wf(),
        r.wf(),
        z.as_int() == 0,
        r.as_int() == x.as_int() * z.as_int(),
    ensures
        r.as_int() == 0,
        r.positive,
        r.numbers@ == seq![0u8],
{
    assert(x.as_int() * 0 == 0) by (nonlinear_arith);
    lemma_canonical_zero(r.numbers@);
    assert(r.numbers@ =~= seq![0u8]);
}

/// The division–remainder law: quotient times divisor plus remainder is the
/// dividend, the remainder is smaller in magnitude than the divisor, and its
/// sign follows the dividend.
pub proof fn lemma_div_rem_law(x: int, y: int)
    requires
        y != 0,
    ensures
        tdiv(x, y) * y + tmod(x, y) == x,
        abs_int(tmod(x, y)) < abs_int(y),
        x >= 0 ==> tmod(x, y) >= 0,
        x <= 0 ==> tmod(x, y) <= 0,
{
    let ax = abs_int(x) as int;
    let ay = abs_int(y) as int;
    let q = ax / ay;
    let m = ax % ay;
    vstd::arithmetic::div_mod::lemma_fundamental_div_mod(ax, ay);
    vstd::arithmetic::div_mod::lemma_mod_bound(ax, ay);
    assert(ax == ay * q + m);
    assert(q * ay == ay * q) by (nonlinear_arith);
    assert(q * (-ay) == -(ay * q)) by (nonlinear_arith);
    assert((-q) * ay == -(ay * q)) by (nonlinear_arith);
    assert((-q) * (-ay) == ay * q) by (nonlinear_arith);
    if x >= 0 {
        if y > 0 {
            assert(tdiv(x, y) == q && y == ay && x == ax);
            assert(tmod(x, y) == m);
        } else {
            assert(tdiv(x, y) == -q && y == -ay && x == ax);
            assert(tmod(x, y) == m);
        }
        assert(abs_int(tmod(x, y)) == m);
    } else {
        if y > 0 {
            assert(tdiv(x, y) == -q && y == ay && x == -ax);
            assert(tmod(x, y) == -m);
        } else {
            assert(tdiv(x, y) == q && y == -ay && x == -ax);
            assert(tmod(x, y) == -m);
        }
        assert(abs_int(tmod(x, y)) == m);
    }
}

/// Order consistency: the comparison says "less" exactly when the difference
/// is a negative value.
pub proof fn lemma_order_consistency(a: BigInt, b: BigInt, d: BigInt)
    requires
        a.wf(),
        b.wf(),
        d.wf(),
        d.as_int() == a.as_int() - b.as_int(),
        a.as_int() != b.as_int(),
    ensures
        (spec_cmp(a, b) == Ordering::Less) == !d.positive,
{
    lemma_cmp_agrees_with_value(a, b);
    lemma_canonical_zero(d.numbers@);
}

// ------------------------------------------------------- decimal round trip

/// Rendering a digit and reading the character back is the identity.
pub proof fn lemma_digit_char_round(c: char)
    requires
        is_digit_char(c),
    ensures
        dec_digit_char(digit_of(c)) == c,
{
}

/// Round-trip: a decimal string already in canonical form — no leading
/// zeroes, and not a negative zero — parses successfully, and the value it
/// parses to renders back to the very same string.  (An arbitrary valid
/// string first normalises: parsing strips its leading zeroes and turns `-0`
/// into `0`.)
pub proof fn lemma_decimal_round_trip(s: Seq<char>, v: BigInt)
    requires
        v.wf(),
        matches_digit_grammar(s),
        canonical(
            digit_seq_of(
                if s[0] == '-' {
                    s.skip(1)
                } else {
                    s
                },
            ),
        ),
        s[0] == '-' ==> dec_val(digit_seq_of(s.skip(1))) > 0,
        parse_result(s) matches Some(pr) && v.as_int() == signed_of(pr.0, pr.1),
    ensures
        decimal_chars(v.positive, v.numbers@, false) == s,
{
    let body = if s[0] == '-' {
        s.skip(1)
    } else {
        s
    };
    let ds = digit_seq_of(body);
    let positive = (s[0] != '-');
    // The parsed digits are canonical, so the canonical value v carries
    // exactly these digits and this sign.
    assert(v.as_int() == signed_of(positive, ds));
    assert(dec_val(v.numbers@) == dec_val(ds));
    lemma_canonical_unique(v.numbers@, ds);
    assert(v.positive == positive);
    // Rendering maps each digit back to the character it came from.
    assert forall|i: int| 0 <= i < body.len() implies #[trigger] digit_chars(ds)[i] == body[i] by {
        assert(is_digit_char(body[i]));
        assert(ds[i] == digit_of(body[i]));
        lemma_digit_char_round(body[i]);
    }
    assert(sign_chars(positive, false) == if positive {
        Seq::<char>::empty()
    } else {
        seq!['-']
    });
    assert(decimal_chars(v.positive, v.numbers@, false) =~= s);
}

// ---------------------------------------------------------- word round trip

/// The letters of every digit word: at least three of them, none whitespace,
/// the word is no sign token, and reading the word back gives the digit.
pub proof fn lemma_digit_word_props(d: u8)
    requires
        d < 10,
    ensures
        digit_word(d).len() >= 3,
        forall|i: int| 0 <= i < digit_word(d).len() ==> !is_space(#[trigger] digit_word(d)[i]),
        !is_sign_token(digit_word(d)),
        word_digit_of(digit_word(d)) == d,
{
    let w = digit_word(d);
    assert forall|i: int| 0 <= i < w.len() implies !is_space(#[trigger] w[i]) by {
        if i == 0 {
        } else if i == 1 {
        } else if i == 2 {
        } else if i == 3 {
        } else {
        }
    }
    lemma_ci_match_refl(w);
    assert(!ci_match(w, word_minus())) by {
        if w.len() == 5 && ci_match(w, word_minus()) {
            assert(ci_eq(w[0], word_minus()[0]));
            assert(false);
        }
    }
    lemma_word_digit_of_word(d);
}

/// A word matches itself, letter case aside.
pub proof fn lemma_ci_match_refl(w: Seq<char>)
    ensures
        ci_match(w, w),
{
    assert forall|i: int| 0 <= i < w.len() implies ci_eq(w[i], w[i]) by {}
}

/// Reading a rendered digit word back gives the digit it rendered.
pub proof fn lemma_word_digit_of_word(d: u8)
    requires
        d < 10,
    ensures
        word_digit_of(digit_word(d)) == d,
{
    let w = digit_word(d);
    lemma_ci_match_refl(w);
    assert forall|e: u8| e < 10 && e != d && digit_word(e).len() == w.len() implies !ci_match(
        w,
        digit_word(e),
    ) by {
        if ci_match(w, digit_word(e)) {
            assert(ci_eq(w[0], digit_word(e)[0]));
            assert(ci_eq(w[1], digit_word(e)[1]));
            assert(false);
        }
    }
}

/// A run of non-whitespace followed by whitespace (or the end) is one token.
pub proof fn lemma_token_len_concat(w: Seq<char>, rest: Seq<char>)
    requires
        forall|i: int| 0 <= i < w.len() ==> !is_space(#[trigger] w[i]),
        rest.len() == 0 || is_space(rest[0]),
    ensures
        token_len(w + rest) == w.len(),
    decreases w.len(),
{
    if w.len() == 0 {
        assert(w + rest =~= rest);
    } else {
        assert((w + rest)[0] == w[0]);
        assert((w + rest).drop_first() =~= w.drop_first() + rest);
        lemma_token_len_concat(w.drop_first(), rest);
    }
}

/// The tail of the word rendering splits into one token per digit.
pub proof fn lemma_split_words_tail(ds: Seq<u8>)
    requires
        digits_ok(ds),
    ensures
        split_ws(words_tail(ds)) == ds.map_values(|d: u8| digit_word(d)),
    decreases ds.len(),
{
    if ds.len() == 0 {
        assert(split_ws(words_tail(ds)) =~= ds.map_values(|d: u8| digit_word(d)));
    } else {
        let d = ds.first();
        let w = digit_word(d);
        let tail = words_tail(ds.drop_first());
        lemma_digit_word_props(d);
        let joined = words_tail(ds);
        assert(joined == seq![' '] + w + tail);
        assert(is_space(joined[0]));
        assert(joined.drop_first() =~= w + tail);
        // The next token is exactly the first digit word.
        lemma_words_tail_shape(ds.drop_first());
        lemma_token_len_concat(w, tail);
        assert(!is_space((w + tail)[0]));
        assert((w + tail).take(w.len() as int) =~= w);
        assert((w + tail).skip(w.len() as int) =~= tail);
        lemma_split_words_tail(ds.drop_first());
        assert(split_ws(w + tail) == seq![w] + split_ws(tail));
        assert(seq![w] + ds.drop_first().map_values(|e: u8| digit_word(e)) =~= ds.map_values(
            |e: u8| digit_word(e),
        ));
    }
}

/// The rendered tail is empty or starts with the joining space.
pub proof fn lemma_words_tail_shape(ds: Seq<u8>)
    ensures
        words_tail(ds).len() == 0 || is_space(words_tail(ds)[0]),
{
    if ds.len() > 0 {
        assert(words_tail(ds)[0] == ' ');
    }
}

/// Word round-trip: the word rendering of any well-formed value re-parses
/// under the word grammar to the same mathematical value.
pub proof fn lemma_word_round_trip(x: BigInt)
    requires
        x.wf(),
    ensures
        words_parse(words_render(x.positive, x.numbers@)) matches Some(pr) && signed_of(
            pr.0,
            pr.1,
        ) == x.as_int(),
{
    let ds = x.numbers@;
    let rendered = words_render(x.positive, ds);
    let dwords = ds.map_values(|d: u8| digit_word(d));
    assert(ds.len() >= 1);
    assert forall|j: int| 0 <= j < dwords.len() implies is_word_digit(#[trigger] dwords[j])
        && word_digit_of(dwords[j]) == ds[j] && !is_sign_token(dwords[j]) by {
        lemma_digit_word_props(ds[j]);
    }
    if !x.positive {
        // `minus`, then one word per digit.
        lemma_ci_match_refl(word_minus());
        assert(is_sign_token(word_minus()));
        let tail = words_tail(ds);
        lemma_words_tail_shape(ds);
        assert(rendered == word_minus() + tail);
        assert forall|i: int| 0 <= i < word_minus().len() implies !is_space(
            #[trigger] word_minus()[i],
        ) by {
            if i == 0 {
            } else if i == 1 {
            } else if i == 2 {
            } else if i == 3 {
            } else {
            }
        }
        lemma_token_len_concat(word_minus(), tail);
        assert(!is_space(rendered[0]));
        assert(rendered.take(word_minus().len() as int) =~= word_minus());
        assert(rendered.skip(word_minus().len() as int) =~= tail);
        lemma_split_words_tail(ds);
        assert(split_ws(rendered) == seq![word_minus()] + dwords);
        let ts = split_ws(rendered);
        assert(ts[0] == word_minus());
        assert(ts.skip(1) =~= dwords);
        assert(all_word_digits(dwords));
        let parsed = words_parse(rendered);
        assert(parsed is Some);
        let mapped = dwords.map_values(|t: Seq<char>| word_digit_of(t));
        assert(mapped =~= ds);
    } else {
        let d0 = ds.first();
        let w0 = digit_word(d0);
        let tail = words_tail(ds.drop_first());
        lemma_digit_word_props(d0);
        lemma_words_tail_shape(ds.drop_first());
        assert(rendered == w0 + tail);
        lemma_token_len_concat(w0, tail);
        assert(!is_space(rendered[0]));
        assert(rendered.take(w0.len() as int) =~= w0);
        assert(rendered.skip(w0.len() as int) =~= tail);
        lemma_split_words_tail(ds.drop_first());
        assert(split_ws(rendered) == seq![w0] + ds.drop_first().map_values(
            |d: u8| digit_word(d),
        ));
        let ts = split_ws(rendered);
        assert(ts =~= dwords);
        assert(!is_sign_token(ts[0]));
        assert(all_word_digits(dwords));
        let parsed = words_parse(rendered);
        assert(parsed is Some);
        let mapped = dwords.map_values(|t: Seq<char>| word_digit_of(t));
        assert(mapped =~= ds);
    }
}

} // verus!
