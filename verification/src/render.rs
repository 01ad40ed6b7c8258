//! Rendering: decimal, binary and hexadecimal strings, digit words, and the
//! shared field formatting.
//!
//! Every renderer produces the bare text first — a sign marker, an optional
//! base prefix, then the digits of the chosen base — and then pads it to the
//! requested minimum width with the fill character: on the left for right
//! alignment (the default), on the right for left alignment, and split for
//! centring, with the extra character of an odd deficit going to the right.

use vstd::prelude::*;
use vstd::string::StringExecFns;
use crate::bigint::{lemma_dec_val_single, BigInt};
use crate::bits::bin_repr;
use crate::digits::{canonical, dec_val, lemma_dec_val_lower, pow10};
use crate::parse::{
    word_eight, word_five, word_four, word_minus, word_nine, word_one, word_seven, word_six,
    word_three, word_two, word_zero,
};
use crate::text::{
    chars_to_string, dec_digit_char, digit_to_char, hex_digit_char, hex_to_char,
};

verus! {

/// Where the fill characters go when a rendered string is shorter than the
/// requested width.
#[derive(Clone, Copy, Debug, PartialEq, Eq, Structural)]
pub enum TextAlign {
    Left,
    Center,
    Right,
}

/// Options for decimal rendering.
#[derive(Clone, Copy)]
pub struct DecimalFormat {
    pub sign_shown: bool,
    pub width: usize,
    pub fill: char,
    pub align: TextAlign,
}

/// Options for binary rendering.
#[derive(Clone, Copy)]
pub struct BinaryFormat {
    pub prefix_shown: bool,
    pub width: usize,
    pub fill: char,
    pub align: TextAlign,
}

/// Options for hexadecimal rendering.
#[derive(Clone, Copy)]
pub struct HexFormat {
    pub prefix_shown: bool,
    pub uppercase: bool,
    pub width: usize,
    pub fill: char,
    pub align: TextAlign,
}

impl Default for DecimalFormat {
    /// No explicit sign, no minimum width, blank fill, right alignment.
    fn default() -> (r: DecimalFormat)
        ensures
            !r.sign_shown && r.width == 0 && r.fill == ' ' && r.align == TextAlign::Right,
    {
        DecimalFormat { sign_shown: false, width: 0, fill: ' ', align: TextAlign::Right }
    }
}

impl Default for BinaryFormat {
    /// No base prefix, no minimum width, blank fill, right alignment.
    fn default() -> (r: BinaryFormat)
        ensures
            !r.prefix_shown && r.width == 0 && r.fill == ' ' && r.align == TextAlign::Right,
    {
        BinaryFormat { prefix_shown: false, width: 0, fill: ' ', align: TextAlign::Right }
    }
}

impl Default for HexFormat {
    /// No base prefix, lower case, no minimum width, blank fill, right
    /// alignment.
    fn default() -> (r: HexFormat)
        ensures
            !r.prefix_shown && !r.uppercase && r.width == 0 && r.fill == ' ' && r.align
                == TextAlign::Right,
    {
        HexFormat {
            prefix_shown: false,
            uppercase: false,
            width: 0,
            fill: ' ',
            align: TextAlign::Right,
        }
    }
}

// ---------------------------------------------------------------- specs

pub open spec fn repeat_char(c: char, n: nat) -> Seq<char> {
    Seq::new(n, |i: int| c)
}

/// The rendered text padded to the minimum width.
pub open spec fn pad_text(s: Seq<char>, width: nat, fill: char, align: TextAlign) -> Seq<char> {
    if s.len() >= width {
        s
    } else {
        let m = (width - s.len()) as nat;
        match align {
            TextAlign::Left => s + repeat_char(fill, m),
            TextAlign::Right => repeat_char(fill, m) + s,
            TextAlign::Center => repeat_char(fill, (m / 2) as nat) + s + repeat_char(
                fill,
                (m - m / 2) as nat,
            ),
        }
    }
}

pub open spec fn digit_chars(ds: Seq<u8>) -> Seq<char> {
    ds.map_values(|d: u8| dec_digit_char(d))
}

pub open spec fn sign_chars(positive: bool, sign_shown: bool) -> Seq<char> {
    if !positive {
        seq!['-']
    } else if sign_shown {
        seq!['+']
    } else {
        Seq::empty()
    }
}

/// The bare decimal text: sign marker, then the digits in order.
pub open spec fn decimal_chars(positive: bool, ds: Seq<u8>, sign_shown: bool) -> Seq<char> {
    sign_chars(positive, sign_shown) + digit_chars(ds)
}

pub open spec fn bit_chars(bs: Seq<bool>) -> Seq<char> {
    bs.map_values(
        |b: bool|
            if b {
                '1'
            } else {
                '0'
            },
    )
}

/// The digit part of the binary text.  Zero's encoding has no magnitude
/// bits, only its sign bit, and that sign bit is what shows as the one `0`.
pub open spec fn bin_digit_chars(mag: nat) -> Seq<char> {
    if mag == 0 {
        seq!['0']
    } else {
        bit_chars(bin_repr(mag))
    }
}

/// The bare binary text: sign, optional `0b`, then the magnitude's bits.
pub open spec fn binary_chars(positive: bool, mag: nat, prefix_shown: bool) -> Seq<char> {
    (if !positive {
        seq!['-']
    } else {
        Seq::<char>::empty()
    }) + (if prefix_shown {
        seq!['0', 'b']
    } else {
        Seq::<char>::empty()
    }) + bin_digit_chars(mag)
}

/// The hexadecimal digits of `n`, least significant first, none for zero.
pub open spec fn hex_of(n: nat) -> Seq<u8>
    decreases n,
{
    if n == 0 {
        Seq::empty()
    } else {
        seq![(n % 16) as u8] + hex_of(n / 16)
    }
}

/// The hexadecimal digits of a magnitude, most significant first; zero has
/// none at all, as repeated division by sixteen yields no remainders.
pub open spec fn hex_repr(n: nat) -> Seq<u8> {
    hex_of(n).reverse()
}

pub open spec fn hex_chars_of(ds: Seq<u8>, uppercase: bool) -> Seq<char> {
    ds.map_values(|d: u8| hex_digit_char(d, uppercase))
}

/// The bare hexadecimal text: sign, optional `0x`, then the digits.
pub open spec fn hex_string_chars(
    positive: bool,
    mag: nat,
    prefix_shown: bool,
    uppercase: bool,
) -> Seq<char> {
    (if !positive {
        seq!['-']
    } else {
        Seq::<char>::empty()
    }) + (if prefix_shown {
        seq!['0', 'x']
    } else {
        Seq::<char>::empty()
    }) + hex_chars_of(hex_repr(mag), uppercase)
}

/// The word for one digit; anything above nine falls back to `zero`.
pub open spec fn digit_word(d: u8) -> Seq<char> {
    if d == 0 {
        word_zero()
    } else if d == 1 {
        word_one()
    } else if d == 2 {
        word_two()
    } else if d == 3 {
        word_three()
    } else if d == 4 {
        word_four()
    } else if d == 5 {
        word_five()
    } else if d == 6 {
        word_six()
    } else if d == 7 {
        word_seven()
    } else if d == 8 {
        word_eight()
    } else if d == 9 {
        word_nine()
    } else {
        word_zero()
    }
}

/// The space-joined words of every digit after the first rendered item.
pub open spec fn words_tail(ds: Seq<u8>) -> Seq<char>
    decreases ds.len(),
{
    if ds.len() == 0 {
        Seq::empty()
    } else {
        seq![' '] + digit_word(ds.first()) + words_tail(ds.drop_first())
    }
}

/// The word rendering: `minus` then every digit's word for a negative value,
/// the digits' words alone for a positive one.
pub open spec fn words_render(positive: bool, ds: Seq<u8>) -> Seq<char> {
    if !positive {
        word_minus() + words_tail(ds)
    } else if ds.len() == 0 {
        Seq::empty()
    } else {
        digit_word(ds.first()) + words_tail(ds.drop_first())
    }
}

// ---------------------------------------------------------------- exec

/// Appends `n` copies of the fill character.
fn repeat_push(out: &mut Vec<char>, c: char, n: usize)
    ensures
        final(out)@ == old(out)@ + repeat_char(c, n as nat),
{
    let mut i: usize = 0;
    proof {
        assert(out@ =~= old(out)@ + repeat_char(c, 0));
    }
    while i < n
        invariant
            0 <= i <= n,
            out@ == old(out)@ + repeat_char(c, i as nat),
        decreases n - i,
    {
        out.push(c);
        i = i + 1;
        proof {
            assert(out@ =~= old(out)@ + repeat_char(c, i as nat));
        }
    }
}

/// Appends every character of `v`.
fn append_chars(out: &mut Vec<char>, v: &Vec<char>)
    ensures
        final(out)@ == old(out)@ + v@,
{
    let mut i: usize = 0;
    proof {
        assert(out@ =~= old(out)@ + v@.take(0));
    }
    while i < v.len()
        invariant
            0 <= i <= v@.len(),
            out@ == old(out)@ + v@.take(i as int),
        decreases v@.len() - i,
    {
        out.push(v[i]);
        i = i + 1;
        proof {
            assert(out@ =~= old(out)@ + v@.take(i as int));
        }
    }
    proof {
        assert(v@.take(v@.len() as int) =~= v@);
    }
}

/// Pads the rendered text to the minimum width.
fn pad_chars(content: Vec<char>, width: usize, fill: char, align: TextAlign) -> (r: Vec<char>)
    ensures
        r@ == pad_text(content@, width as nat, fill, align),
{
    if content.len() >= width {
        return content;
    }
    let m = width - content.len();
    match align {
        TextAlign::Left => {
            let mut r = content;
            repeat_push(&mut r, fill, m);
            r
        },
        TextAlign::Right => {
            let mut r: Vec<char> = Vec::new();
            repeat_push(&mut r, fill, m);
            proof {
                assert(r@ =~= repeat_char(fill, m as nat));
            }
            append_chars(&mut r, &content);
            r
        },
        TextAlign::Center => {
            let left = m / 2;
            let right = m - m / 2;
            let mut r: Vec<char> = Vec::new();
            repeat_push(&mut r, fill, left);
            proof {
                assert(r@ =~= repeat_char(fill, left as nat));
            }
            append_chars(&mut r, &content);
            repeat_push(&mut r, fill, right);
            proof {
                assert(r@ =~= repeat_char(fill, (m / 2) as nat) + content@ + repeat_char(
                    fill,
                    (m - m / 2) as nat,
                ));
            }
            r
        },
    }
}

impl BigInt {
    /// The decimal rendering: sign marker (`-`, or `+` on request), the
    /// digits, and field padding.
    pub fn to_decimal_string(&self, f: &DecimalFormat) -> (r: String)
        requires
            self.wf(),
        ensures
            r@ == pad_text(
                decimal_chars(self.positive, self.numbers@, f.sign_shown),
                f.width as nat,
                f.fill,
                f.align,
            ),
    {
        let mut content: Vec<char> = Vec::new();
        if !self.positive {
            content.push('-');
        } else if f.sign_shown {
            content.push('+');
        }
        proof {
            assert(content@ =~= sign_chars(self.positive, f.sign_shown));
            assert(content@ =~= sign_chars(self.positive, f.sign_shown) + digit_chars(
                self.numbers@.take(0),
            ));
        }
        let ghost sc = sign_chars(self.positive, f.sign_shown);
        let mut i: usize = 0;
        while i < self.numbers.len()
            invariant
                0 <= i <= self.numbers@.len(),
                sc == sign_chars(self.positive, f.sign_shown),
                content@ == sc + digit_chars(self.numbers@.take(i as int)),
            decreases self.numbers@.len() - i,
        {
            content.push(digit_to_char(self.numbers[i]));
            i = i + 1;
            proof {
                assert(content@ =~= sc + digit_chars(self.numbers@.take(i as int)));
            }
        }
        proof {
            assert(self.numbers@.take(self.numbers@.len() as int) =~= self.numbers@);
        }
        let padded = pad_chars(content, f.width, f.fill, f.align);
        chars_to_string(&padded)
    }

    /// The binary rendering: sign, optional `0b` prefix, the magnitude's
    /// bits, and field padding.
    pub fn to_binary_string(&self, f: &BinaryFormat) -> (r: String)
        requires
            self.wf(),
        ensures
            r@ == pad_text(
                binary_chars(self.positive, self.mag(), f.prefix_shown),
                f.width as nat,
                f.fill,
                f.align,
            ),
    {
        let (positive, bits) = self.to_binary();
        let mut content: Vec<char> = Vec::new();
        if !positive {
            content.push('-');
        }
        if f.prefix_shown {
            content.push('0');
            content.push('b');
        }
        let ghost head = content@;
        if bits.len() == 0 {
            // Zero has no magnitude bits: what shows is its sign bit.
            proof {
                if self.mag() > 0 {
                    assert(crate::bits::bits_of(self.mag()).len() >= 1);
                }
            }
            content.push('0');
            proof {
                assert(content@ =~= head + bin_digit_chars(self.mag()));
            }
        } else {
            let mut i: usize = 0;
            proof {
                if self.mag() == 0 {
                    assert(crate::bits::bits_of(0nat) =~= Seq::<bool>::empty());
                    assert(bin_repr(0) =~= Seq::<bool>::empty());
                }
                assert(content@ =~= head + bit_chars(bits@.take(0)));
            }
            while i < bits.len()
                invariant
                    0 <= i <= bits@.len(),
                    content@ == head + bit_chars(bits@.take(i as int)),
                decreases bits@.len() - i,
            {
                content.push(
                    if bits[i] {
                        '1'
                    } else {
                        '0'
                    },
                );
                i = i + 1;
                proof {
                    assert(content@ =~= head + bit_chars(bits@.take(i as int)));
                }
            }
            proof {
                assert(bits@.take(bits@.len() as int) =~= bits@);
            }
        }
        proof {
            assert(content@ =~= binary_chars(self.positive, self.mag(), f.prefix_shown));
        }
        let padded = pad_chars(content, f.width, f.fill, f.align);
        chars_to_string(&padded)
    }

    /// The hexadecimal digits of the absolute value, most significant first,
    /// by repeated division by sixteen; zero yields no digits.
    pub fn to_hexa(&self) -> (r: Vec<u8>)
        requires
            self.wf(),
        ensures
            r@ == hex_repr(self.mag()),
    {
        let ghost m0 = self.mag();
        let mut sixteen: Vec<u8> = Vec::new();
        sixteen.push(1);
        sixteen.push(6);
        proof {
            assert(sixteen@ =~= seq![1u8, 6u8]);
            assert(sixteen@.drop_last() =~= seq![1u8]);
            lemma_dec_val_single(1);
            assert(dec_val(sixteen@) == 16);
        }
        let mut digits: Vec<u8> = Vec::new();
        let mut cur: Vec<u8> = crate::bigint::copy_digits(&self.numbers);
        proof {
            assert(digits@ + hex_of(dec_val(cur@)) =~= hex_of(m0));
        }
        while !(cur.len() == 1 && cur[0] == 0)
            invariant
                canonical(cur@),
                canonical(sixteen@),
                dec_val(sixteen@) == 16,
                digits@ + hex_of(dec_val(cur@)) == hex_of(m0),
            decreases dec_val(cur@),
        {
            proof {
                crate::bigint::lemma_canonical_zero(cur@);
            }
            let ghost cv = dec_val(cur@);
            let (q, rem) = crate::divmod::mag_divmod(&cur, &sixteen);
            proof {
                vstd::arithmetic::div_mod::lemma_fundamental_div_mod_converse(
                    cv as int,
                    16,
                    dec_val(q@) as int,
                    dec_val(rem@) as int,
                );
                if rem@.len() > 2 {
                    lemma_dec_val_lower(rem@);
                    assert(pow10(0) == 1);
                    assert(pow10(1) == 10);
                    assert(pow10(2) == 100);
                    crate::digits::lemma_pow10_increases(2, (rem@.len() - 1) as nat);
                }
                assert(dec_val(q@) < cv) by (nonlinear_arith)
                    requires
                        cv == dec_val(q@) * 16 + dec_val(rem@),
                        cv > 0,
                        dec_val(rem@) < 16,
                ;
            }
            let d: u8 = if rem.len() == 2 {
                proof {
                    assert(rem@.drop_last() =~= seq![rem@[0]]);
                    lemma_dec_val_single(rem[0]);
                }
                10 * rem[0] + rem[1]
            } else {
                proof {
                    assert(rem@ =~= seq![rem@[0]]);
                    lemma_dec_val_single(rem[0]);
                }
                rem[0]
            };
            proof {
                assert(d == dec_val(rem@));
                assert(hex_of(cv) =~= seq![d] + hex_of(dec_val(q@)));
                assert(digits@.push(d) + hex_of(dec_val(q@)) =~= digits@ + (seq![d] + hex_of(
                    dec_val(q@),
                )));
            }
            digits.push(d);
            cur = q;
        }
        proof {
            crate::bigint::lemma_canonical_zero(cur@);
            assert(hex_of(dec_val(cur@)) =~= Seq::<u8>::empty());
            assert(digits@ + Seq::<u8>::empty() =~= digits@);
            assert(digits@ == hex_of(m0));
        }
        let msb = crate::bigint::rev_digits(&digits);
        proof {
            assert(msb@ == hex_repr(m0));
        }
        msb
    }

    /// The hexadecimal rendering: sign, optional `0x` prefix, the digits in
    /// the requested case, and field padding.
    pub fn to_hex_string(&self, f: &HexFormat) -> (r: String)
        requires
            self.wf(),
        ensures
            r@ == pad_text(
                hex_string_chars(self.positive, self.mag(), f.prefix_shown, f.uppercase),
                f.width as nat,
                f.fill,
                f.align,
            ),
    {
        let hexa = self.to_hexa();
        let mut content: Vec<char> = Vec::new();
        if !self.positive {
            content.push('-');
        }
        if f.prefix_shown {
            content.push('0');
            content.push('x');
        }
        let ghost head = content@;
        let mut i: usize = 0;
        proof {
            assert(content@ =~= head + hex_chars_of(hexa@.take(0), f.uppercase));
        }
        while i < hexa.len()
            invariant
                0 <= i <= hexa@.len(),
                content@ == head + hex_chars_of(hexa@.take(i as int), f.uppercase),
            decreases hexa@.len() - i,
        {
            content.push(hex_to_char(hexa[i], f.uppercase));
            i = i + 1;
            proof {
                assert(content@ =~= head + hex_chars_of(hexa@.take(i as int), f.uppercase));
            }
        }
        proof {
            assert(hexa@.take(hexa@.len() as int) =~= hexa@);
            assert(content@ =~= hex_string_chars(
                self.positive,
                self.mag(),
                f.prefix_shown,
                f.uppercase,
            ));
        }
        let padded = pad_chars(content, f.width, f.fill, f.align);
        chars_to_string(&padded)
    }

    /// The words of the digits, space-joined, after `minus` for a negative
    /// value: the inverse-ish of the word grammar.
    pub fn to_words(&self) -> (r: String)
        requires
            self.wf(),
        ensures
            r@ == words_render(self.positive, self.numbers@),
    {
        let ghost full = words_render(self.positive, self.numbers@);
        let mut out = String::new();
        let mut i: usize = 0;
        if !self.positive {
            out.append("minus");
            proof {
                reveal_strlit("minus");
                assert("minus"@ =~= word_minus());
                assert(Seq::<char>::empty() + word_minus() =~= word_minus());
                assert(self.numbers@.skip(0) =~= self.numbers@);
            }
        } else {
            out.append(number_to_word(self.numbers[0]));
            i = 1;
            proof {
                assert(Seq::<char>::empty() + digit_word(self.numbers@[0]) =~= digit_word(
                    self.numbers@[0],
                ));
                assert(self.numbers@.first() == self.numbers@[0]);
                assert(self.numbers@.skip(1) =~= self.numbers@.drop_first());
            }
        }
        while i < self.numbers.len()
            invariant
                0 <= i <= self.numbers@.len(),
                full == words_render(self.positive, self.numbers@),
                full == out@ + words_tail(self.numbers@.skip(i as int)),
            decreases self.numbers@.len() - i,
        {
            proof {
                assert(self.numbers@.skip(i as int).first() == self.numbers@[i as int]);
                assert(self.numbers@.skip(i as int).drop_first() =~= self.numbers@.skip(i + 1));
            }
            out.append(" ");
            out.append(number_to_word(self.numbers[i]));
            i = i + 1;
            proof {
                reveal_strlit(" ");
                assert(" "@ =~= seq![' ']);
                assert(out@ + words_tail(self.numbers@.skip(i as int)) =~= full);
            }
        }
        proof {
            assert(words_tail(self.numbers@.skip(i as int)) =~= Seq::<char>::empty());
            assert(out@ + Seq::<char>::empty() =~= out@);
        }
        out
    }
}

/// The word naming one digit; anything above nine falls back to `zero`.
pub fn number_to_word(number: u8) -> (r: &'static str)
    ensures
        r@ == digit_word(number),
{
    if number == 0 {
        proof {
            reveal_strlit("zero");
            assert("zero"@ =~= word_zero());
        }
        "zero"
    } else if number == 1 {
        proof {
            reveal_strlit("one");
            assert("one"@ =~= word_one());
        }
        "one"
    } else if number == 2 {
        proof {
            reveal_strlit("two");
            assert("two"@ =~= word_two());
        }
        "two"
    } else if number == 3 {
        proof {
            reveal_strlit("three");
            assert("three"@ =~= word_three());
        }
        "three"
    } else if number == 4 {
        proof {
            reveal_strlit("four");
            assert("four"@ =~= word_four());
        }
        "four"
    } else if number == 5 {
        proof {
            reveal_strlit("five");
            assert("five"@ =~= word_five());
        }
        "five"
    } else if number == 6 {
        proof {
            reveal_strlit("six");
            assert("six"@ =~= word_six());
        }
        "six"
    } else if number == 7 {
        proof {
            reveal_strlit("seven");
            assert("seven"@ =~= word_seven());
        }
        "seven"
    } else if number == 8 {
        proof {
            reveal_strlit("eight");
            assert("eight"@ =~= word_eight());
        }
        "eight"
    } else if number == 9 {
        proof {
            reveal_strlit("nine");
            assert("nine"@ =~= word_nine());
        }
        "nine"
    } else {
        proof {
            reveal_strlit("zero");
            assert("zero"@ =~= word_zero());
        }
        "zero"
    }
}

} // verus!
