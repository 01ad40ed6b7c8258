//! Parsing: the decimal digit grammar and the English digit-word grammar.
//!
//! The digit grammar is an optional leading `-` followed by one or more ASCII
//! digits and nothing else; `-0` parses to zero.  When the input does not
//! match it, the whole original input falls back to the word grammar:
//! whitespace-separated tokens, the first of which may be the sign token `-`
//! or `minus`, the rest one digit word `zero`..`nine` each, matched without
//! regard to letter case; at least one digit word is required.  Anything
//! outside the two grammars is the one parse error, "not a number".

use vstd::prelude::*;
use crate::bigint::{BigInt, BigIntError};
use crate::digits::{dec_val, digits_ok};
use crate::text::{
    char_to_digit, ci_eq, digit_of, eq_ci, is_digit_char, is_space, is_space_char, str_to_chars,
};

verus! {

/// The signed value of a sign flag and a digit sequence.
pub open spec fn signed_of(positive: bool, ds: Seq<u8>) -> int {
    if positive {
        dec_val(ds) as int
    } else {
        -(dec_val(ds) as int)
    }
}

// ---------------------------------------------------------------- digits

pub open spec fn all_digit_chars(s: Seq<char>) -> bool {
    forall|i: int| 0 <= i < s.len() ==> is_digit_char(s[i])
}

pub open spec fn digit_seq_of(s: Seq<char>) -> Seq<u8> {
    s.map_values(|c: char| digit_of(c))
}

/// Whether the input matches the digit grammar: an optional leading `-`,
/// then one or more ASCII digits.
pub open spec fn matches_digit_grammar(s: Seq<char>) -> bool {
    if s.len() == 0 {
        false
    } else if s[0] == '-' {
        s.len() >= 2 && all_digit_chars(s.skip(1))
    } else {
        all_digit_chars(s)
    }
}

// ---------------------------------------------------------------- words

/// The length of the leading run of non-whitespace characters.
pub open spec fn token_len(s: Seq<char>) -> nat
    decreases s.len(),
{
    if s.len() == 0 || is_space(s[0]) {
        0
    } else {
        1 + token_len(s.drop_first())
    }
}

/// The whitespace-separated tokens of the input, in order.
pub open spec fn split_ws(s: Seq<char>) -> Seq<Seq<char>>
    decreases s.len(),
    via split_ws_decreases
{
    if s.len() == 0 {
        Seq::empty()
    } else if is_space(s[0]) {
        split_ws(s.drop_first())
    } else {
        seq![s.take(token_len(s) as int)] + split_ws(s.skip(token_len(s) as int))
    }
}

/// A token never runs past the end of the input.
pub proof fn lemma_token_len_le(s: Seq<char>)
    ensures
        token_len(s) <= s.len(),
    decreases s.len(),
{
    if s.len() > 0 && !is_space(s[0]) {
        lemma_token_len_le(s.drop_first());
    }
}

#[via_fn]
proof fn split_ws_decreases(s: Seq<char>) {
    if s.len() > 0 && !is_space(s[0]) {
        assert(token_len(s) == 1 + token_len(s.drop_first()));
        lemma_token_len_le(s);
    }
}

/// A case-insensitive match of a token against a lower-case word.
pub open spec fn ci_match(t: Seq<char>, w: Seq<char>) -> bool {
    t.len() == w.len() && forall|i: int| 0 <= i < t.len() ==> ci_eq(t[i], w[i])
}

pub open spec fn word_zero() -> Seq<char> {
    seq!['z', 'e', 'r', 'o']
}

pub open spec fn word_one() -> Seq<char> {
    seq!['o', 'n', 'e']
}

pub open spec fn word_two() -> Seq<char> {
    seq!['t', 'w', 'o']
}

pub open spec fn word_three() -> Seq<char> {
    seq!['t', 'h', 'r', 'e', 'e']
}

pub open spec fn word_four() -> Seq<char> {
    seq!['f', 'o', 'u', 'r']
}

pub open spec fn word_five() -> Seq<char> {
    seq!['f', 'i', 'v', 'e']
}

pub open spec fn word_six() -> Seq<char> {
    seq!['s', 'i', 'x']
}

pub open spec fn word_seven() -> Seq<char> {
    seq!['s', 'e', 'v', 'e', 'n']
}

pub open spec fn word_eight() -> Seq<char> {
    seq!['e', 'i', 'g', 'h', 't']
}

pub open spec fn word_nine() -> Seq<char> {
    seq!['n', 'i', 'n', 'e']
}

pub open spec fn word_minus() -> Seq<char> {
    seq!['m', 'i', 'n', 'u', 's']
}

/// The digit a token names; ten marks a token that names none.
pub open spec fn word_digit_of(t: Seq<char>) -> u8 {
    if ci_match(t, word_zero()) {
        0u8
    } else if ci_match(t, word_one()) {
        1u8
    } else if ci_match(t, word_two()) {
        2u8
    } else if ci_match(t, word_three()) {
        3u8
    } else if ci_match(t, word_four()) {
        4u8
    } else if ci_match(t, word_five()) {
        5u8
    } else if ci_match(t, word_six()) {
        6u8
    } else if ci_match(t, word_seven()) {
        7u8
    } else if ci_match(t, word_eight()) {
        8u8
    } else if ci_match(t, word_nine()) {
        9u8
    } else {
        10u8
    }
}

pub open spec fn is_word_digit(t: Seq<char>) -> bool {
    word_digit_of(t) < 10
}

/// The sign token: a bare `-` or the word `minus`, first token only.
pub open spec fn is_sign_token(t: Seq<char>) -> bool {
    t == seq!['-'] || ci_match(t, word_minus())
}

/// Whether every token of a sequence is a digit word.
pub open spec fn all_word_digits(ds: Seq<Seq<char>>) -> bool {
    forall|i: int| 0 <= i < ds.len() ==> is_word_digit(#[trigger] ds[i])
}

/// What the word grammar makes of the input: a sign and the digits, or
/// nothing.
pub open spec fn words_parse(s: Seq<char>) -> Option<(bool, Seq<u8>)> {
    let ts = split_ws(s);
    if ts.len() == 0 {
        None
    } else {
        let positive = !is_sign_token(ts[0]);
        let ds = if positive {
            ts
        } else {
            ts.skip(1)
        };
        if ds.len() >= 1 && all_word_digits(ds) {
            Some((positive, ds.map_values(|t: Seq<char>| word_digit_of(t))))
        } else {
            None
        }
    }
}

/// What parsing makes of the input: the digit grammar where it matches, the
/// word grammar on the whole input otherwise.
pub open spec fn parse_result(s: Seq<char>) -> Option<(bool, Seq<u8>)> {
    if matches_digit_grammar(s) {
        if s[0] == '-' {
            Some((false, digit_seq_of(s.skip(1))))
        } else {
            Some((true, digit_seq_of(s)))
        }
    } else {
        words_parse(s)
    }
}

// ---------------------------------------------------------------- exec

/// Case-insensitive comparison against a three-letter word.
fn match_ci3(t: &Vec<char>, c0: char, c1: char, c2: char) -> (r: bool)
    ensures
        r == ci_match(t@, seq![c0, c1, c2]),
{
    let r = t.len() == 3 && eq_ci(t[0], c0) && eq_ci(t[1], c1) && eq_ci(t[2], c2);
    proof {
        let w = seq![c0, c1, c2];
        if r {
            assert forall|i: int| 0 <= i < t@.len() implies ci_eq(t@[i], w[i]) by {
                if i == 0 {
                    assert(w[0] == c0);
                } else if i == 1 {
                    assert(w[1] == c1);
                } else {
                    assert(w[2] == c2);
                }
            }
        } else if t@.len() == w.len() && ci_match(t@, w) {
            assert(ci_eq(t@[0], w[0]) && ci_eq(t@[1], w[1]) && ci_eq(t@[2], w[2]));
            assert(false);
        }
    }
    r
}

/// Case-insensitive comparison against a four-letter word.
fn match_ci4(t: &Vec<char>, c0: char, c1: char, c2: char, c3: char) -> (r: bool)
    ensures
        r == ci_match(t@, seq![c0, c1, c2, c3]),
{
    let r = t.len() == 4 && eq_ci(t[0], c0) && eq_ci(t[1], c1) && eq_ci(t[2], c2) && eq_ci(
        t[3],
        c3,
    );
    proof {
        let w = seq![c0, c1, c2, c3];
        if r {
            assert forall|i: int| 0 <= i < t@.len() implies ci_eq(t@[i], w[i]) by {
                if i == 0 {
                    assert(w[0] == c0);
                } else if i == 1 {
                    assert(w[1] == c1);
                } else if i == 2 {
                    assert(w[2] == c2);
                } else {
                    assert(w[3] == c3);
                }
            }
        } else if t@.len() == w.len() && ci_match(t@, w) {
            assert(ci_eq(t@[0], w[0]) && ci_eq(t@[1], w[1]) && ci_eq(t@[2], w[2]) && ci_eq(
                t@[3],
                w[3],
            ));
            assert(false);
        }
    }
    r
}

/// Case-insensitive comparison against a five-letter word.
fn match_ci5(t: &Vec<char>, c0: char, c1: char, c2: char, c3: char, c4: char) -> (r: bool)
    ensures
        r == ci_match(t@, seq![c0, c1, c2, c3, c4]),
{
    let r = t.len() == 5 && eq_ci(t[0], c0) && eq_ci(t[1], c1) && eq_ci(t[2], c2) && eq_ci(t[3], c3)
        && eq_ci(t[4], c4);
    proof {
        let w = seq![c0, c1, c2, c3, c4];
        if r {
            assert forall|i: int| 0 <= i < t@.len() implies ci_eq(t@[i], w[i]) by {
                if i == 0 {
                    assert(w[0] == c0);
                } else if i == 1 {
                    assert(w[1] == c1);
                } else if i == 2 {
                    assert(w[2] == c2);
                } else if i == 3 {
                    assert(w[3] == c3);
                } else {
                    assert(w[4] == c4);
                }
            }
        } else if t@.len() == w.len() && ci_match(t@, w) {
            assert(ci_eq(t@[0], w[0]) && ci_eq(t@[1], w[1]) && ci_eq(t@[2], w[2]) && ci_eq(
                t@[3],
                w[3],
            ) && ci_eq(t@[4], w[4]));
            assert(false);
        }
    }
    r
}

/// The digit a token names, or the parse error.
pub fn word_to_number(t: &Vec<char>) -> (r: Result<u8, BigIntError>)
    ensures
        (r is Ok) == is_word_digit(t@),
        r matches Ok(d) ==> d == word_digit_of(t@),
        r matches Err(e) ==> e == BigIntError::NotANumber,
{
    if match_ci4(t, 'z', 'e', 'r', 'o') {
        Ok(0)
    } else if match_ci3(t, 'o', 'n', 'e') {
        Ok(1)
    } else if match_ci3(t, 't', 'w', 'o') {
        Ok(2)
    } else if match_ci5(t, 't', 'h', 'r', 'e', 'e') {
        Ok(3)
    } else if match_ci4(t, 'f', 'o', 'u', 'r') {
        Ok(4)
    } else if match_ci4(t, 'f', 'i', 'v', 'e') {
        Ok(5)
    } else if match_ci3(t, 's', 'i', 'x') {
        Ok(6)
    } else if match_ci5(t, 's', 'e', 'v', 'e', 'n') {
        Ok(7)
    } else if match_ci5(t, 'e', 'i', 'g', 'h', 't') {
        Ok(8)
    } else if match_ci4(t, 'n', 'i', 'n', 'e') {
        Ok(9)
    } else {
        Err(BigIntError::NotANumber)
    }
}

/// Whether a token is the sign token.
fn is_sign_tok(t: &Vec<char>) -> (r: bool)
    ensures
        r == is_sign_token(t@),
{
    let dash = t.len() == 1 && t[0] == '-';
    proof {
        if dash {
            assert(t@ =~= seq!['-']);
        } else if t@ == seq!['-'] {
            assert(t@.len() == 1 && t@[0] == '-');
        }
    }
    dash || match_ci5(t, 'm', 'i', 'n', 'u', 's')
}

/// The views of a sequence of character vectors.
pub open spec fn views_of(ts: Seq<Vec<char>>) -> Seq<Seq<char>> {
    ts.map_values(|t: Vec<char>| t@)
}

/// Splits the input into its whitespace-separated tokens.
fn tokenize(chars: &Vec<char>) -> (r: Vec<Vec<char>>)
    ensures
        views_of(r@) == split_ws(chars@),
{
    let s = chars;
    let mut toks: Vec<Vec<char>> = Vec::new();
    let mut i: usize = 0;
    proof {
        assert(s@.skip(0) =~= s@);
        assert(views_of(toks@) =~= Seq::<Seq<char>>::empty());
        assert(Seq::<Seq<char>>::empty() + split_ws(s@) =~= split_ws(s@));
    }
    while i < s.len()
        invariant
            0 <= i <= s@.len(),
            split_ws(s@) == views_of(toks@) + split_ws(s@.skip(i as int)),
        decreases s@.len() - i,
    {
        if is_space_char(s[i]) {
            proof {
                assert(s@.skip(i as int).first() == s@[i as int]);
                assert(s@.skip(i as int).drop_first() =~= s@.skip(i + 1));
            }
            i = i + 1;
        } else {
            let ghost rest = s@.skip(i as int);
            let start = i;
            let mut tok: Vec<char> = Vec::new();
            proof {
                assert(tok@ =~= s@.subrange(start as int, i as int));
            }
            while i < s.len() && !is_space_char(s[i])
                invariant
                    start <= i <= s@.len(),
                    rest == s@.skip(start as int),
                    tok@ == s@.subrange(start as int, i as int),
                    token_len(rest) == (i - start) + token_len(s@.skip(i as int)),
                decreases s@.len() - i,
            {
                proof {
                    assert(s@.skip(i as int).first() == s@[i as int]);
                    assert(s@.skip(i as int).drop_first() =~= s@.skip(i + 1));
                    assert(token_len(s@.skip(i as int)) == 1 + token_len(s@.skip(i + 1)));
                }
                tok.push(s[i]);
                i = i + 1;
                proof {
                    assert(tok@ =~= s@.subrange(start as int, i as int));
                }
            }
            proof {
                if i < s@.len() {
                    assert(s@.skip(i as int).first() == s@[i as int]);
                    assert(token_len(s@.skip(i as int)) == 0);
                } else {
                    assert(s@.skip(i as int).len() == 0);
                    assert(token_len(s@.skip(i as int)) == 0);
                }
                let tl = token_len(rest) as int;
                assert(tl == i - start);
                assert(!is_space(rest[0]));
                assert(split_ws(rest) == seq![rest.take(tl)] + split_ws(rest.skip(tl)));
                assert(rest.take(tl) =~= s@.subrange(start as int, i as int));
                assert(rest.skip(tl) =~= s@.skip(i as int));
                assert(views_of(toks@.push(tok)) =~= views_of(toks@) + seq![tok@]);
                assert(views_of(toks@) + (seq![tok@] + split_ws(s@.skip(i as int))) =~= (views_of(
                    toks@,
                ) + seq![tok@]) + split_ws(s@.skip(i as int)));
            }
            toks.push(tok);
        }
    }
    proof {
        assert(s@.skip(i as int).len() == 0);
        assert(split_ws(s@.skip(i as int)) =~= Seq::<Seq<char>>::empty());
        assert(views_of(toks@) + Seq::<Seq<char>>::empty() =~= views_of(toks@));
    }
    toks
}

impl BigInt {
    /// Parses the word grammar: an optional leading sign token, then one
    /// digit word per digit, left to right.
    pub fn parse_word_digits(chars: &Vec<char>) -> (r: Result<BigInt, BigIntError>)
        ensures
            (r is Ok) == (words_parse(chars@) is Some),
            r matches Ok(v) ==> v.wf() && (words_parse(chars@) matches Some(pr) && v.as_int()
                == signed_of(pr.0, pr.1)),
            r matches Err(e) ==> e == BigIntError::NotANumber,
    {
        let tokens = tokenize(chars);
        let ghost ts = split_ws(chars@);
        if tokens.len() == 0 {
            return Err(BigIntError::NotANumber);
        }
        let negative = is_sign_tok(&tokens[0]);
        let idx0: usize = if negative {
            1
        } else {
            0
        };
        let ghost ds = if negative {
            ts.skip(1)
        } else {
            ts
        };
        proof {
            assert(forall|j: int| 0 <= j < ds.len() ==> ds[j] == ts[j + idx0]);
        }
        let mut digits: Vec<u8> = Vec::new();
        let mut i: usize = idx0;
        while i < tokens.len()
            invariant
                idx0 <= i <= tokens@.len(),
                idx0 <= 1,
                tokens@.len() >= 1,
                views_of(tokens@) == ts,
                ts == split_ws(chars@),
                negative == is_sign_token(ts[0]),
                idx0 == if negative {
                    1int
                } else {
                    0int
                },
                ds == if negative {
                    ts.skip(1)
                } else {
                    ts
                },
                ds.len() == ts.len() - idx0,
                forall|j: int| 0 <= j < ds.len() ==> ds[j] == ts[j + idx0],
                digits@.len() == i - idx0,
                forall|j: int| 0 <= j < i - idx0 ==> is_word_digit(#[trigger] ds[j]),
                forall|j: int| 0 <= j < i - idx0 ==> #[trigger] digits@[j] == word_digit_of(ds[j]),
            decreases tokens@.len() - i,
        {
            proof {
                assert(views_of(tokens@)[i as int] == tokens@[i as int]@);
                assert(tokens@[i as int]@ == ts[i as int]);
                assert(ds[i - idx0] == ts[i as int]);
            }
            let ghost dold = digits@;
            match word_to_number(&tokens[i]) {
                Ok(d) => {
                    digits.push(d);
                    i = i + 1;
                    proof {
                        assert(digits@ == dold.push(d));
                        assert forall|j: int| 0 <= j < i - idx0 implies is_word_digit(
                            #[trigger] ds[j],
                        ) by {
                            if j == i - 1 - idx0 {
                                assert(ds[j] == ts[i - 1]);
                            }
                        }
                        assert forall|j: int| 0 <= j < i - idx0 implies #[trigger] digits@[j]
                            == word_digit_of(ds[j]) by {
                            if j == i - 1 - idx0 {
                                assert(digits@[j] == d);
                                assert(ds[j] == ts[i - 1]);
                            } else {
                                assert(digits@[j] == dold[j]);
                            }
                        }
                    }
                },
                Err(_) => {
                    proof {
                        assert(!is_word_digit(ds[i - idx0]));
                        assert(0 <= i - idx0 < ds.len());
                        assert(!all_word_digits(ds));
                        assert(words_parse(chars@) is None);
                    }
                    return Err(BigIntError::NotANumber);
                },
            }
        }
        if digits.len() == 0 {
            return Err(BigIntError::NotANumber);
        }
        proof {
            assert(all_word_digits(ds));
            assert(digits@ =~= ds.map_values(|t: Seq<char>| word_digit_of(t)));
            assert(digits_ok(digits@));
        }
        Ok(BigInt::from_sign_digits(!negative, digits))
    }

    /// Parses the digit grammar, falling back to the word grammar on the
    /// whole original input when a character outside it appears.
    pub fn from_str(s: &str) -> (r: Result<BigInt, BigIntError>)
        ensures
            (r is Ok) == (parse_result(s@) is Some),
            r matches Ok(v) ==> v.wf() && (parse_result(s@) matches Some(pr) && v.as_int()
                == signed_of(pr.0, pr.1)),
            r matches Err(e) ==> e == BigIntError::NotANumber,
    {
        let chars = str_to_chars(s);
        if chars.len() == 0 {
            proof {
                assert(split_ws(chars@) =~= Seq::<Seq<char>>::empty());
            }
            return Err(BigIntError::NotANumber);
        }
        let negative = chars[0] == '-';
        let start: usize = if negative {
            1
        } else {
            0
        };
        if chars.len() == start {
            // A bare sign: outside the digit grammar, and the word grammar
            // rejects it as well.
            return BigInt::parse_word_digits(&chars);
        }
        let mut digits: Vec<u8> = Vec::new();
        let mut i: usize = start;
        proof {
            assert(digits@ =~= digit_seq_of(chars@.subrange(start as int, i as int)));
        }
        while i < chars.len()
            invariant
                start <= i <= chars@.len(),
                chars@ == s@,
                start == if negative {
                    1int
                } else {
                    0int
                },
                negative == (chars@[0] == '-'),
                chars@.len() > start,
                digits@ == digit_seq_of(chars@.subrange(start as int, i as int)),
                forall|j: int| start <= j < i ==> is_digit_char(chars@[j]),
            decreases chars@.len() - i,
        {
            match char_to_digit(chars[i]) {
                Some(d) => {
                    proof {
                        assert(chars@.subrange(start as int, i + 1) =~= chars@.subrange(
                            start as int,
                            i as int,
                        ).push(chars@[i as int]));
                        assert(digits@.push(d) =~= digit_seq_of(chars@.subrange(start as int, i + 1)));
                    }
                    digits.push(d);
                    i = i + 1;
                },
                None => {
                    proof {
                        if negative {
                            assert(chars@.skip(1)[i - 1] == chars@[i as int]);
                            assert(!all_digit_chars(chars@.skip(1)));
                        }
                        assert(!matches_digit_grammar(chars@));
                    }
                    return BigInt::parse_word_digits(&chars);
                },
            }
        }
        proof {
            if negative {
                assert forall|j: int| 0 <= j < chars@.skip(1).len() implies is_digit_char(
                    chars@.skip(1)[j],
                ) by {
                    assert(chars@.skip(1)[j] == chars@[j + 1]);
                }
                assert(chars@.subrange(1, chars@.len() as int) =~= chars@.skip(1));
            } else {
                assert(chars@.subrange(0, chars@.len() as int) =~= chars@);
            }
            assert(matches_digit_grammar(chars@));
            assert(digits_ok(digits@));
        }
        Ok(BigInt::from_sign_digits(!negative, digits))
    }
}

} // verus!
