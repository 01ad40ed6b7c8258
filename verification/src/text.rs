//! Characters, digits and words: the shared vocabulary of parsing and
//! rendering, and the bridge between `&str`/`String` and character vectors.

use vstd::prelude::*;
use vstd::string::StrSliceExecFns;

verus! {

/// The decimal digit a character stands for; ten marks a character that is
/// no digit.
pub open spec fn digit_of(c: char) -> u8 {
    if c == '0' {
        0u8
    } else if c == '1' {
        1u8
    } else if c == '2' {
        2u8
    } else if c == '3' {
        3u8
    } else if c == '4' {
        4u8
    } else if c == '5' {
        5u8
    } else if c == '6' {
        6u8
    } else if c == '7' {
        7u8
    } else if c == '8' {
        8u8
    } else if c == '9' {
        9u8
    } else {
        10u8
    }
}

pub open spec fn is_digit_char(c: char) -> bool {
    digit_of(c) < 10
}

/// The character that renders a decimal digit.
pub open spec fn dec_digit_char(d: u8) -> char {
    if d == 0 {
        '0'
    } else if d == 1 {
        '1'
    } else if d == 2 {
        '2'
    } else if d == 3 {
        '3'
    } else if d == 4 {
        '4'
    } else if d == 5 {
        '5'
    } else if d == 6 {
        '6'
    } else if d == 7 {
        '7'
    } else if d == 8 {
        '8'
    } else {
        '9'
    }
}

/// The character that renders a hexadecimal digit, in the requested case.
pub open spec fn hex_digit_char(d: u8, uppercase: bool) -> char {
    if d < 10 {
        dec_digit_char(d)
    } else if d == 10 {
        if uppercase {
            'A'
        } else {
            'a'
        }
    } else if d == 11 {
        if uppercase {
            'B'
        } else {
            'b'
        }
    } else if d == 12 {
        if uppercase {
            'C'
        } else {
            'c'
        }
    } else if d == 13 {
        if uppercase {
            'D'
        } else {
            'd'
        }
    } else if d == 14 {
        if uppercase {
            'E'
        } else {
            'e'
        }
    } else {
        if uppercase {
            'F'
        } else {
            'f'
        }
    }
}

/// Whitespace, the token separators of the word grammar: the characters with
/// the Unicode `White_Space` property, the set `str::split_whitespace`
/// splits on.
pub open spec fn is_space(c: char) -> bool {
    ||| 0x9 <= c as u32 <= 0xd
    ||| c as u32 == 0x20
    ||| c as u32 == 0x85
    ||| c as u32 == 0xa0
    ||| c as u32 == 0x1680
    ||| 0x2000 <= c as u32 <= 0x200a
    ||| c as u32 == 0x2028
    ||| c as u32 == 0x2029
    ||| c as u32 == 0x202f
    ||| c as u32 == 0x205f
    ||| c as u32 == 0x3000
}

/// Case-insensitive match of a character against a lower-case letter.
pub open spec fn ci_eq(a: char, b: char) -> bool {
    a == b || (65 <= a as u32 <= 90 && a as u32 + 32 == b as u32)
}

pub fn char_to_digit(c: char) -> (r: Option<u8>)
    ensures
        (r is Some) == is_digit_char(c),
        r matches Some(d) ==> d == digit_of(c),
{
    if c == '0' {
        Some(0)
    } else if c == '1' {
        Some(1)
    } else if c == '2' {
        Some(2)
    } else if c == '3' {
        Some(3)
    } else if c == '4' {
        Some(4)
    } else if c == '5' {
        Some(5)
    } else if c == '6' {
        Some(6)
    } else if c == '7' {
        Some(7)
    } else if c == '8' {
        Some(8)
    } else if c == '9' {
        Some(9)
    } else {
        None
    }
}

pub fn digit_to_char(d: u8) -> (r: char)
    ensures
        r == dec_digit_char(d),
{
    if d == 0 {
        '0'
    } else if d == 1 {
        '1'
    } else if d == 2 {
        '2'
    } else if d == 3 {
        '3'
    } else if d == 4 {
        '4'
    } else if d == 5 {
        '5'
    } else if d == 6 {
        '6'
    } else if d == 7 {
        '7'
    } else if d == 8 {
        '8'
    } else {
        '9'
    }
}

pub fn hex_to_char(d: u8, uppercase: bool) -> (r: char)
    ensures
        r == hex_digit_char(d, uppercase),
{
    if d < 10 {
        digit_to_char(d)
    } else if d == 10 {
        if uppercase {
            'A'
        } else {
            'a'
        }
    } else if d == 11 {
        if uppercase {
            'B'
        } else {
            'b'
        }
    } else if d == 12 {
        if uppercase {
            'C'
        } else {
            'c'
        }
    } else if d == 13 {
        if uppercase {
            'D'
        } else {
            'd'
        }
    } else if d == 14 {
        if uppercase {
            'E'
        } else {
            'e'
        }
    } else {
        if uppercase {
            'F'
        } else {
            'f'
        }
    }
}

pub fn is_space_char(c: char) -> (r: bool)
    ensures
        r == is_space(c),
{
    let u = c as u32;
    (0x9 <= u && u <= 0xd) || u == 0x20 || u == 0x85 || u == 0xa0 || u == 0x1680 || (0x2000 <= u
        && u <= 0x200a) || u == 0x2028 || u == 0x2029 || u == 0x202f || u == 0x205f || u == 0x3000
}

pub fn eq_ci(a: char, b: char) -> (r: bool)
    ensures
        r == ci_eq(a, b),
{
    a == b || (65 <= a as u32 && a as u32 <= 90 && a as u32 + 32 == b as u32)
}

/// The characters of a string slice, in order.
pub fn str_to_chars(s: &str) -> (r: Vec<char>)
    ensures
        r@ == s@,
{
    let n = s.unicode_len();
    let mut r: Vec<char> = Vec::new();
    let mut i: usize = 0;
    while i < n
        invariant
            0 <= i <= n,
            n == s@.len(),
            r@ =~= s@.take(i as int),
        decreases n - i,
    {
        r.push(s.get_char(i));
        i = i + 1;
        proof {
            assert(r@ =~= s@.take(i as int));
        }
    }
    proof {
        assert(r@ =~= s@);
    }
    r
}

/// Relies on `String::push`: appends the one character at the end of the
/// string; vstd gives `push` no specification of its own.
#[verifier::external_body]
fn push_char(s: &mut String, c: char)
    ensures
        final(s)@ == old(s)@.push(c),
{
    s.push(c);
}

/// A string holding exactly the given characters.
pub fn chars_to_string(v: &Vec<char>) -> (r: String)
    ensures
        r@ == v@,
{
    let mut r = String::new();
    let mut i: usize = 0;
    while i < v.len()
        invariant
            0 <= i <= v.len(),
            r@ =~= v@.take(i as int),
        decreases v.len() - i,
    {
        push_char(&mut r, v[i]);
        i = i + 1;
        proof {
            assert(r@ =~= v@.take(i as int));
        }
    }
    proof {
        assert(r@ =~= v@);
    }
    r
}

} // verus!
