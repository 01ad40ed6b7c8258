//! Conversions between native integers and big integers.
//!
//! From a native value: repeated division by ten collects the digits, least
//! significant first, and never fails.  To a native value: the digits are
//! folded back together, and the conversion fails with an overflow error
//! exactly when the magnitude does not fit the target type's range; an
//! unsigned target receives the magnitude, a signed one the signed value.

use vstd::prelude::*;
use crate::bigint::{rev_digits, BigInt, BigIntError};
use crate::digits::{
    dec_val, digits_ok, lemma_dec_val_prefix_le, lemma_dec_val_take_succ, lemma_lsb_is_rev,
    lemma_lsb_push, lsb_val, pow10,
};

verus! {

impl BigInt {
    /// Builds the value of a native unsigned integer.
    pub fn from_u128(n: u128) -> (r: BigInt)
        ensures
            r.wf(),
            r.as_int() == n as int,
    {
        let mut digits: Vec<u8> = Vec::new();
        let mut rem: u128 = n;
        proof {
            assert(lsb_val(Seq::<u8>::empty()) == 0);
            assert(pow10(0) == 1);
        }
        while rem > 0
            invariant
                digits_ok(digits@),
                lsb_val(digits@) + (rem as nat) * pow10(digits@.len()) == n as nat,
            decreases rem,
        {
            let d = (rem % 10) as u8;
            let r2 = rem / 10;
            proof {
                lemma_lsb_push(digits@, d);
                assert(pow10(digits@.len() + 1) == 10 * pow10(digits@.len()));
                assert(lsb_val(digits@.push(d)) + (r2 as nat) * pow10(digits@.len() + 1)
                    == n as nat) by (nonlinear_arith)
                    requires
                        lsb_val(digits@.push(d)) == lsb_val(digits@) + (d as nat) * pow10(
                            digits@.len(),
                        ),
                        pow10(digits@.len() + 1) == 10 * pow10(digits@.len()),
                        lsb_val(digits@) + (rem as nat) * pow10(digits@.len()) == n as nat,
                        (rem as int) == 10 * (r2 as int) + (d as int),
                ;
            }
            digits.push(d);
            rem = r2;
        }
        let msb = rev_digits(&digits);
        proof {
            lemma_lsb_is_rev(digits@);
            assert(digits_ok(msb@));
        }
        BigInt::from_sign_digits(true, msb)
    }

    /// Builds the value of a native signed integer; the sign is the input's,
    /// and zero comes out canonical.
    pub fn from_i128(n: i128) -> (r: BigInt)
        ensures
            r.wf(),
            r.as_int() == n as int,
    {
        if n >= 0 {
            BigInt::from_u128(n as u128)
        } else {
            let mag: u128 = ((-(n + 1)) as u128) + 1;
            let v = BigInt::from_u128(mag);
            v.neg()
        }
    }

    /// The magnitude as a native `u128`, or an overflow error when it does
    /// not fit.
    pub fn mag_to_u128(&self) -> (r: Result<u128, BigIntError>)
        requires
            self.wf(),
        ensures
            (r is Ok) == (self.mag() <= u128::MAX),
            r matches Ok(v) ==> v as nat == self.mag(),
            r matches Err(e) ==> e == BigIntError::ConversionOverflow,
    {
        let mut acc: u128 = 0;
        let mut i: usize = 0;
        proof {
            assert(self.numbers@.take(0) =~= Seq::<u8>::empty());
            assert(dec_val(Seq::<u8>::empty()) == 0);
        }
        while i < self.numbers.len()
            invariant
                0 <= i <= self.numbers@.len(),
                self.wf(),
                acc as nat == dec_val(self.numbers@.take(i as int)),
            decreases self.numbers@.len() - i,
        {
            let d = self.numbers[i];
            proof {
                lemma_dec_val_take_succ(self.numbers@, i as int);
            }
            if acc > (u128::MAX - d as u128) / 10 {
                proof {
                    let q = ((u128::MAX - d as u128) / 10) as int;
                    vstd::arithmetic::div_mod::lemma_fundamental_div_mod(
                        u128::MAX as int - d as int,
                        10,
                    );
                    assert(acc as int * 10 > u128::MAX as int - d as int) by (nonlinear_arith)
                        requires
                            acc as int >= q + 1,
                            u128::MAX as int - d as int == 10 * q + (u128::MAX as int - d as int)
                                % 10,
                            0 <= (u128::MAX as int - d as int) % 10 < 10,
                    ;
                    lemma_dec_val_prefix_le(self.numbers@, i as int + 1);
                }
                return Err(BigIntError::ConversionOverflow);
            }
            proof {
                let q = ((u128::MAX - d as u128) / 10) as int;
                vstd::arithmetic::div_mod::lemma_fundamental_div_mod(
                    u128::MAX as int - d as int,
                    10,
                );
                assert(acc as int * 10 <= u128::MAX as int - d as int) by (nonlinear_arith)
                    requires
                        acc as int <= q,
                        u128::MAX as int - d as int == 10 * q + (u128::MAX as int - d as int) % 10,
                        0 <= (u128::MAX as int - d as int) % 10 < 10,
                ;
            }
            acc = acc * 10 + d as u128;
            i = i + 1;
        }
        proof {
            assert(self.numbers@.take(self.numbers@.len() as int) =~= self.numbers@);
        }
        Ok(acc)
    }

    /// The magnitude as a `u128`.
    pub fn try_into_u128(&self) -> (r: Result<u128, BigIntError>)
        requires
            self.wf(),
        ensures
            (r is Ok) == (self.mag() <= u128::MAX),
            r matches Ok(v) ==> v as nat == self.mag(),
            r matches Err(e) ==> e == BigIntError::ConversionOverflow,
    {
        self.mag_to_u128()
    }

    /// The signed value as an `i128`; fails when the magnitude exceeds
    /// `i128::MAX`.
    pub fn try_into_i128(&self) -> (r: Result<i128, BigIntError>)
        requires
            self.wf(),
        ensures
            (r is Ok) == (self.mag() <= i128::MAX),
            r matches Ok(v) ==> v as int == self.as_int(),
            r matches Err(e) ==> e == BigIntError::ConversionOverflow,
    {
        match self.mag_to_u128() {
            Ok(v) => {
                if v <= i128::MAX as u128 {
                    let m = v as i128;
                    if self.positive {
                        Ok(m)
                    } else {
                        Ok(-m)
                    }
                } else {
                    Err(BigIntError::ConversionOverflow)
                }
            },
            Err(e) => Err(e),
        }
    }

    /// The magnitude as a `u64`.
    pub fn try_into_u64(&self) -> (r: Result<u64, BigIntError>)
        requires
            self.wf(),
        ensures
            (r is Ok) == (self.mag() <= u64::MAX),
            r matches Ok(v) ==> v as nat == self.mag(),
            r matches Err(e) ==> e == BigIntError::ConversionOverflow,
    {
        match self.mag_to_u128() {
            Ok(v) => {
                if v <= u64::MAX as u128 {
                    Ok(v as u64)
                } else {
                    Err(BigIntError::ConversionOverflow)
                }
            },
            Err(e) => Err(e),
        }
    }

    /// The signed value as an `i64`; fails when the magnitude exceeds
    /// `i64::MAX`.
    pub fn try_into_i64(&self) -> (r: Result<i64, BigIntError>)
        requires
            self.wf(),
        ensures
            (r is Ok) == (self.mag() <= i64::MAX),
            r matches Ok(v) ==> v as int == self.as_int(),
            r matches Err(e) ==> e == BigIntError::ConversionOverflow,
    {
        match self.mag_to_u128() {
            Ok(v) => {
                if v <= i64::MAX as u128 {
                    let m = v as i64;
                    if self.positive {
                        Ok(m)
                    } else {
                        Ok(-m)
                    }
                } else {
                    Err(BigIntError::ConversionOverflow)
                }
            },
            Err(e) => Err(e),
        }
    }

    /// The magnitude as a `u32`.
    pub fn try_into_u32(&self) -> (r: Result<u32, BigIntError>)
        requires
            self.wf(),
        ensures
            (r is Ok) == (self.mag() <= u32::MAX),
            r matches Ok(v) ==> v as nat == self.mag(),
            r matches Err(e) ==> e == BigIntError::ConversionOverflow,
    {
        match self.mag_to_u128() {
            Ok(v) => {
                if v <= u32::MAX as u128 {
                    Ok(v as u32)
                } else {
                    Err(BigIntError::ConversionOverflow)
                }
            },
            Err(e) => Err(e),
        }
    }

    /// The signed value as an `i32`; fails when the magnitude exceeds
    /// `i32::MAX`.
    pub fn try_into_i32(&self) -> (r: Result<i32, BigIntError>)
        requires
            self.wf(),
        ensures
            (r is Ok) == (self.mag() <= i32::MAX),
            r matches Ok(v) ==> v as int == self.as_int(),
            r matches Err(e) ==> e == BigIntError::ConversionOverflow,
    {
        match self.mag_to_u128() {
            Ok(v) => {
                if v <= i32::MAX as u128 {
                    let m = v as i32;
                    if self.positive {
                        Ok(m)
                    } else {
                        Ok(-m)
                    }
                } else {
                    Err(BigIntError::ConversionOverflow)
                }
            },
            Err(e) => Err(e),
        }
    }

    /// The magnitude as a `u16`.
    pub fn try_into_u16(&self) -> (r: Result<u16, BigIntError>)
        requires
            self.wf(),
        ensures
            (r is Ok) == (self.mag() <= u16::MAX),
            r matches Ok(v) ==> v as nat == self.mag(),
            r matches Err(e) ==> e == BigIntError::ConversionOverflow,
    {
        match self.mag_to_u128() {
            Ok(v) => {
                if v <= u16::MAX as u128 {
                    Ok(v as u16)
                } else {
                    Err(BigIntError::ConversionOverflow)
                }
            },
            Err(e) => Err(e),
        }
    }

    /// The signed value as an `i16`; fails when the magnitude exceeds
    /// `i16::MAX`.
    pub fn try_into_i16(&self) -> (r: Result<i16, BigIntError>)
        requires
            self.wf(),
        ensures
            (r is Ok) == (self.mag() <= i16::MAX),
            r matches Ok(v) ==> v as int == self.as_int(),
            r matches Err(e) ==> e == BigIntError::ConversionOverflow,
    {
        match self.mag_to_u128() {
            Ok(v) => {
                if v <= i16::MAX as u128 {
                    let m = v as i16;
                    if self.positive {
                        Ok(m)
                    } else {
                        Ok(-m)
                    }
                } else {
                    Err(BigIntError::ConversionOverflow)
                }
            },
            Err(e) => Err(e),
        }
    }

    /// The magnitude as a `u8`.
    pub fn try_into_u8(&self) -> (r: Result<u8, BigIntError>)
        requires
            self.wf(),
        ensures
            (r is Ok) == (self.mag() <= u8::MAX),
            r matches Ok(v) ==> v as nat == self.mag(),
            r matches Err(e) ==> e == BigIntError::ConversionOverflow,
    {
        match self.mag_to_u128() {
            Ok(v) => {
                if v <= u8::MAX as u128 {
                    Ok(v as u8)
                } else {
                    Err(BigIntError::ConversionOverflow)
                }
            },
            Err(e) => Err(e),
        }
    }

    /// The signed value as an `i8`; fails when the magnitude exceeds
    /// `i8::MAX`.
    pub fn try_into_i8(&self) -> (r: Result<i8, BigIntError>)
        requires
            self.wf(),
        ensures
            (r is Ok) == (self.mag() <= i8::MAX),
            r matches Ok(v) ==> v as int == self.as_int(),
            r matches Err(e) ==> e == BigIntError::ConversionOverflow,
    {
        match self.mag_to_u128() {
            Ok(v) => {
                if v <= i8::MAX as u128 {
                    let m = v as i8;
                    if self.positive {
                        Ok(m)
                    } else {
                        Ok(-m)
                    }
                } else {
                    Err(BigIntError::ConversionOverflow)
                }
            },
            Err(e) => Err(e),
        }
    }
}

} // verus!
