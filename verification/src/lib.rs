//! An arbitrary-precision signed integer ("big integer") with value semantics.
//!
//! A value is a sign together with a sequence of decimal digits, most
//! significant first, kept in a canonical form: no leading zeroes, and zero
//! itself is the single digit `0` with a positive sign.  On top of that
//! representation the crate provides parsing from decimal strings and from
//! English digit words, schoolbook arithmetic (add, sub, mul, div, rem, pow),
//! a total order, bitwise operations through a transient sign-and-magnitude
//! binary encoding, and rendering in decimal, binary and hexadecimal with
//! field-width, fill and alignment options.
//!
//! Every operation states its behaviour against the mathematical value of its
//! operands (`as_int`), and the stated laws are proved in `laws`.

pub use bigint::{BigInt, BigIntError};
pub use render::{BinaryFormat, DecimalFormat, HexFormat, TextAlign};

pub mod arith;
pub mod bigint;
pub mod bits;
pub mod cmp_ops;
pub mod convert;
pub mod digits;
pub mod divmod;
pub mod laws;
pub mod parse;
pub mod render;
pub mod text;
