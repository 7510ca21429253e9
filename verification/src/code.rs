//! Weights as codes.
//!
//! A weight comes as a 64-bit pattern: a sign bit, and below it 63 bits that
//! give the magnitude, where a greater pattern is a greater magnitude. The
//! patterns whose magnitude is above that of the infinities stand for no
//! number. The two zeros, one of each sign, are one number.
//!
//! The code of a pattern is an unsigned integer, and the order of the codes
//! is the order of the numbers: a negative number is below zero and lower the
//! greater its magnitude, a positive one is above zero and higher the greater
//! its magnitude. What stands for no number has the greatest code of all and
//! so ranks above every number.
use vstd::prelude::*;

verus! {

/// The sign bit of a pattern.
pub const SIGN: u64 = 0x8000_0000_0000_0000;

/// The magnitude of the infinities.
pub const INFINITE: u64 = 0x7ff0_0000_0000_0000;

/// The code of the patterns that stand for no number.
pub const NO_NUMBER: u64 = 0xffff_ffff_ffff_ffff;

/// Whether the sign bit of a pattern is set.
pub open spec fn negative(bits: u64) -> bool {
    bits >= SIGN
}

/// The pattern without its sign bit.
pub open spec fn magnitude(bits: u64) -> int {
    if bits >= SIGN {
        bits - SIGN
    } else {
        bits as int
    }
}

/// Whether a pattern stands for a number, an infinity included.
pub open spec fn is_number(bits: u64) -> bool {
    magnitude(bits) <= INFINITE
}

/// The magnitude with the sign: an integer that grows with the number that
/// the pattern stands for, and is 0 for both zeros.
pub open spec fn signed(bits: u64) -> int {
    if negative(bits) {
        -magnitude(bits)
    } else {
        magnitude(bits)
    }
}

/// The code of a pattern.
pub open spec fn code_of(bits: u64) -> u64 {
    if is_number(bits) {
        (SIGN + signed(bits)) as u64
    } else {
        NO_NUMBER
    }
}

/// A pattern with the given code, where there is one; else a pattern that
/// stands for no number.
pub open spec fn bits_of(code: u64) -> u64 {
    if code >= SIGN {
        (code - SIGN) as u64
    } else if code == 0 {
        NO_NUMBER
    } else {
        (SIGN + (SIGN - code)) as u64
    }
}

/// The code of a pattern.
pub fn encode(bits: u64) -> (code: u64)
    ensures
        code == code_of(bits),
{
    let negative = bits >= SIGN;
    let magnitude: u64 = if negative {
        bits - SIGN
    } else {
        bits
    };
    if magnitude > INFINITE {
        NO_NUMBER
    } else if negative {
        SIGN - magnitude
    } else {
        SIGN + magnitude
    }
}

/// A pattern with the given code, where there is one; else a pattern that
/// stands for no number.
pub fn decode(code: u64) -> (bits: u64)
    ensures
        bits == bits_of(code),
{
    if code >= SIGN {
        code - SIGN
    } else if code == 0 {
        NO_NUMBER
    } else {
        SIGN + (SIGN - code)
    }
}

/// The order of the codes is the order of the numbers. Two numbers have the
/// same code exactly if they are the same number, and the lower code exactly
/// if the first is the lower number. What stands for no number has one code,
/// above the code of every number.
pub proof fn lemma_code_order(a: u64, b: u64)
    ensures
        is_number(a) && is_number(b) ==> (code_of(a) < code_of(b) <==> signed(a) < signed(b)),
        is_number(a) && is_number(b) ==> (code_of(a) == code_of(b) <==> signed(a) == signed(b)),
        is_number(a) ==> code_of(a) < NO_NUMBER,
        !is_number(a) ==> code_of(a) == NO_NUMBER,
        is_number(a) ==> code_of(a) == SIGN + signed(a),
{
}

/// A number comes back from its code: the same pattern, but for the
/// negative zero, which comes back as the positive one.
pub proof fn lemma_decode_encode(bits: u64)
    ensures
        is_number(bits) ==> is_number(bits_of(code_of(bits))) && signed(bits_of(code_of(bits))) == signed(
            bits,
        ),
        is_number(bits) && bits != SIGN ==> bits_of(code_of(bits)) == bits,
        bits == SIGN ==> bits_of(code_of(bits)) == 0,
        !is_number(bits) ==> !is_number(bits_of(code_of(bits))),
{
}

/// A code comes back from its pattern where the pattern stands for a number;
/// any other code gives a pattern that stands for none.
pub proof fn lemma_encode_decode(code: u64)
    ensures
        is_number(bits_of(code)) ==> code_of(bits_of(code)) == code,
        is_number(bits_of(code)) <==> SIGN - INFINITE <= code <= SIGN + INFINITE,
{
}

} // verus!
