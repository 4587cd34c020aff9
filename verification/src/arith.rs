//! Arithmetic on 32-bit machine words, read as unsigned or as two's
//! complement signed numbers.

use vstd::prelude::*;
use num::cast::{FromPrimitive, ToPrimitive};

verus! {

/// The four arithmetic operations of the instruction set.
#[derive(Clone, Copy, Debug, PartialEq, Eq, Structural)]
pub enum Operator {
    Add,
    Sub,
    Mul,
    Div,
}

/// The number that a word stands for when it is read as a two's complement
/// signed number.
pub open spec fn signed_value(word: u32) -> int {
    if word < 0x8000_0000 {
        word as int
    } else {
        word - 0x1_0000_0000
    }
}

/// The word that holds the low 32 bits of `value`.
pub open spec fn word_of(value: int) -> u32 {
    (value % 0x1_0000_0000) as u32
}

/// The quotient of `x` by `d`, rounded toward zero.
pub open spec fn truncated_quotient(x: int, d: int) -> int
    recommends
        d != 0,
{
    if x >= 0 && d > 0 {
        x / d
    } else if x < 0 && d < 0 {
        (-x) / (-d)
    } else if x < 0 {
        -((-x) / d)
    } else {
        -(x / (-d))
    }
}

/// The result of `lhs <op> rhs` on words, or `None` for a division by zero.
///
/// The operands are read as the signedness says, the operation is done on
/// the integers, and the result is the low 32 bits of what comes out.
pub open spec fn combine(op: Operator, signed: bool, lhs: u32, rhs: u32) -> Option<u32> {
    let a = if signed {
        signed_value(lhs)
    } else {
        lhs as int
    };
    let b = if signed {
        signed_value(rhs)
    } else {
        rhs as int
    };
    match op {
        Operator::Add => Some(word_of(a + b)),
        Operator::Sub => Some(word_of(a - b)),
        Operator::Mul => Some(word_of(a * b)),
        Operator::Div => if b == 0 {
            None
        } else {
            Some(word_of(truncated_quotient(a, b)))
        },
    }
}

/// `FromPrimitive::from_u32` of the `num` crate, at `i32`: the same number
/// where it is at most `i32::MAX`, and `None` above that.
#[verifier::external_body]
fn checked_signed(word: u32) -> (r: Option<i32>)
    ensures
        match r {
            Some(v) => v == word,
            None => word > i32::MAX,
        },
{
    FromPrimitive::from_u32(word)
}

/// `ToPrimitive::to_u32` of the `num` crate, at `i32`: the same number
/// where it is not negative, and `None` below zero.
#[verifier::external_body]
fn checked_word(value: i32) -> (r: Option<u32>)
    ensures
        match r {
            Some(w) => w == value,
            None => value < 0,
        },
{
    ToPrimitive::to_u32(&value)
}

/// Reads a word as a two's complement signed number.
pub fn to_signed(word: u32) -> (v: i32)
    ensures
        v == signed_value(word),
{
    match checked_signed(word) {
        Some(v) => v,
        None => {
            // The sign bit is set: the low 31 bits stand above `i32::MIN`.
            match checked_signed(word - 0x8000_0000) {
                Some(low) => low + i32::MIN,
                // Not reached: the low 31 bits are at most `i32::MAX`.
                None => i32::MIN,
            }
        },
    }
}

/// The word that holds a signed number in two's complement.
pub fn to_word(value: i32) -> (w: u32)
    ensures
        w == word_of(value as int),
        signed_value(w) == value,
{
    match checked_word(value) {
        Some(w) => w,
        None => {
            match checked_word(value - i32::MIN) {
                Some(low) => low + 0x8000_0000,
                // Not reached: the difference is not negative.
                None => 0x8000_0000,
            }
        },
    }
}

/// Computes `lhs <op> rhs` on words; `None` stands for a division by zero.
pub fn apply(op: Operator, signed: bool, lhs: u32, rhs: u32) -> (r: Option<u32>)
    ensures
        r == combine(op, signed, lhs, rhs),
{
    if signed {
        let a = to_signed(lhs);
        let b = to_signed(rhs);
        match op {
            Operator::Add => Some(to_word(a.wrapping_add(b))),
            Operator::Sub => Some(to_word(a.wrapping_sub(b))),
            Operator::Mul => Some(to_word(a.wrapping_mul(b))),
            Operator::Div => {
                if b == 0 {
                    None
                } else {
                    match a.checked_div(b) {
                        Some(q) => Some(to_word(q)),
                        // Only `i32::MIN / -1` leaves the range; its low
                        // 32 bits are those of `i32::MIN`.
                        None => Some(0x8000_0000),
                    }
                }
            },
        }
    } else {
        match op {
            Operator::Add => Some(lhs.wrapping_add(rhs)),
            Operator::Sub => Some(lhs.wrapping_sub(rhs)),
            Operator::Mul => Some(lhs.wrapping_mul(rhs)),
            Operator::Div => {
                if rhs == 0 {
                    None
                } else {
                    Some(lhs / rhs)
                }
            },
        }
    }
}

} // verus!
