//! The target: one to eight hexadecimal digits, read as a 32-bit number.

use vstd::prelude::*;
use vstd::string::StringSliceAdditionalSpecFns;

verus! {

/// Why a target was refused.
#[derive(Debug, Clone, Copy, PartialEq, Eq)]
pub enum TargetError {
    /// The target is the empty string.
    Empty,
    /// The target has more than eight characters.
    TooLong,
    /// The target holds a character that is no hexadecimal digit.
    InvalidDigit,
}

/// The value of a hexadecimal digit, in either case.
pub open spec fn hex_value(b: u8) -> Option<nat> {
    if 0x30 <= b <= 0x39 {
        Some((b - 0x30) as nat)
    } else if 0x61 <= b <= 0x66 {
        Some((b - 0x61 + 10) as nat)
    } else if 0x41 <= b <= 0x46 {
        Some((b - 0x41 + 10) as nat)
    } else {
        None
    }
}

/// Whether every byte is a hexadecimal digit.
pub open spec fn all_hex(s: Seq<u8>) -> bool {
    forall|i: int| 0 <= i < s.len() ==> hex_value(#[trigger] s[i]) is Some
}

/// The number that a string of hexadecimal digits denotes, the most
/// significant digit first.
pub open spec fn hex_number(s: Seq<u8>) -> nat
    decreases s.len(),
{
    if s.len() == 0 {
        0
    } else {
        hex_number(s.drop_last()) * 16 + hex_value(s.last()).unwrap()
    }
}

/// Sixteen to the power of `n`.
pub open spec fn pow16(n: nat) -> nat
    decreases n,
{
    if n == 0 {
        1
    } else {
        16 * pow16((n - 1) as nat)
    }
}

/// The value of the digit `b`, if it is one.
fn digit_value(b: u8) -> (value: Option<u8>)
    ensures
        match hex_value(b) {
            Some(v) => value == Some(v as u8) && v < 16,
            None => value is None,
        },
{
    if 0x30 <= b && b <= 0x39 {
        Some(b - 0x30)
    } else if 0x61 <= b && b <= 0x66 {
        Some(b - 0x61 + 10)
    } else if 0x41 <= b && b <= 0x46 {
        Some(b - 0x41 + 10)
    } else {
        None
    }
}

/// Reads a target of one to eight hexadecimal digits.
pub fn parse_hex_target(target: &str) -> (r: Result<u32, TargetError>)
    ensures
        match r {
            Ok(value) => 1 <= target.spec_bytes().len() <= 8 && all_hex(target.spec_bytes())
                && value == hex_number(target.spec_bytes()),
            Err(TargetError::Empty) => target.spec_bytes().len() == 0,
            Err(TargetError::TooLong) => target.spec_bytes().len() > 8,
            Err(TargetError::InvalidDigit) => 1 <= target.spec_bytes().len() <= 8 && !all_hex(
                target.spec_bytes(),
            ),
        },
{
    let bytes = target.as_bytes();
    if bytes.len() == 0 {
        return Err(TargetError::Empty);
    }
    if bytes.len() > 8 {
        return Err(TargetError::TooLong);
    }
    let mut value: u64 = 0;
    let mut i: usize = 0;
    assert(bytes@.take(0).len() == 0);
    while i < bytes.len()
        invariant
            1 <= bytes.len() <= 8,
            i <= bytes.len(),
            bytes@ == target.spec_bytes(),
            value == hex_number(bytes@.take(i as int)),
            value < pow16(i as nat),
            all_hex(bytes@.take(i as int)),
        decreases bytes.len() - i,
    {
        proof {
            reveal_with_fuel(pow16, 10);
            assert(pow16(i as nat) <= pow16(8));
        }
        match digit_value(bytes[i]) {
            Some(digit) => {
                assert(bytes@.take(i + 1).drop_last() =~= bytes@.take(i as int));
                value = value * 16 + digit as u64;
            },
            None => {
                assert(hex_value(bytes@[i as int]) is None);
                return Err(TargetError::InvalidDigit);
            },
        }
        i += 1;
    }
    proof {
        reveal_with_fuel(pow16, 10);
        assert(pow16(i as nat) <= pow16(8));
        assert(bytes@.take(i as int) =~= bytes@);
    }
    Ok(value as u32)
}

} // verus!
