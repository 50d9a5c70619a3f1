//! Integers as CBOR has them: an unsigned integer, or a negative one that is
//! written as the distance from minus one.

use crate::error::{
    annotated_result, bare, cbor_error, DeserializeError, DeserializeFailure, ErrorView,
    FailureView,
};
use crate::raw::{write_negative_integer, write_unsigned_integer};
use crate::reader::{decoded, Reader};
use crate::serialization::{fit_sz, fitting};
use crate::wire::{head, parse_arg, type_of, width, MAJOR_NINT, MAJOR_UINT};
use cbor_event::{Sz, Type};
use vstd::prelude::*;

verus! {

broadcast use {vstd::seq_lib::lemma_seq_skip_of_skip, vstd::seq_lib::lemma_seq_skip_nothing};

/// A CBOR integer, with the width of its head where it was decoded.
#[derive(Clone, Copy, Debug)]
pub enum Int {
    /// The number `value`.
    Uint { value: u64, encoding: Option<Sz> },
    /// The number minus one minus `value`.
    Nint { value: u64, encoding: Option<Sz> },
}

impl View for Int {
    type V = Int;

    open spec fn view(&self) -> Int {
        *self
    }
}

impl Int {
    /// The number that the value stands for.
    pub open spec fn number(self) -> int {
        match self {
            Int::Uint { value, .. } => value as int,
            Int::Nint { value, .. } => -1 - value,
        }
    }

    /// The integer without its wire width.
    pub open spec fn bare(self) -> Int {
        match self {
            Int::Uint { value, .. } => Int::Uint { value, encoding: None },
            Int::Nint { value, .. } => Int::Nint { value, encoding: None },
        }
    }

    /// The bytes that the integer is written as: a head of the recorded
    /// width where the value fits it, of the shortest width otherwise.
    #[verifier::opaque]
    pub open spec fn wire(self) -> Seq<u8> {
        match self {
            Int::Uint { value, encoding } => head(MAJOR_UINT, value, fitting(value, encoding)),
            Int::Nint { value, encoding } => head(MAJOR_NINT, value, fitting(value, encoding)),
        }
    }

    /// The integer at the start of `s`, before the error is given its place.
    pub open spec fn parse_inner(s: Seq<u8>) -> Result<(Int, nat), ErrorView> {
        if s.len() == 0 {
            Err(cbor_error())
        } else if type_of(s[0]) == Type::UnsignedInteger {
            match parse_arg(MAJOR_UINT, s) {
                Some((value, sz)) => Ok((Int::Uint { value, encoding: Some(sz) }, 1 + width(sz))),
                None => Err(cbor_error()),
            }
        } else if type_of(s[0]) == Type::NegativeInteger {
            match parse_arg(MAJOR_NINT, s) {
                Some((value, sz)) => Ok((Int::Nint { value, encoding: Some(sz) }, 1 + width(sz))),
                None => Err(cbor_error()),
            }
        } else {
            Err(bare(FailureView::NoVariantMatched))
        }
    }

    /// The integer at the start of `s` and the bytes that it takes, or why
    /// there is none.
    #[verifier::opaque]
    pub open spec fn parse(s: Seq<u8>) -> Result<(Int, nat), ErrorView> {
        annotated_result(Self::parse_inner(s), "Int"@)
    }

    /// The unsigned integer `value`.
    pub fn new_uint(value: u64) -> (r: Self)
        ensures
            r == (Int::Uint { value, encoding: None }),
    {
        Int::Uint { value, encoding: None }
    }

    /// The negative integer minus one minus `value`: for minus five, pass
    /// four.
    pub fn new_nint(value: u64) -> (r: Self)
        ensures
            r == (Int::Nint { value, encoding: None }),
    {
        Int::Nint { value, encoding: None }
    }

    /// Writes the integer.
    pub fn serialize(&self, out: &mut Vec<u8>) -> (r: Result<(), cbor_event::Error>)
        ensures
            r is Ok,
            final(out)@ == old(out)@ + self.wire(),
    {
        reveal(Int::wire);
        match self {
            Int::Uint { value, encoding } => write_unsigned_integer(
                out,
                *value,
                fit_sz(*value, *encoding),
            ),
            Int::Nint { value, encoding } => write_negative_integer(
                out,
                -((*value as i128) + 1),
                fit_sz(*value, *encoding),
            ),
        }
    }

    fn deserialize_inner(raw: &mut Reader) -> (r: Result<Int, DeserializeError>)
        ensures
            decoded(*old(raw), *final(raw), r, Self::parse_inner(old(raw).rest())),
    {
        let kind = match raw.cbor_type() {
            Ok(kind) => kind,
            Err(e) => {
                return Err(DeserializeError::from_cbor(e));
            },
        };
        match kind {
            Type::UnsignedInteger => match raw.unsigned_integer_sz() {
                Ok((value, sz)) => Ok(Int::Uint { value, encoding: Some(sz) }),
                Err(e) => Err(DeserializeError::from_cbor(e)),
            },
            Type::NegativeInteger => match raw.negative_integer_sz() {
                Ok((x, sz)) => Ok(Int::Nint { value: (-1 - x) as u64, encoding: Some(sz) }),
                Err(e) => Err(DeserializeError::from_cbor(e)),
            },
            _ => Err(DeserializeError::from_failure(DeserializeFailure::NoVariantMatched)),
        }
    }

    /// Reads an integer.
    pub fn deserialize(raw: &mut Reader) -> (r: Result<Int, DeserializeError>)
        ensures
            decoded(*old(raw), *final(raw), r, Self::parse(old(raw).rest())),
    {
        reveal(Int::parse);
        match Self::deserialize_inner(raw) {
            Ok(v) => Ok(v),
            Err(e) => Err(e.annotate("Int")),
        }
    }
}

#[verifier::external_type_specification]
#[verifier::external_body]
pub struct ExParseIntError(core::num::ParseIntError);

/// Why a decimal numeral is no `Int`.
#[derive(Debug)]
pub enum IntError {
    /// The number does not fit the range of CBOR integers.
    Bounds(core::num::TryFromIntError),
    /// The text is no decimal numeral of 128 bits.
    Parsing(core::num::ParseIntError),
}

/// The number that a text stands for where it is a decimal numeral that
/// fits 128 bits, as `i128::from_str` reads it.
pub uninterp spec fn numeral(s: Seq<char>) -> Option<i128>;

/// `i128::from_str`: the number that a decimal numeral stands for, or an
/// error where the text is none or the number does not fit.
#[verifier::external_body]
fn read_numeral(s: &str) -> (r: Result<i128, core::num::ParseIntError>)
    ensures
        match numeral(s@) {
            Some(x) => r matches Ok(v) && v == x,
            None => r is Err,
        },
{
    s.parse::<i128>()
}

/// The character of a decimal digit.
pub open spec fn digit(d: nat) -> char {
    if d == 0 {
        '0'
    } else if d == 1 {
        '1'
    } else if d == 2 {
        '2'
    } else if d == 3 {
        '3'
    } else if d == 4 {
        '4'
    } else if d == 5 {
        '5'
    } else if d == 6 {
        '6'
    } else if d == 7 {
        '7'
    } else if d == 8 {
        '8'
    } else {
        '9'
    }
}

/// The decimal digits of a number, the most significant first, without
/// leading zeros.
pub open spec fn digits(n: nat) -> Seq<char>
    decreases n,
{
    if n < 10 {
        seq![digit(n)]
    } else {
        digits(n / 10).push(digit(n % 10))
    }
}

/// The decimal numeral of a number: its digits, after a minus sign where it
/// is below zero.
pub open spec fn numeral_of(x: i128) -> Seq<char> {
    if x < 0 {
        seq!['-'] + digits((-x) as nat)
    } else {
        digits(x as nat)
    }
}

/// The `Display` form of an `i128`: its decimal numeral, which is the digits
/// of its magnitude without leading zeros, after a minus sign where the
/// number is below zero.
#[verifier::external_body]
pub(crate) fn write_numeral(x: i128) -> (r: String)
    ensures
        r@ == numeral_of(x),
{
    format!("{}", x)
}

/// The least number that is a CBOR integer: minus two to the power of 64.
pub open spec fn least() -> int {
    -0x1_0000_0000_0000_0000
}

/// The greatest number that is a CBOR integer: two to the power of 64,
/// minus one.
pub open spec fn greatest() -> int {
    0xffff_ffff_ffff_ffff
}

impl Int {
    /// The integer that stands for the number `x`, which must lie in the
    /// range of CBOR integers.
    pub fn try_from_i128(x: i128) -> (r: Result<Int, core::num::TryFromIntError>)
        ensures
            r is Ok <==> least() <= x <= greatest(),
            r matches Ok(i) ==> i.number() == x && i.bare() == i,
    {
        if x >= 0 {
            match u64::try_from(x) {
                Ok(value) => Ok(Int::Uint { value, encoding: None }),
                Err(e) => Err(e),
            }
        } else {
            match u64::try_from(-(x + 1)) {
                Ok(value) => Ok(Int::Nint { value, encoding: None }),
                Err(e) => Err(e),
            }
        }
    }

    /// The integer that a numeral stands for, from what reading the numeral
    /// gave.
    pub fn from_numeral(parsed: Result<i128, core::num::ParseIntError>) -> (r: Result<
        Int,
        IntError,
    >)
        ensures
            match parsed {
                Ok(x) => if least() <= x <= greatest() {
                    r matches Ok(i) && i.number() == x && i.bare() == i
                } else {
                    r matches Err(IntError::Bounds(_))
                },
                Err(_) => r matches Err(IntError::Parsing(_)),
            },
    {
        match parsed {
            Ok(x) => match Self::try_from_i128(x) {
                Ok(i) => Ok(i),
                Err(e) => Err(IntError::Bounds(e)),
            },
            Err(e) => Err(IntError::Parsing(e)),
        }
    }

    /// The integer that a decimal numeral stands for.
    pub fn parse_numeral(s: &str) -> (r: Result<Int, IntError>)
        ensures
            match numeral(s@) {
                Some(x) => if least() <= x <= greatest() {
                    r matches Ok(i) && i.number() == x && i.bare() == i
                } else {
                    r matches Err(IntError::Bounds(_))
                },
                None => r matches Err(IntError::Parsing(_)),
            },
    {
        Self::from_numeral(read_numeral(s))
    }

    /// The number as the signed 128 bits that hold every CBOR integer.
    pub fn to_i128(&self) -> (r: i128)
        ensures
            r == self.number(),
    {
        match self {
            Int::Uint { value, .. } => *value as i128,
            Int::Nint { value, .. } => -((*value as i128) + 1),
        }
    }

    /// The decimal numeral of the number.
    pub fn to_string(&self) -> (r: String)
        ensures
            r@ == numeral_of(self.number() as i128),
    {
        write_numeral(self.to_i128())
    }
}

impl core::str::FromStr for Int {
    type Err = IntError;

    /// The integer that a decimal numeral stands for.
    fn from_str(s: &str) -> (r: Result<Self, Self::Err>)
        ensures
            match numeral(s@) {
                Some(x) => if least() <= x <= greatest() {
                    r matches Ok(i) && i.number() == x && i.bare() == i
                } else {
                    r matches Err(IntError::Bounds(_))
                },
                None => r matches Err(IntError::Parsing(_)),
            },
    {
        Int::parse_numeral(s)
    }
}

} // verus!
