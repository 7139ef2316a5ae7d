//! Classification of an encoded value from its first byte.

use crate::header::{header_width, MINOR_INDEFINITE};
use vstd::prelude::*;

verus! {

/// Coarse classification of an encoded value, read from its first byte.
#[derive(Debug, Clone, Copy, PartialEq, Eq, Structural)]
pub enum Kind {
    Integer,
    Bytes,
    String,
    Null,
    Undefined,
    Bool,
    Float,
    Simple,
    Array,
    Mapping,
    Tag,
    Time,
    BigNumber,
    Invalid,
    Break,
}

/// A floating-point value as its IEEE 754 bit pattern, in the width it was
/// written with.
#[derive(Debug, Clone, Copy, PartialEq, Eq, Structural)]
pub enum Float {
    /// Single precision.
    F32(u32),
    /// Double precision.
    F64(u64),
}

/// The kind announced by a first byte `b`.
pub open spec fn kind_of(b: u8) -> Kind {
    let major = b / 32;
    let low = b % 32;
    if 28 <= low <= 30 {
        Kind::Invalid
    } else if major == 0 || major == 1 {
        if low == 31 {
            Kind::Invalid
        } else {
            Kind::Integer
        }
    } else if major == 2 {
        if low == 31 {
            Kind::Invalid
        } else {
            Kind::Bytes
        }
    } else if major == 3 {
        if low == 31 {
            Kind::Invalid
        } else {
            Kind::String
        }
    } else if major == 4 {
        Kind::Array
    } else if major == 5 {
        Kind::Mapping
    } else if major == 6 {
        if low == 31 {
            Kind::Invalid
        } else if low < 2 {
            Kind::Time
        } else if low < 4 {
            Kind::BigNumber
        } else {
            Kind::Tag
        }
    } else if low < 20 || low == 24 {
        Kind::Simple
    } else if low < 22 {
        Kind::Bool
    } else if low == 22 {
        Kind::Null
    } else if low == 23 {
        Kind::Undefined
    } else if low < 28 {
        Kind::Float
    } else {
        Kind::Break
    }
}

/// The kind announced by the first byte `b`.
pub fn kind_of_byte(b: u8) -> (r: Kind)
    ensures
        r == kind_of(b),
{
    let major = b / 32;
    let low = b % 32;
    if 28 <= low && low <= 30 {
        Kind::Invalid
    } else if major == 0 || major == 1 {
        if low == 31 {
            Kind::Invalid
        } else {
            Kind::Integer
        }
    } else if major == 2 {
        if low == 31 {
            Kind::Invalid
        } else {
            Kind::Bytes
        }
    } else if major == 3 {
        if low == 31 {
            Kind::Invalid
        } else {
            Kind::String
        }
    } else if major == 4 {
        Kind::Array
    } else if major == 5 {
        Kind::Mapping
    } else if major == 6 {
        if low == 31 {
            Kind::Invalid
        } else if low < 2 {
            Kind::Time
        } else if low < 4 {
            Kind::BigNumber
        } else {
            Kind::Tag
        }
    } else if low < 20 || low == 24 {
        Kind::Simple
    } else if low < 22 {
        Kind::Bool
    } else if low == 22 {
        Kind::Null
    } else if low == 23 {
        Kind::Undefined
    } else if low < 28 {
        Kind::Float
    } else {
        Kind::Break
    }
}

/// The classifier agrees with the header codec: a first byte is `Invalid`
/// exactly when its selector is reserved, or when it marks an indefinite
/// length on a type that has none.
pub proof fn lemma_kind_matches_header(b: u8)
    ensures
        (kind_of(b) == Kind::Invalid) <==> (header_width(b % 32) == 0 || (b % 32 == MINOR_INDEFINITE
            && b / 32 != 4 && b / 32 != 5 && b / 32 != 7)),
        (kind_of(b) == Kind::Break) <==> b == 0xff,
{
}

} // verus!
