//! NBT (Named Binary Tag) codec: a binary tree format with three wire
//! encodings that differ in integer byte order and in whether lengths and
//! 32/64-bit integers are fixed-width or variable-length.

use vstd::prelude::*;

pub mod de;
pub mod error;
pub mod ints;
pub mod laws;
pub mod value;
pub mod ser;
pub mod varint;
pub mod wire;

pub use de::{from_be_bytes, from_bytes, from_bytes_named, from_bytes_named_strict, from_bytes_strict, from_le_bytes, from_net_bytes};
pub use error::NbtError;
pub use ser::{to_be_bytes, to_be_bytes_in, to_bytes, to_bytes_in, to_bytes_named, to_le_bytes, to_le_bytes_in, to_net_bytes, to_net_bytes_in};
pub use value::Value;

verus! {

/// NBT format variant.
#[derive(Debug, Copy, Clone, PartialEq, Eq, Structural)]
pub enum Variant {
    /// Every fixed-width field is written in little endian byte order,
    /// lengths are fixed-width, and integers are fixed-width.
    LittleEndian,
    /// Every fixed-width field is written in big endian byte order,
    /// lengths are fixed-width, and integers are fixed-width.
    BigEndian,
    /// Little endian byte order, but string/list/array lengths are
    /// unsigned varints and the int and long types are zig-zag varints.
    NetworkEndian,
}

impl Variant {
    /// True when fixed-width fields of this variant are written with the
    /// least significant byte first.
    pub open spec fn spec_is_little_endian(self) -> bool {
        !(self is BigEndian)
    }

    /// True when string, list and array lengths are written as unsigned
    /// varints instead of fixed-width integers.
    pub open spec fn spec_uses_varint_lengths(self) -> bool {
        self is NetworkEndian
    }

    /// True when int and long payloads are written as zig-zag varints
    /// instead of fixed-width integers.
    pub open spec fn spec_uses_varint_integers(self) -> bool {
        self is NetworkEndian
    }

    pub fn is_little_endian(self) -> (r: bool)
        ensures
            r == self.spec_is_little_endian(),
    {
        !matches!(self, Variant::BigEndian)
    }

    pub fn uses_varint_lengths(self) -> (r: bool)
        ensures
            r == self.spec_uses_varint_lengths(),
    {
        matches!(self, Variant::NetworkEndian)
    }

    pub fn uses_varint_integers(self) -> (r: bool)
        ensures
            r == self.spec_uses_varint_integers(),
    {
        matches!(self, Variant::NetworkEndian)
    }
}

/// Keeps the set of endianness marker types closed: only the three markers
/// of this crate implement [`EndiannessImpl`].
pub trait Sealed {
}

/// Implemented by the three NBT wire-encoding markers. Generic encode and
/// decode entry points take one of the markers as a type parameter and
/// dispatch on the corresponding [`Variant`] value, so the codec itself is
/// written once.
pub trait EndiannessImpl: Sealed {
    /// The variant selected by this marker.
    spec fn variant() -> Variant;

    /// Used to convert a variant marker to the matching enum value.
    fn as_enum() -> (v: Variant)
        ensures
            v == Self::variant(),
    ;
}

/// Marker for [`Variant::BigEndian`].
pub struct BigEndian {
}

/// Marker for [`Variant::LittleEndian`].
pub struct LittleEndian {
}

/// Marker for [`Variant::NetworkEndian`].
pub struct NetworkLittleEndian {
}

impl Sealed for BigEndian {
}

impl EndiannessImpl for BigEndian {
    open spec fn variant() -> Variant {
        Variant::BigEndian
    }

    fn as_enum() -> (v: Variant) {
        Variant::BigEndian
    }
}

impl Sealed for LittleEndian {
}

impl EndiannessImpl for LittleEndian {
    open spec fn variant() -> Variant {
        Variant::LittleEndian
    }

    fn as_enum() -> (v: Variant) {
        Variant::LittleEndian
    }
}

impl Sealed for NetworkLittleEndian {
}

impl EndiannessImpl for NetworkLittleEndian {
    open spec fn variant() -> Variant {
        Variant::NetworkEndian
    }

    fn as_enum() -> (v: Variant) {
        Variant::NetworkEndian
    }
}

/// NBT field type: the closed set of tag discriminants, contiguous from 0.
#[derive(Debug, Copy, Clone, PartialEq, Eq, Structural)]
pub enum FieldType {
    /// Indicates the end of a compound tag. A structural terminator, never
    /// a carried value.
    End,
    /// A signed byte.
    Byte,
    /// A signed short.
    Short,
    /// A signed int.
    Int,
    /// A signed long.
    Long,
    /// A float, carried as its IEEE 754 bit pattern.
    Float,
    /// A double, carried as its IEEE 754 bit pattern.
    Double,
    /// An array of byte tags.
    ByteArray,
    /// A UTF-8 string.
    String,
    /// List of tags. Every item in the list must be of the same type.
    List,
    /// A key-value map.
    Compound,
    /// An array of int tags.
    IntArray,
    /// An array of long tags.
    LongArray,
}

impl FieldType {
    /// The wire discriminant of this tag.
    pub open spec fn spec_to_byte(self) -> u8 {
        match self {
            FieldType::End => 0,
            FieldType::Byte => 1,
            FieldType::Short => 2,
            FieldType::Int => 3,
            FieldType::Long => 4,
            FieldType::Float => 5,
            FieldType::Double => 6,
            FieldType::ByteArray => 7,
            FieldType::String => 8,
            FieldType::List => 9,
            FieldType::Compound => 10,
            FieldType::IntArray => 11,
            FieldType::LongArray => 12,
        }
    }

    /// The tag whose wire discriminant is `b`, for `b <= 12`.
    pub open spec fn spec_from_byte(b: u8) -> FieldType {
        if b == 0 {
            FieldType::End
        } else if b == 1 {
            FieldType::Byte
        } else if b == 2 {
            FieldType::Short
        } else if b == 3 {
            FieldType::Int
        } else if b == 4 {
            FieldType::Long
        } else if b == 5 {
            FieldType::Float
        } else if b == 6 {
            FieldType::Double
        } else if b == 7 {
            FieldType::ByteArray
        } else if b == 8 {
            FieldType::String
        } else if b == 9 {
            FieldType::List
        } else if b == 10 {
            FieldType::Compound
        } else if b == 11 {
            FieldType::IntArray
        } else {
            FieldType::LongArray
        }
    }

    /// Total, lossless conversion of a tag to its wire discriminant.
    pub fn to_byte(self) -> (b: u8)
        ensures
            b == self.spec_to_byte(),
            b <= 12,
            FieldType::spec_from_byte(b) == self,
    {
        match self {
            FieldType::End => 0,
            FieldType::Byte => 1,
            FieldType::Short => 2,
            FieldType::Int => 3,
            FieldType::Long => 4,
            FieldType::Float => 5,
            FieldType::Double => 6,
            FieldType::ByteArray => 7,
            FieldType::String => 8,
            FieldType::List => 9,
            FieldType::Compound => 10,
            FieldType::IntArray => 11,
            FieldType::LongArray => 12,
        }
    }

    /// Validated conversion from a raw byte: succeeds exactly on the closed
    /// discriminant range `0..=12`, and fails with `TypeOutOfRange` on every
    /// byte above it.
    pub fn from_byte(b: u8) -> (r: Result<FieldType, NbtError>)
        ensures
            r is Ok <==> b <= 12,
            b <= 12 ==> r == Result::<FieldType, NbtError>::Ok(FieldType::spec_from_byte(b)),
            b <= 12 ==> r.unwrap().spec_to_byte() == b,
            b > 12 ==> r == Result::<FieldType, NbtError>::Err(NbtError::TypeOutOfRange { actual: b }),
    {
        match b {
            0 => Ok(FieldType::End),
            1 => Ok(FieldType::Byte),
            2 => Ok(FieldType::Short),
            3 => Ok(FieldType::Int),
            4 => Ok(FieldType::Long),
            5 => Ok(FieldType::Float),
            6 => Ok(FieldType::Double),
            7 => Ok(FieldType::ByteArray),
            8 => Ok(FieldType::String),
            9 => Ok(FieldType::List),
            10 => Ok(FieldType::Compound),
            11 => Ok(FieldType::IntArray),
            12 => Ok(FieldType::LongArray),
            _ => Err(NbtError::TypeOutOfRange { actual: b }),
        }
    }
}

} // verus!
