//! The wire format, stated mathematically: what byte sequence a value tree
//! encodes to under each variant, and what value (or error) a byte sequence
//! decodes to. The executable serializer and deserializer are proved to
//! follow these functions exactly.

use vstd::prelude::*;
use vstd::utf8::{encode_utf8, decode_utf8, valid_utf8};

use crate::FieldType;
use crate::Variant;
use crate::error::NbtError;
use crate::ints::{le_bytes_of, be_bytes_of, nat_of_le_bytes, zigzag32, zigzag64, unzigzag32,
    unzigzag64};
use crate::value::{SpecValue, spec_tag_of};
use crate::varint::{varint_bytes, spec_read_varint};

verus! {

broadcast use vstd::seq::group_seq_axioms;

/// The deepest nesting of compounds and lists that the codec will follow.
pub const MAX_DEPTH: u32 = 512;

/// The largest byte length a string may have under the variant's string
/// length policy: a 2-byte field, or an unsigned 32-bit varint.
pub open spec fn str_len_max(var: Variant) -> nat {
    if var.spec_uses_varint_lengths() {
        0xFFFF_FFFF
    } else {
        0xFFFF
    }
}

/// The largest element count a list or array may have under the variant's
/// count policy: a 4-byte signed field, or an unsigned 32-bit varint.
pub open spec fn count_max(var: Variant) -> nat {
    if var.spec_uses_varint_lengths() {
        0xFFFF_FFFF
    } else {
        0x7FFF_FFFF
    }
}

/// The `w` bytes of `x` in the variant's byte order.
pub open spec fn uint_bytes(var: Variant, x: nat, w: nat) -> Seq<u8> {
    if var.spec_is_little_endian() {
        le_bytes_of(x, w)
    } else {
        be_bytes_of(x, w)
    }
}

/// The value of a `w`-byte field in the variant's byte order.
pub open spec fn uint_of(var: Variant, seg: Seq<u8>) -> nat {
    if var.spec_is_little_endian() {
        nat_of_le_bytes(seg)
    } else {
        nat_of_le_bytes(seg.reverse())
    }
}

/// A string's byte-length field.
pub open spec fn str_len_bytes(var: Variant, n: nat) -> Seq<u8> {
    if var.spec_uses_varint_lengths() {
        varint_bytes(n)
    } else {
        uint_bytes(var, n, 2)
    }
}

/// A list or array element-count field.
pub open spec fn count_bytes(var: Variant, n: nat) -> Seq<u8> {
    if var.spec_uses_varint_lengths() {
        varint_bytes(n)
    } else {
        uint_bytes(var, n, 4)
    }
}

/// A length-prefixed string: the UTF-8 byte count under the variant's
/// length policy, then the raw UTF-8 bytes.
pub open spec fn string_bytes(var: Variant, s: Seq<char>) -> Seq<u8> {
    str_len_bytes(var, encode_utf8(s).len()) + encode_utf8(s)
}

/// An int payload: fixed-width in the variant's byte order, or a zig-zag
/// varint under the network variant.
pub open spec fn int_payload(var: Variant, x: i32) -> Seq<u8> {
    if var.spec_uses_varint_integers() {
        varint_bytes(zigzag32(x) as nat)
    } else {
        uint_bytes(var, (x as u32) as nat, 4)
    }
}

/// A long payload.
pub open spec fn long_payload(var: Variant, x: i64) -> Seq<u8> {
    if var.spec_uses_varint_integers() {
        varint_bytes(zigzag64(x) as nat)
    } else {
        uint_bytes(var, (x as u64) as nat, 8)
    }
}

/// The bytes of a byte-array body.
pub open spec fn byte_array_bytes(xs: Seq<i8>) -> Seq<u8> {
    Seq::new(xs.len(), |i: int| xs[i] as u8)
}

/// The bytes of an int-array body: each element fixed-width in the
/// variant's byte order (arrays never use varint elements).
pub open spec fn int_array_bytes(var: Variant, xs: Seq<i32>) -> Seq<u8>
    decreases xs.len(),
{
    if xs.len() == 0 {
        Seq::empty()
    } else {
        uint_bytes(var, (xs[0] as u32) as nat, 4) + int_array_bytes(var, xs.drop_first())
    }
}

/// The bytes of a long-array body.
pub open spec fn long_array_bytes(var: Variant, xs: Seq<i64>) -> Seq<u8>
    decreases xs.len(),
{
    if xs.len() == 0 {
        Seq::empty()
    } else {
        uint_bytes(var, (xs[0] as u64) as nat, 8) + long_array_bytes(var, xs.drop_first())
    }
}

/// The element tag a list writes: the first element's tag, or `End` for an
/// empty list.
pub open spec fn list_elem_tag(elems: Seq<SpecValue>) -> FieldType {
    if elems.len() == 0 {
        FieldType::End
    } else {
        spec_tag_of(elems[0])
    }
}

/// Every length in the tree fits the variant's length policy, so the tree
/// can be encoded.
pub open spec fn encodable(sv: SpecValue, var: Variant) -> bool
    decreases sv,
{
    match sv {
        SpecValue::String(s) => encode_utf8(s).len() <= str_len_max(var),
        SpecValue::ByteArray(xs) => xs.len() <= count_max(var),
        SpecValue::IntArray(xs) => xs.len() <= count_max(var),
        SpecValue::LongArray(xs) => xs.len() <= count_max(var),
        SpecValue::List(elems) => elems.len() <= count_max(var) && forall|i: int|
            0 <= i < elems.len() ==> encodable(#[trigger] elems[i], var),
        SpecValue::Compound(entries) => forall|i: int|
            0 <= i < entries.len() ==> encodable(#[trigger] entries[i].1, var) && encode_utf8(
                (#[trigger] entries[i]).0,
            ).len() <= str_len_max(var),
        _ => true,
    }
}

/// The payload bytes of a value under a variant.
pub open spec fn enc_payload(sv: SpecValue, var: Variant) -> Seq<u8>
    decreases sv, 0nat,
{
    match sv {
        SpecValue::Byte(x) => seq![x as u8],
        SpecValue::Short(x) => uint_bytes(var, ((x as u16) as nat), 2),
        SpecValue::Int(x) => int_payload(var, x),
        SpecValue::Long(x) => long_payload(var, x),
        SpecValue::Float(b) => uint_bytes(var, b as nat, 4),
        SpecValue::Double(b) => uint_bytes(var, b as nat, 8),
        SpecValue::ByteArray(xs) => count_bytes(var, xs.len()) + byte_array_bytes(xs),
        SpecValue::String(s) => string_bytes(var, s),
        SpecValue::List(elems) => seq![list_elem_tag(elems).spec_to_byte()] + count_bytes(
            var,
            elems.len(),
        ) + enc_elems(elems, var, elems.len()),
        SpecValue::Compound(entries) => enc_entries(entries, var, entries.len()) + seq![0u8],
        SpecValue::IntArray(xs) => count_bytes(var, xs.len()) + int_array_bytes(var, xs),
        SpecValue::LongArray(xs) => count_bytes(var, xs.len()) + long_array_bytes(var, xs),
    }
}

/// The concatenated payloads of the first `n` list elements, in order and
/// with no per-element tag or name.
pub open spec fn enc_elems(elems: Seq<SpecValue>, var: Variant, n: nat) -> Seq<u8>
    decreases elems, n,
{
    if n == 0 || n > elems.len() {
        Seq::empty()
    } else {
        enc_elems(elems, var, (n - 1) as nat) + enc_payload(elems[n - 1], var)
    }
}

/// One compound entry: tag byte, key, payload.
pub open spec fn enc_entry(e: (Seq<char>, SpecValue), var: Variant) -> Seq<u8>
    decreases e, 0nat,
{
    seq![spec_tag_of(e.1).spec_to_byte()] + string_bytes(var, e.0) + enc_payload(e.1, var)
}

/// The concatenated encodings of the first `n` compound entries, in
/// insertion order.
pub open spec fn enc_entries(entries: Seq<(Seq<char>, SpecValue)>, var: Variant, n: nat) -> Seq<u8>
    decreases entries, n,
{
    if n == 0 || n > entries.len() {
        Seq::empty()
    } else {
        enc_entries(entries, var, (n - 1) as nat) + enc_entry(entries[n - 1], var)
    }
}

/// A whole document: the root's tag byte, the root name, the root payload.
pub open spec fn enc_root(name: Seq<char>, sv: SpecValue, var: Variant) -> Seq<u8> {
    seq![spec_tag_of(sv).spec_to_byte()] + string_bytes(var, name) + enc_payload(sv, var)
}

/// `bytes` without its first `n`, or empty when fewer than `n` remain.
pub open spec fn skipn(bytes: Seq<u8>, n: nat) -> Seq<u8> {
    if n <= bytes.len() {
        bytes.skip(n as int)
    } else {
        Seq::empty()
    }
}

/// Reads a `w`-byte unsigned field in the variant's byte order.
pub open spec fn dec_uint(bytes: Seq<u8>, var: Variant, w: nat) -> Result<(nat, nat), NbtError> {
    if bytes.len() < w {
        Err(NbtError::UnexpectedEof)
    } else {
        Ok((uint_of(var, bytes.take(w as int)), w))
    }
}

/// Reads a string byte-length field.
pub open spec fn dec_str_len(bytes: Seq<u8>, var: Variant) -> Result<(nat, nat), NbtError> {
    if var.spec_uses_varint_lengths() {
        match spec_read_varint(bytes, 5) {
            Ok((n, used)) => Ok((n % 0x1_0000_0000, used)),
            Err(e) => Err(e),
        }
    } else {
        dec_uint(bytes, var, 2)
    }
}

/// Reads a list or array element-count field. A fixed-width count is a
/// signed 32-bit field; a negative count can never be satisfied by the
/// remaining input and reads as `UnexpectedEof`.
pub open spec fn dec_count(bytes: Seq<u8>, var: Variant) -> Result<(nat, nat), NbtError> {
    if var.spec_uses_varint_lengths() {
        match spec_read_varint(bytes, 5) {
            Ok((n, used)) => Ok((n % 0x1_0000_0000, used)),
            Err(e) => Err(e),
        }
    } else {
        match dec_uint(bytes, var, 4) {
            Ok((n, used)) => if n >= 0x8000_0000 {
                Err(NbtError::UnexpectedEof)
            } else {
                Ok((n, used))
            },
            Err(e) => Err(e),
        }
    }
}

/// Reads a length-prefixed string, validating UTF-8.
pub open spec fn dec_string(bytes: Seq<u8>, var: Variant) -> Result<(Seq<char>, nat), NbtError> {
    match dec_str_len(bytes, var) {
        Err(e) => Err(e),
        Ok((n, used)) => if bytes.len() < used + n {
            Err(NbtError::UnexpectedEof)
        } else {
            let raw = bytes.subrange(used as int, (used + n) as int);
            if valid_utf8(raw) {
                Ok((decode_utf8(raw), used + n))
            } else {
                Err(NbtError::InvalidUtf8)
            }
        },
    }
}

/// Reads an int payload under the variant's integer policy.
pub open spec fn dec_i32(bytes: Seq<u8>, var: Variant) -> Result<(i32, nat), NbtError> {
    if var.spec_uses_varint_integers() {
        match spec_read_varint(bytes, 5) {
            Ok((n, used)) => Ok((unzigzag32((n % 0x1_0000_0000) as u32), used)),
            Err(e) => Err(e),
        }
    } else {
        match dec_uint(bytes, var, 4) {
            Ok((n, used)) => Ok(((n as u32) as i32, used)),
            Err(e) => Err(e),
        }
    }
}

/// Reads a long payload under the variant's integer policy.
pub open spec fn dec_i64(bytes: Seq<u8>, var: Variant) -> Result<(i64, nat), NbtError> {
    if var.spec_uses_varint_integers() {
        match spec_read_varint(bytes, 10) {
            Ok((n, used)) => Ok((unzigzag64((n % 0x1_0000_0000_0000_0000) as u64), used)),
            Err(e) => Err(e),
        }
    } else {
        match dec_uint(bytes, var, 8) {
            Ok((n, used)) => Ok(((n as u64) as i64, used)),
            Err(e) => Err(e),
        }
    }
}

/// Reads a payload of the given tag. `d` bounds how much deeper lists and
/// compounds may nest.
pub open spec fn dec_payload(bytes: Seq<u8>, tag: FieldType, var: Variant, d: nat) -> Result<
    (SpecValue, nat),
    NbtError,
>
    decreases d, bytes.len(), 1nat, 0nat,
{
    match tag {
        FieldType::End => Err(NbtError::UnexpectedEndTag),
        FieldType::Byte => if bytes.len() < 1 {
            Err(NbtError::UnexpectedEof)
        } else {
            Ok((SpecValue::Byte(bytes[0] as i8), 1nat))
        },
        FieldType::Short => match dec_uint(bytes, var, 2) {
            Ok((n, used)) => Ok((SpecValue::Short((n as u16) as i16), used)),
            Err(e) => Err(e),
        },
        FieldType::Int => match dec_i32(bytes, var) {
            Ok((x, used)) => Ok((SpecValue::Int(x), used)),
            Err(e) => Err(e),
        },
        FieldType::Long => match dec_i64(bytes, var) {
            Ok((x, used)) => Ok((SpecValue::Long(x), used)),
            Err(e) => Err(e),
        },
        FieldType::Float => match dec_uint(bytes, var, 4) {
            Ok((n, used)) => Ok((SpecValue::Float(n as u32), used)),
            Err(e) => Err(e),
        },
        FieldType::Double => match dec_uint(bytes, var, 8) {
            Ok((n, used)) => Ok((SpecValue::Double(n as u64), used)),
            Err(e) => Err(e),
        },
        FieldType::ByteArray => match dec_count(bytes, var) {
            Err(e) => Err(e),
            Ok((n, used)) => if bytes.len() < used + n {
                Err(NbtError::UnexpectedEof)
            } else {
                Ok(
                    (
                        SpecValue::ByteArray(
                            Seq::new(n, |i: int| bytes[used + i] as i8),
                        ),
                        used + n,
                    ),
                )
            },
        },
        FieldType::String => match dec_string(bytes, var) {
            Ok((s, used)) => Ok((SpecValue::String(s), used)),
            Err(e) => Err(e),
        },
        FieldType::List => if bytes.len() < 1 {
            Err(NbtError::UnexpectedEof)
        } else if bytes[0] > 12 {
            Err(NbtError::TypeOutOfRange { actual: bytes[0] })
        } else {
            let etag = FieldType::spec_from_byte(bytes[0]);
            match dec_count(skipn(bytes, 1), var) {
                Err(e) => Err(e),
                Ok((n, cused)) => if n == 0 {
                    Ok((SpecValue::List(Seq::empty()), 1 + cused))
                } else if etag is End {
                    Err(NbtError::UnexpectedEndTag)
                } else if d == 0 {
                    Err(NbtError::DepthLimitExceeded)
                } else {
                    match dec_elems(skipn(bytes, 1 + cused), etag, var, (d - 1) as nat, n) {
                        Err(e) => Err(e),
                        Ok((elems, eused)) => Ok((SpecValue::List(elems), 1 + cused + eused)),
                    }
                },
            }
        },
        FieldType::Compound => if d == 0 {
            Err(NbtError::DepthLimitExceeded)
        } else {
            match dec_entries(bytes, var, (d - 1) as nat) {
                Err(e) => Err(e),
                Ok((entries, used)) => Ok((SpecValue::Compound(entries), used)),
            }
        },
        FieldType::IntArray => match dec_count(bytes, var) {
            Err(e) => Err(e),
            Ok((n, used)) => if bytes.len() < used + 4 * n {
                Err(NbtError::UnexpectedEof)
            } else {
                Ok(
                    (
                        SpecValue::IntArray(
                            Seq::new(
                                n,
                                |i: int| (uint_of(
                                    var,
                                    bytes.subrange(used + 4 * i, used + 4 * i + 4),
                                ) as u32) as i32,
                            ),
                        ),
                        used + 4 * n,
                    ),
                )
            },
        },
        FieldType::LongArray => match dec_count(bytes, var) {
            Err(e) => Err(e),
            Ok((n, used)) => if bytes.len() < used + 8 * n {
                Err(NbtError::UnexpectedEof)
            } else {
                Ok(
                    (
                        SpecValue::LongArray(
                            Seq::new(
                                n,
                                |i: int| (uint_of(
                                    var,
                                    bytes.subrange(used + 8 * i, used + 8 * i + 8),
                                ) as u64) as i64,
                            ),
                        ),
                        used + 8 * n,
                    ),
                )
            },
        },
    }
}

/// Reads `n` consecutive payloads of one tag: the body of a list.
pub open spec fn dec_elems(bytes: Seq<u8>, etag: FieldType, var: Variant, d: nat, n: nat) -> Result<
    (Seq<SpecValue>, nat),
    NbtError,
>
    decreases d, bytes.len(), 2nat, n,
{
    if n == 0 {
        Ok((Seq::empty(), 0nat))
    } else {
        match dec_payload(bytes, etag, var, d) {
            Err(e) => Err(e),
            Ok((v, used)) => match dec_elems(skipn(bytes, used), etag, var, d, (n - 1) as nat) {
                Err(e) => Err(e),
                Ok((rest, rused)) => Ok((seq![v] + rest, used + rused)),
            },
        }
    }
}

/// Reads compound entries up to and including the closing `End` tag byte.
/// `d` bounds the nesting of the entry payloads.
pub open spec fn dec_entries(bytes: Seq<u8>, var: Variant, d: nat) -> Result<
    (Seq<(Seq<char>, SpecValue)>, nat),
    NbtError,
>
    decreases d, bytes.len(), 0nat, 0nat,
{
    if bytes.len() == 0 {
        Err(NbtError::UnexpectedEof)
    } else if bytes[0] == 0 {
        Ok((Seq::empty(), 1nat))
    } else if bytes[0] > 12 {
        Err(NbtError::TypeOutOfRange { actual: bytes[0] })
    } else {
        let tag = FieldType::spec_from_byte(bytes[0]);
        match dec_string(skipn(bytes, 1), var) {
            Err(e) => Err(e),
            Ok((name, nused)) => match dec_payload(skipn(bytes, 1 + nused), tag, var, d) {
                Err(e) => Err(e),
                Ok((v, vused)) => match dec_entries(skipn(bytes, 1 + nused + vused), var, d) {
                    Err(e) => Err(e),
                    Ok((rest, rused)) => Ok(
                        (seq![(name, v)] + rest, 1 + nused + vused + rused),
                    ),
                },
            },
        }
    }
}

/// Reads a whole document: tag byte, root name, root payload. Returns the
/// name, the value and the count of bytes consumed.
pub open spec fn dec_root(bytes: Seq<u8>, var: Variant, d: nat) -> Result<
    ((Seq<char>, SpecValue), nat),
    NbtError,
> {
    if bytes.len() == 0 {
        Err(NbtError::UnexpectedEof)
    } else if bytes[0] == 0 {
        Err(NbtError::UnexpectedEndTag)
    } else if bytes[0] > 12 {
        Err(NbtError::TypeOutOfRange { actual: bytes[0] })
    } else {
        let tag = FieldType::spec_from_byte(bytes[0]);
        match dec_string(skipn(bytes, 1), var) {
            Err(e) => Err(e),
            Ok((name, nused)) => match dec_payload(skipn(bytes, 1 + nused), tag, var, d) {
                Err(e) => Err(e),
                Ok((v, vused)) => Ok((((name, v)), 1 + nused + vused)),
            },
        }
    }
}

} // verus!
