//! Deserializer: validates and decodes a byte stream into a value tree
//! under a chosen variant. Every byte of untrusted input is checked —
//! tag discriminants, lengths, string byte counts — before it is trusted,
//! and nesting is bounded by an explicit depth limit.

use vstd::prelude::*;
use vstd::arithmetic::div_mod::lemma_mod_mod;
use vstd::utf8::{encode_utf8, decode_utf8, valid_utf8, encode_utf8_decode_utf8};

use crate::EndiannessImpl;
use crate::FieldType;
use crate::Variant;
use crate::error::NbtError;
use crate::ints::{read_uint_bytes, unzigzag32_exec, unzigzag64_exec};
use crate::value::{Value, SpecValue, view_value};
use crate::varint::read_varint;
use crate::wire::{MAX_DEPTH, dec_uint, dec_count, dec_str_len, dec_string, dec_i32, dec_i64,
    dec_payload, dec_elems, dec_entries, dec_root, skipn, uint_of};

verus! {

broadcast use vstd::std_specs::vec::group_vec_axioms, vstd::seq::group_seq_axioms;

/// Relies on `str::from_utf8`: it succeeds exactly on valid UTF-8 input,
/// and the returned string is the one whose UTF-8 encoding is that input.
#[verifier::external_body]
fn bytes_to_string(raw: &[u8]) -> (r: Option<String>)
    ensures
        r is Some <==> valid_utf8(raw@),
        r is Some ==> encode_utf8(r.unwrap()@) == raw@,
{
    match std::str::from_utf8(raw) {
        Ok(s) => Some(s.to_owned()),
        Err(_) => None,
    }
}

/// Reads a fixed-width unsigned field in the variant's byte order.
fn decode_uint(bytes: &[u8], pos: usize, var: Variant, w: usize) -> (r: Result<
    (u64, usize),
    NbtError,
>)
    requires
        pos <= bytes@.len(),
        1 <= w <= 8,
    ensures
        match (r, dec_uint(bytes@.skip(pos as int), var, w as nat)) {
            (Ok((v, used)), Ok((n, m))) => used == m && v as nat == n && pos + used
                <= bytes@.len(),
            (Err(e1), Err(e2)) => e1 == e2,
            _ => false,
        },
{
    let ghost s = bytes@.skip(pos as int);
    if bytes.len() - pos < w {
        return Err(NbtError::UnexpectedEof);
    }
    proof {
        assert(s.take(w as int) =~= bytes@.subrange(pos as int, pos + w));
        assert(s.take(w as int).reverse() =~= bytes@.subrange(pos as int, pos + w).reverse());
    }
    let v = read_uint_bytes(bytes, pos, w, var.is_little_endian());
    Ok((v, w))
}

/// Reads a list or array count field.
fn decode_count(bytes: &[u8], pos: usize, var: Variant) -> (r: Result<(u32, usize), NbtError>)
    requires
        pos <= bytes@.len(),
    ensures
        match (r, dec_count(bytes@.skip(pos as int), var)) {
            (Ok((v, used)), Ok((n, m))) => used == m && v as nat == n && pos + used
                <= bytes@.len(),
            (Err(e1), Err(e2)) => e1 == e2,
            _ => false,
        },
{
    if var.uses_varint_lengths() {
        match read_varint(bytes, pos, 5) {
            Ok((v, used)) => {
                let ghost n = spec_read_varint_val(bytes@.skip(pos as int), 5);
                proof {
                    lemma_mod_mod(n as int, 0x1_0000_0000, 0x1_0000_0000);
                }
                Ok(((v % 0x1_0000_0000) as u32, used))
            },
            Err(e) => Err(e),
        }
    } else {
        match decode_uint(bytes, pos, var, 4) {
            Ok((v, used)) => {
                if v >= 0x8000_0000 {
                    Err(NbtError::UnexpectedEof)
                } else {
                    Ok((v as u32, used))
                }
            },
            Err(e) => Err(e),
        }
    }
}

/// The value that a varint at the front of `bytes` carries.
pub open spec fn spec_read_varint_val(bytes: Seq<u8>, max: nat) -> nat {
    crate::varint::spec_read_varint(bytes, max)->Ok_0.0
}

/// Reads a string byte-length field.
fn decode_str_len(bytes: &[u8], pos: usize, var: Variant) -> (r: Result<(u32, usize), NbtError>)
    requires
        pos <= bytes@.len(),
    ensures
        match (r, dec_str_len(bytes@.skip(pos as int), var)) {
            (Ok((v, used)), Ok((n, m))) => used == m && v as nat == n && pos + used
                <= bytes@.len(),
            (Err(e1), Err(e2)) => e1 == e2,
            _ => false,
        },
{
    if var.uses_varint_lengths() {
        match read_varint(bytes, pos, 5) {
            Ok((v, used)) => {
                let ghost n = spec_read_varint_val(bytes@.skip(pos as int), 5);
                proof {
                    lemma_mod_mod(n as int, 0x1_0000_0000, 0x1_0000_0000);
                }
                Ok(((v % 0x1_0000_0000) as u32, used))
            },
            Err(e) => Err(e),
        }
    } else {
        match decode_uint(bytes, pos, var, 2) {
            Ok((v, used)) => {
                proof {
                    let sg = bytes@.skip(pos as int).take(2);
                    assert(sg.len() == 2);
                    assert(sg.reverse().len() == 2);
                    crate::ints::lemma_nat_of_le_bytes_bound(sg);
                    crate::ints::lemma_nat_of_le_bytes_bound(sg.reverse());
                    assert(crate::ints::pow256(2) == 0x1_0000) by {
                        reveal_with_fuel(crate::ints::pow256, 3);
                    }
                }
                Ok((v as u32, used))
            },
            Err(e) => Err(e),
        }
    }
}

/// Reads a length-prefixed string, validating UTF-8.
fn decode_string(bytes: &[u8], pos: usize, var: Variant) -> (r: Result<(String, usize), NbtError>)
    requires
        pos <= bytes@.len(),
    ensures
        match (r, dec_string(bytes@.skip(pos as int), var)) {
            (Ok((s, used)), Ok((cs, m))) => used == m && s@ == cs && pos + used <= bytes@.len(),
            (Err(e1), Err(e2)) => e1 == e2,
            _ => false,
        },
{
    let ghost s = bytes@.skip(pos as int);
    let (n, lused) = match decode_str_len(bytes, pos, var) {
        Ok(x) => x,
        Err(e) => {
            return Err(e);
        },
    };
    let n_us = n as usize;
    if bytes.len() - pos - lused < n_us {
        return Err(NbtError::UnexpectedEof);
    }
    let start = pos + lused;
    let end = start + n_us;
    let raw = &bytes[start..end];
    proof {
        assert(raw@ =~= s.subrange(lused as int, lused + n));
    }
    match bytes_to_string(raw) {
        Some(text) => {
            proof {
                encode_utf8_decode_utf8(text@);
            }
            Ok((text, lused + n_us))
        },
        None => Err(NbtError::InvalidUtf8),
    }
}

/// Reads an int payload under the variant's integer policy.
fn decode_i32(bytes: &[u8], pos: usize, var: Variant) -> (r: Result<(i32, usize), NbtError>)
    requires
        pos <= bytes@.len(),
    ensures
        match (r, dec_i32(bytes@.skip(pos as int), var)) {
            (Ok((v, used)), Ok((x, m))) => used == m && v == x && pos + used <= bytes@.len(),
            (Err(e1), Err(e2)) => e1 == e2,
            _ => false,
        },
{
    if var.uses_varint_integers() {
        match read_varint(bytes, pos, 5) {
            Ok((v, used)) => {
                let ghost n = spec_read_varint_val(bytes@.skip(pos as int), 5);
                proof {
                    lemma_mod_mod(n as int, 0x1_0000_0000, 0x1_0000_0000);
                }
                Ok((unzigzag32_exec((v % 0x1_0000_0000) as u32), used))
            },
            Err(e) => Err(e),
        }
    } else {
        match decode_uint(bytes, pos, var, 4) {
            Ok((v, used)) => Ok((#[verifier::truncate] ((v as u32) as i32), used)),
            Err(e) => Err(e),
        }
    }
}

/// Reads a long payload under the variant's integer policy.
fn decode_i64(bytes: &[u8], pos: usize, var: Variant) -> (r: Result<(i64, usize), NbtError>)
    requires
        pos <= bytes@.len(),
    ensures
        match (r, dec_i64(bytes@.skip(pos as int), var)) {
            (Ok((v, used)), Ok((x, m))) => used == m && v == x && pos + used <= bytes@.len(),
            (Err(e1), Err(e2)) => e1 == e2,
            _ => false,
        },
{
    if var.uses_varint_integers() {
        match read_varint(bytes, pos, 10) {
            Ok((v, used)) => Ok((unzigzag64_exec(v), used)),
            Err(e) => Err(e),
        }
    } else {
        match decode_uint(bytes, pos, var, 8) {
            Ok((v, used)) => Ok((#[verifier::truncate] (v as i64), used)),
            Err(e) => Err(e),
        }
    }
}

/// Reads a byte-array payload: a count, then that many raw bytes.
#[verifier::loop_isolation(false)]
fn decode_byte_array(bytes: &[u8], pos: usize, var: Variant) -> (r: Result<
    (Vec<i8>, usize),
    NbtError,
>)
    requires
        pos <= bytes@.len(),
    ensures
        match (r, dec_payload(bytes@.skip(pos as int), FieldType::ByteArray, var, 0)) {
            (Ok((xs, used)), Ok((sv, m))) => used == m && view_value(Value::ByteArray(xs)) == sv
                && pos + used <= bytes@.len(),
            (Err(e1), Err(e2)) => e1 == e2,
            _ => false,
        },
{
    let ghost s = bytes@.skip(pos as int);
    let (n, cused) = match decode_count(bytes, pos, var) {
        Ok(x) => x,
        Err(e) => {
            return Err(e);
        },
    };
    let n_us = n as usize;
    if bytes.len() - pos - cused < n_us {
        return Err(NbtError::UnexpectedEof);
    }
    let ghost target = Seq::new(n as nat, |i: int| s[cused + i] as i8);
    let mut xs: Vec<i8> = Vec::new();
    let mut i: usize = 0;
    while i < n_us
        invariant
            i <= n_us,
            xs@ =~= target.take(i as int),
        decreases n_us - i,
    {
        proof {
            assert(target[i as int] == s[cused + i] as i8);
            assert(s[cused + i] == bytes@[pos + cused + i]);
        }
        let b = bytes[pos + cused + i];
        xs.push(#[verifier::truncate] (b as i8));
        i = i + 1;
    }
    proof {
        assert(xs@ =~= target);
    }
    Ok((xs, cused + n_us))
}

/// Reads an int-array payload: a count, then that many fixed-width ints in
/// the variant's byte order.
#[verifier::loop_isolation(false)]
fn decode_int_array(bytes: &[u8], pos: usize, var: Variant) -> (r: Result<
    (Vec<i32>, usize),
    NbtError,
>)
    requires
        pos <= bytes@.len(),
    ensures
        match (r, dec_payload(bytes@.skip(pos as int), FieldType::IntArray, var, 0)) {
            (Ok((xs, used)), Ok((sv, m))) => used == m && view_value(Value::IntArray(xs)) == sv
                && pos + used <= bytes@.len(),
            (Err(e1), Err(e2)) => e1 == e2,
            _ => false,
        },
{
    let ghost s = bytes@.skip(pos as int);
    let (n, cused) = match decode_count(bytes, pos, var) {
        Ok(x) => x,
        Err(e) => {
            return Err(e);
        },
    };
    let n_us = n as usize;
    if (bytes.len() - pos - cused) / 4 < n_us {
        return Err(NbtError::UnexpectedEof);
    }
    proof {
        assert(s.len() >= cused + 4 * (n as nat));
    }
    let ghost target = Seq::new(
        n as nat,
        |i: int| (uint_of(var, s.subrange(cused + 4 * i, cused + 4 * i + 4)) as u32) as i32,
    );
    let mut xs: Vec<i32> = Vec::new();
    let mut i: usize = 0;
    while i < n_us
        invariant
            i <= n_us,
            xs@ =~= target.take(i as int),
        decreases n_us - i,
    {
        let base = pos + cused + 4 * i;
        proof {
            assert(bytes@.subrange(base as int, base + 4) =~= s.subrange(
                cused + 4 * i,
                cused + 4 * i + 4,
            ));
            assert(bytes@.subrange(base as int, base + 4).reverse() =~= s.subrange(
                cused + 4 * i,
                cused + 4 * i + 4,
            ).reverse());
        }
        let v = read_uint_bytes(bytes, base, 4, var.is_little_endian());
        xs.push(#[verifier::truncate] ((v as u32) as i32));
        proof {
            assert(xs@ =~= target.take(i + 1));
        }
        i = i + 1;
    }
    proof {
        assert(xs@ =~= target);
    }
    Ok((xs, cused + 4 * n_us))
}

/// Reads a long-array payload.
#[verifier::loop_isolation(false)]
fn decode_long_array(bytes: &[u8], pos: usize, var: Variant) -> (r: Result<
    (Vec<i64>, usize),
    NbtError,
>)
    requires
        pos <= bytes@.len(),
    ensures
        match (r, dec_payload(bytes@.skip(pos as int), FieldType::LongArray, var, 0)) {
            (Ok((xs, used)), Ok((sv, m))) => used == m && view_value(Value::LongArray(xs)) == sv
                && pos + used <= bytes@.len(),
            (Err(e1), Err(e2)) => e1 == e2,
            _ => false,
        },
{
    let ghost s = bytes@.skip(pos as int);
    let (n, cused) = match decode_count(bytes, pos, var) {
        Ok(x) => x,
        Err(e) => {
            return Err(e);
        },
    };
    let n_us = n as usize;
    if (bytes.len() - pos - cused) / 8 < n_us {
        return Err(NbtError::UnexpectedEof);
    }
    proof {
        assert(s.len() >= cused + 8 * (n as nat));
    }
    let ghost target = Seq::new(
        n as nat,
        |i: int| (uint_of(var, s.subrange(cused + 8 * i, cused + 8 * i + 8)) as u64) as i64,
    );
    let mut xs: Vec<i64> = Vec::new();
    let mut i: usize = 0;
    while i < n_us
        invariant
            i <= n_us,
            xs@ =~= target.take(i as int),
        decreases n_us - i,
    {
        let base = pos + cused + 8 * i;
        proof {
            assert(bytes@.subrange(base as int, base + 8) =~= s.subrange(
                cused + 8 * i,
                cused + 8 * i + 8,
            ));
            assert(bytes@.subrange(base as int, base + 8).reverse() =~= s.subrange(
                cused + 8 * i,
                cused + 8 * i + 8,
            ).reverse());
        }
        let v = read_uint_bytes(bytes, base, 8, var.is_little_endian());
        xs.push(#[verifier::truncate] (v as i64));
        proof {
            assert(xs@ =~= target.take(i + 1));
        }
        i = i + 1;
    }
    proof {
        assert(xs@ =~= target);
    }
    Ok((xs, cused + 8 * n_us))
}


/// The element views of a list's backing vector.
pub open spec fn list_views(vec: Vec<Value>) -> Seq<SpecValue> {
    view_value(Value::List(vec))->List_0
}

/// The entry views of a compound's backing vector.
pub open spec fn compound_views(vec: Vec<(String, Value)>) -> Seq<(Seq<char>, SpecValue)> {
    view_value(Value::Compound(vec))->Compound_0
}

/// Reads a payload of the given tag at `pos`. `d` bounds how much deeper
/// lists and compounds may nest. Follows [`dec_payload`] exactly.
#[verifier::rlimit(60)]
fn decode_payload(bytes: &[u8], pos: usize, tag: FieldType, var: Variant, d: u32) -> (r: Result<
    (Value, usize),
    NbtError,
>)
    requires
        pos <= bytes@.len(),
    ensures
        match (r, dec_payload(bytes@.skip(pos as int), tag, var, d as nat)) {
            (Ok((v, used)), Ok((sv, m))) => used == m && v@ == sv && pos + used <= bytes@.len(),
            (Err(e1), Err(e2)) => e1 == e2,
            _ => false,
        },
    decreases d, bytes@.len() - pos, 1nat, 0nat,
{
    let ghost s = bytes@.skip(pos as int);
    match tag {
        FieldType::End => Err(NbtError::UnexpectedEndTag),
        FieldType::Byte => {
            if pos >= bytes.len() {
                return Err(NbtError::UnexpectedEof);
            }
            let b = bytes[pos];
            proof {
                assert(s[0] == b);
            }
            Ok((Value::Byte(#[verifier::truncate] (b as i8)), 1))
        },
        FieldType::Short => match decode_uint(bytes, pos, var, 2) {
            Ok((v, used)) => Ok(
                (Value::Short(#[verifier::truncate] ((v as u16) as i16)), used),
            ),
            Err(e) => Err(e),
        },
        FieldType::Int => match decode_i32(bytes, pos, var) {
            Ok((x, used)) => Ok((Value::Int(x), used)),
            Err(e) => Err(e),
        },
        FieldType::Long => match decode_i64(bytes, pos, var) {
            Ok((x, used)) => Ok((Value::Long(x), used)),
            Err(e) => Err(e),
        },
        FieldType::Float => match decode_uint(bytes, pos, var, 4) {
            Ok((v, used)) => Ok((Value::Float(#[verifier::truncate] (v as u32)), used)),
            Err(e) => Err(e),
        },
        FieldType::Double => match decode_uint(bytes, pos, var, 8) {
            Ok((v, used)) => Ok((Value::Double(v), used)),
            Err(e) => Err(e),
        },
        FieldType::ByteArray => {
            proof {
                assert(dec_payload(s, FieldType::ByteArray, var, d as nat) == dec_payload(
                    s,
                    FieldType::ByteArray,
                    var,
                    0,
                ));
            }
            match decode_byte_array(bytes, pos, var) {
                Ok((xs, used)) => Ok((Value::ByteArray(xs), used)),
                Err(e) => Err(e),
            }
        },
        FieldType::String => match decode_string(bytes, pos, var) {
            Ok((text, used)) => Ok((Value::String(text), used)),
            Err(e) => Err(e),
        },
        FieldType::List => {
            if pos >= bytes.len() {
                return Err(NbtError::UnexpectedEof);
            }
            let tb = bytes[pos];
            proof {
                assert(s[0] == tb);
            }
            let etag = match FieldType::from_byte(tb) {
                Ok(t) => t,
                Err(e) => {
                    return Err(e);
                },
            };
            proof {
                assert(skipn(s, 1) =~= bytes@.skip(pos + 1));
            }
            let (n, cused) = match decode_count(bytes, pos + 1, var) {
                Ok(x) => x,
                Err(e) => {
                    return Err(e);
                },
            };
            if n == 0 {
                let empty_list: Vec<Value> = Vec::new();
                let v = Value::List(empty_list);
                proof {
                    assert(v@ == view_value(v));
                    assert(v@->List_0 =~= Seq::<SpecValue>::empty());
                }
                return Ok((v, 1 + cused));
            }
            if matches!(etag, FieldType::End) {
                return Err(NbtError::UnexpectedEndTag);
            }
            if d == 0 {
                return Err(NbtError::DepthLimitExceeded);
            }
            proof {
                assert(skipn(s, 1 + cused as nat) =~= bytes@.skip(pos + 1 + cused));
            }
            match decode_elems(bytes, pos + 1 + cused, etag, var, d - 1, n) {
                Ok((vec, eused)) => {
                    let v = Value::List(vec);
                    Ok((v, 1 + cused + eused))
                },
                Err(e) => Err(e),
            }
        },
        FieldType::Compound => {
            if d == 0 {
                return Err(NbtError::DepthLimitExceeded);
            }
            match decode_entries(bytes, pos, var, d - 1) {
                Ok((vec, used)) => Ok((Value::Compound(vec), used)),
                Err(e) => Err(e),
            }
        },
        FieldType::IntArray => {
            proof {
                assert(dec_payload(s, FieldType::IntArray, var, d as nat) == dec_payload(
                    s,
                    FieldType::IntArray,
                    var,
                    0,
                ));
            }
            match decode_int_array(bytes, pos, var) {
                Ok((xs, used)) => Ok((Value::IntArray(xs), used)),
                Err(e) => Err(e),
            }
        },
        FieldType::LongArray => {
            proof {
                assert(dec_payload(s, FieldType::LongArray, var, d as nat) == dec_payload(
                    s,
                    FieldType::LongArray,
                    var,
                    0,
                ));
            }
            match decode_long_array(bytes, pos, var) {
                Ok((xs, used)) => Ok((Value::LongArray(xs), used)),
                Err(e) => Err(e),
            }
        },
    }
}

/// Reads `n` consecutive payloads of one tag: a list body. Follows
/// [`dec_elems`] exactly.
#[verifier::rlimit(60)]
#[verifier::loop_isolation(false)]
fn decode_elems(bytes: &[u8], pos: usize, etag: FieldType, var: Variant, d: u32, n: u32) -> (r:
    Result<(Vec<Value>, usize), NbtError>)
    requires
        pos <= bytes@.len(),
    ensures
        match (r, dec_elems(bytes@.skip(pos as int), etag, var, d as nat, n as nat)) {
            (Ok((vec, used)), Ok((svs, m))) => used == m && pos + used <= bytes@.len()
                && view_value(Value::List(vec)) == SpecValue::List(svs),
            (Err(e1), Err(e2)) => e1 == e2,
            _ => false,
        },
    decreases d, bytes@.len() - pos, 2nat, n,
{
    let ghost s = bytes@.skip(pos as int);
    let total = bytes.len();
    let mut vec: Vec<Value> = Vec::new();
    let mut off: usize = 0;
    let mut i: u32 = 0;
    proof {
        assert(skipn(s, 0nat) =~= s);
        match dec_elems(s, etag, var, d as nat, n as nat) {
            Ok((rest, ru)) => {
                assert(list_views(vec) =~= Seq::<SpecValue>::empty());
                assert(list_views(vec) + rest =~= rest);
            },
            Err(e) => {},
        }
    }
    while i < n
        invariant
            i <= n,
            pos + off <= bytes@.len(),
            vec@.len() == i,
            dec_elems(s, etag, var, d as nat, n as nat) == (match dec_elems(
                skipn(s, off as nat),
                etag,
                var,
                d as nat,
                (n - i) as nat,
            ) {
                Ok((rest, ru)) => Ok::<_, NbtError>(
                    (list_views(vec) + rest, (off + ru) as nat),
                ),
                Err(e) => Err(e),
            }),
        decreases n - i,
    {
        proof {
            assert(skipn(s, off as nat) =~= bytes@.skip(pos + off));
        }
        match decode_payload(bytes, pos + off, etag, var, d) {
            Ok((v, used)) => {
                proof {
                    assert(skipn(skipn(s, off as nat), used as nat) =~= skipn(
                        s,
                        (off + used) as nat,
                    ));
                    assert(list_views(vec).push(v@) =~= list_views(vec) + seq![v@]);
                }
                let ghost old_vec = vec;
                vec.push(v);
                proof {
                    assert(list_views(vec) =~= list_views(old_vec) + seq![v@]);
                    match dec_elems(
                        skipn(s, (off + used) as nat),
                        etag,
                        var,
                        d as nat,
                        (n - i - 1) as nat,
                    ) {
                        Ok((rest, ru)) => {
                            assert(list_views(old_vec) + (seq![v@] + rest) =~= list_views(vec)
                                + rest);
                        },
                        Err(e) => {},
                    }
                }
                off = off + used;
                i = i + 1;
            },
            Err(e) => {
                return Err(e);
            },
        }
    }
    proof {
        assert(dec_elems(skipn(s, off as nat), etag, var, d as nat, 0) == Ok::<
            (Seq<SpecValue>, nat),
            NbtError,
        >((Seq::empty(), 0)));
        assert(list_views(vec) + Seq::<SpecValue>::empty() =~= list_views(vec));
        assert(view_value(Value::List(vec)) == SpecValue::List(list_views(vec)));
    }
    Ok((vec, off))
}

/// Reads one compound entry at `pos`: `None` when the closing `End` tag
/// byte stands there, else the entry and the bytes it consumed.
#[verifier::rlimit(100)]
#[verifier::spinoff_prover]
fn decode_one_entry(bytes: &[u8], pos: usize, var: Variant, d: u32) -> (r: Result<
    Option<((String, Value), usize)>,
    NbtError,
>)
    requires
        pos <= bytes@.len(),
    ensures
        match (r, dec_entries(bytes@.skip(pos as int), var, d as nat)) {
            (Ok(None), Ok((svs, m))) => svs == Seq::<(Seq<char>, SpecValue)>::empty() && m == 1,
            (Ok(None), Err(e2)) => false,
            (Ok(Some(((name, v), used))), _) => 1 <= used && pos + used <= bytes@.len()
                && dec_entries(bytes@.skip(pos as int), var, d as nat) == (match dec_entries(
                skipn(bytes@.skip(pos as int), used as nat),
                var,
                d as nat,
            ) {
                Ok((rest, ru)) => Ok::<_, NbtError>(
                    (seq![(name@, v@)] + rest, (used + ru) as nat),
                ),
                Err(e) => Err(e),
            }),
            (Err(e1), Err(e2)) => e1 == e2,
            (Err(e1), Ok(x)) => false,
        },
    decreases d, bytes@.len() - pos, 0nat, 0nat,
{
    let ghost cur = bytes@.skip(pos as int);
    if pos >= bytes.len() {
        return Err(NbtError::UnexpectedEof);
    }
    let tb = bytes[pos];
    proof {
        assert(cur[0] == tb);
    }
    if tb == 0 {
        return Ok(None);
    }
    let etag = match FieldType::from_byte(tb) {
        Ok(t) => t,
        Err(e) => {
            return Err(e);
        },
    };
    proof {
        assert(skipn(cur, 1) =~= bytes@.skip(pos + 1));
    }
    let (name, nused) = match decode_string(bytes, pos + 1, var) {
        Ok(x) => x,
        Err(e) => {
            return Err(e);
        },
    };
    proof {
        assert(skipn(cur, (1 + nused) as nat) =~= bytes@.skip(pos + 1 + nused));
    }
    let (v, vused) = match decode_payload(bytes, pos + 1 + nused, etag, var, d) {
        Ok(x) => x,
        Err(e) => {
            return Err(e);
        },
    };
    proof {
        assert(skipn(cur, (1 + nused + vused) as nat) =~= bytes@.skip(pos + 1 + nused + vused));
    }
    Ok(Some(((name, v), 1 + nused + vused)))
}

/// Reads compound entries up to and including the closing `End` tag byte.
/// Follows [`dec_entries`] exactly.
#[verifier::rlimit(60)]
#[verifier::loop_isolation(false)]
fn decode_entries(bytes: &[u8], pos: usize, var: Variant, d: u32) -> (r: Result<
    (Vec<(String, Value)>, usize),
    NbtError,
>)
    requires
        pos <= bytes@.len(),
    ensures
        match (r, dec_entries(bytes@.skip(pos as int), var, d as nat)) {
            (Ok((vec, used)), Ok((svs, m))) => used == m && pos + used <= bytes@.len()
                && view_value(Value::Compound(vec)) == SpecValue::Compound(svs),
            (Err(e1), Err(e2)) => e1 == e2,
            _ => false,
        },
    decreases d, bytes@.len() - pos, 1nat, 0nat,
{
    let ghost s = bytes@.skip(pos as int);
    let total = bytes.len();
    let mut vec: Vec<(String, Value)> = Vec::new();
    let mut off: usize = 0;
    proof {
        assert(skipn(s, 0nat) =~= s);
        match dec_entries(s, var, d as nat) {
            Ok((rest, ru)) => {
                assert(compound_views(vec) =~= Seq::<(Seq<char>, SpecValue)>::empty());
                assert(compound_views(vec) + rest =~= rest);
            },
            Err(e) => {},
        }
    }
    loop
        invariant
            pos + off <= bytes@.len(),
            dec_entries(s, var, d as nat) == (match dec_entries(
                skipn(s, off as nat),
                var,
                d as nat,
            ) {
                Ok((rest, ru)) => Ok::<_, NbtError>(
                    (compound_views(vec) + rest, (off + ru) as nat),
                ),
                Err(e) => Err(e),
            }),
        decreases bytes@.len() - pos - off,
    {
        proof {
            assert(skipn(s, off as nat) =~= bytes@.skip(pos + off));
        }
        match decode_one_entry(bytes, pos + off, var, d) {
            Err(e) => {
                return Err(e);
            },
            Ok(None) => {
                proof {
                    assert(compound_views(vec) + Seq::<(Seq<char>, SpecValue)>::empty()
                        =~= compound_views(vec));
                    assert(view_value(Value::Compound(vec)) == SpecValue::Compound(
                        compound_views(vec),
                    ));
                }
                return Ok((vec, off + 1));
            },
            Ok(Some(((name, v), used))) => {
                let ghost old_vec = vec;
                let ghost namev = name@;
                proof {
                    assert(skipn(skipn(s, off as nat), used as nat) =~= skipn(
                        s,
                        (off + used) as nat,
                    ));
                }
                vec.push((name, v));
                proof {
                    assert(compound_views(vec) =~= compound_views(old_vec) + seq![
                        (namev, v@),
                    ]);
                    match dec_entries(skipn(s, (off + used) as nat), var, d as nat) {
                        Ok((rest, ru)) => {
                            assert(compound_views(old_vec) + (seq![(namev, v@)] + rest)
                                =~= compound_views(vec) + rest);
                        },
                        Err(e) => {},
                    }
                }
                off = off + used;
            },
        }
    }
}

/// Reads a whole document at the front of `bytes`: the root tag byte, the
/// root name, the root payload. Follows [`dec_root`] exactly.
fn decode_root(bytes: &[u8], var: Variant, d: u32) -> (r: Result<
    ((String, Value), usize),
    NbtError,
>)
    ensures
        match (r, dec_root(bytes@, var, d as nat)) {
            (Ok(((name, v), used)), Ok(((sname, sv), m))) => used == m && used <= bytes@.len()
                && name@ == sname && v@ == sv,
            (Err(e1), Err(e2)) => e1 == e2,
            _ => false,
        },
{
    if bytes.len() == 0 {
        return Err(NbtError::UnexpectedEof);
    }
    let tb = bytes[0];
    if tb == 0 {
        return Err(NbtError::UnexpectedEndTag);
    }
    let tag = match FieldType::from_byte(tb) {
        Ok(t) => t,
        Err(e) => {
            return Err(e);
        },
    };
    proof {
        assert(skipn(bytes@, 1) =~= bytes@.skip(1));
    }
    let (name, nused) = match decode_string(bytes, 1, var) {
        Ok(x) => x,
        Err(e) => {
            return Err(e);
        },
    };
    proof {
        assert(skipn(bytes@, (1 + nused) as nat) =~= bytes@.skip(1 + nused));
    }
    match decode_payload(bytes, 1 + nused, tag, var, d) {
        Ok((v, vused)) => Ok(((name, v), 1 + nused + vused)),
        Err(e) => Err(e),
    }
}

/// Decodes a named root value, ignoring any bytes after it. Returns the
/// root name and the value; fails exactly as [`dec_root`] says.
pub fn from_bytes_named<T: EndiannessImpl>(bytes: &[u8]) -> (r: Result<(String, Value), NbtError>)
    ensures
        match (r, dec_root(bytes@, T::variant(), MAX_DEPTH as nat)) {
            (Ok((name, v)), Ok(((sname, sv), m))) => name@ == sname && v@ == sv,
            (Err(e1), Err(e2)) => e1 == e2,
            _ => false,
        },
{
    let var = T::as_enum();
    match decode_root(bytes, var, MAX_DEPTH) {
        Ok((pair, _)) => Ok(pair),
        Err(e) => Err(e),
    }
}

/// Decodes a named root value in strict mode: bytes after the root value
/// fail with `TrailingBytes`.
pub fn from_bytes_named_strict<T: EndiannessImpl>(bytes: &[u8]) -> (r: Result<
    (String, Value),
    NbtError,
>)
    ensures
        match (r, dec_root(bytes@, T::variant(), MAX_DEPTH as nat)) {
            (Ok((name, v)), Ok(((sname, sv), m))) => name@ == sname && v@ == sv && m
                == bytes@.len(),
            (Err(e1), Ok(((sname, sv), m))) => m < bytes@.len() && e1
                == NbtError::TrailingBytes,
            (Err(e1), Err(e2)) => e1 == e2,
            _ => false,
        },
{
    let var = T::as_enum();
    match decode_root(bytes, var, MAX_DEPTH) {
        Ok((pair, used)) => {
            if used < bytes.len() {
                Err(NbtError::TrailingBytes)
            } else {
                Ok(pair)
            }
        },
        Err(e) => Err(e),
    }
}

/// Decodes a root value, ignoring the root name and any trailing bytes.
pub fn from_bytes<T: EndiannessImpl>(bytes: &[u8]) -> (r: Result<Value, NbtError>)
    ensures
        match (r, dec_root(bytes@, T::variant(), MAX_DEPTH as nat)) {
            (Ok(v), Ok(((sname, sv), m))) => v@ == sv,
            (Err(e1), Err(e2)) => e1 == e2,
            _ => false,
        },
{
    match from_bytes_named::<T>(bytes) {
        Ok((_, v)) => Ok(v),
        Err(e) => Err(e),
    }
}

/// Decodes a root value in strict mode: bytes after the root value fail
/// with `TrailingBytes`.
pub fn from_bytes_strict<T: EndiannessImpl>(bytes: &[u8]) -> (r: Result<Value, NbtError>)
    ensures
        match (r, dec_root(bytes@, T::variant(), MAX_DEPTH as nat)) {
            (Ok(v), Ok(((sname, sv), m))) => v@ == sv && m == bytes@.len(),
            (Err(e1), Ok(((sname, sv), m))) => m < bytes@.len() && e1
                == NbtError::TrailingBytes,
            (Err(e1), Err(e2)) => e1 == e2,
            _ => false,
        },
{
    match from_bytes_named_strict::<T>(bytes) {
        Ok((_, v)) => Ok(v),
        Err(e) => Err(e),
    }
}

/// Decodes a root value under the big endian variant.
pub fn from_be_bytes(bytes: &[u8]) -> (r: Result<Value, NbtError>)
    ensures
        match (r, dec_root(bytes@, Variant::BigEndian, MAX_DEPTH as nat)) {
            (Ok(v), Ok(((sname, sv), m))) => v@ == sv,
            (Err(e1), Err(e2)) => e1 == e2,
            _ => false,
        },
{
    from_bytes::<crate::BigEndian>(bytes)
}

/// Decodes a root value under the little endian variant.
pub fn from_le_bytes(bytes: &[u8]) -> (r: Result<Value, NbtError>)
    ensures
        match (r, dec_root(bytes@, Variant::LittleEndian, MAX_DEPTH as nat)) {
            (Ok(v), Ok(((sname, sv), m))) => v@ == sv,
            (Err(e1), Err(e2)) => e1 == e2,
            _ => false,
        },
{
    from_bytes::<crate::LittleEndian>(bytes)
}

/// Decodes a root value under the network little endian variant.
pub fn from_net_bytes(bytes: &[u8]) -> (r: Result<Value, NbtError>)
    ensures
        match (r, dec_root(bytes@, Variant::NetworkEndian, MAX_DEPTH as nat)) {
            (Ok(v), Ok(((sname, sv), m))) => v@ == sv,
            (Err(e1), Err(e2)) => e1 == e2,
            _ => false,
        },
{
    from_bytes::<crate::NetworkLittleEndian>(bytes)
}

} // verus!
