//! Serializer: converts a value tree into a correctly tagged, correctly
//! ordered byte stream for a chosen variant, by recursive descent with an
//! explicit nesting-depth limit.

use vstd::prelude::*;
use vstd::utf8::encode_utf8;

use crate::EndiannessImpl;
use crate::Variant;
use crate::error::NbtError;
use crate::ints::{push_uint_bytes, zigzag32_exec, zigzag64_exec};
use crate::value::{Value, SpecValue, view_value, height_le, spec_tag_of};
use crate::varint::push_varint;
use crate::wire::{MAX_DEPTH, str_len_max, count_max, enc_payload, enc_elems, enc_entries,
    enc_entry, enc_root, encodable, string_bytes, list_elem_tag};

verus! {

broadcast use vstd::std_specs::vec::group_vec_axioms, vstd::seq::group_seq_axioms;

/// Appends every byte of `s` to `out`.
#[verifier::loop_isolation(false)]
fn push_slice(out: &mut Vec<u8>, s: &[u8])
    ensures
        final(out)@ == old(out)@ + s@,
{
    let mut i: usize = 0;
    while i < s.len()
        invariant
            i <= s@.len(),
            out@ == old(out)@ + s@.take(i as int),
        decreases s@.len() - i,
    {
        proof {
            assert(old(out)@ + s@.take(i + 1) =~= (old(out)@ + s@.take(i as int)) + seq![
                s@[i as int],
            ]);
        }
        out.push(s[i]);
        i = i + 1;
    }
    proof {
        assert(s@.take(s@.len() as int) =~= s@);
    }
}

/// The largest string byte length the variant can encode.
fn str_len_max_val(var: Variant) -> (r: u64)
    ensures
        r as nat == str_len_max(var),
{
    if var.uses_varint_lengths() {
        0xFFFF_FFFF
    } else {
        0xFFFF
    }
}

/// The largest element count the variant can encode.
fn count_max_val(var: Variant) -> (r: u64)
    ensures
        r as nat == count_max(var),
{
    if var.uses_varint_lengths() {
        0xFFFF_FFFF
    } else {
        0x7FFF_FFFF
    }
}

/// Appends a count field for `n` elements.
fn push_count(out: &mut Vec<u8>, n: usize, var: Variant)
    ensures
        final(out)@ == old(out)@ + crate::wire::count_bytes(var, n as nat),
{
    if var.uses_varint_lengths() {
        push_varint(out, n as u64);
    } else {
        push_uint_bytes(out, n as u64, 4, var.is_little_endian());
    }
}

/// Appends a length-prefixed string, or reports that its byte length does
/// not fit the variant's length policy.
fn encode_string(out: &mut Vec<u8>, s: &str, var: Variant) -> (r: Result<(), NbtError>)
    ensures
        r is Ok <==> encode_utf8(s@).len() <= str_len_max(var),
        r is Ok ==> final(out)@ == old(out)@ + string_bytes(var, s@),
        r is Err ==> r == Err::<(), NbtError>(NbtError::SequenceTooLong) && final(out)@ == old(
            out,
        )@,
{
    let bs = s.as_bytes();
    let n = bs.len();
    if (n as u64) > str_len_max_val(var) {
        return Err(NbtError::SequenceTooLong);
    }
    if var.uses_varint_lengths() {
        push_varint(out, n as u64);
    } else {
        push_uint_bytes(out, n as u64, 2, var.is_little_endian());
    }
    push_slice(out, bs);
    Ok(())
}

/// Appends a byte-array payload: a count field, then the raw bytes.
#[verifier::loop_isolation(false)]
fn encode_byte_array(out: &mut Vec<u8>, xs: &Vec<i8>, var: Variant) -> (r: Result<(), NbtError>)
    ensures
        r is Ok <==> xs@.len() <= count_max(var),
        r is Ok ==> final(out)@ == old(out)@ + crate::wire::count_bytes(var, xs@.len())
            + crate::wire::byte_array_bytes(xs@),
        r is Err ==> r == Err::<(), NbtError>(NbtError::SequenceTooLong),
{
    if (xs.len() as u64) > count_max_val(var) {
        return Err(NbtError::SequenceTooLong);
    }
    push_count(out, xs.len(), var);
    let ghost body = crate::wire::byte_array_bytes(xs@);
    let ghost mid = out@;
    let mut i: usize = 0;
    while i < xs.len()
        invariant
            i <= xs@.len(),
            out@ == mid + body.take(i as int),
        decreases xs@.len() - i,
    {
        proof {
            assert(mid + body.take(i + 1) =~= (mid + body.take(i as int)) + seq![body[i as int]]);
        }
        out.push(xs[i] as u8);
        i = i + 1;
    }
    proof {
        assert(body.take(xs@.len() as int) =~= body);
    }
    Ok(())
}

/// Appends an int-array payload: a count field, then fixed-width elements
/// in the variant's byte order.
#[verifier::loop_isolation(false)]
fn encode_int_array(out: &mut Vec<u8>, xs: &Vec<i32>, var: Variant) -> (r: Result<(), NbtError>)
    ensures
        r is Ok <==> xs@.len() <= count_max(var),
        r is Ok ==> final(out)@ == old(out)@ + crate::wire::count_bytes(var, xs@.len())
            + crate::wire::int_array_bytes(var, xs@),
        r is Err ==> r == Err::<(), NbtError>(NbtError::SequenceTooLong),
{
    if (xs.len() as u64) > count_max_val(var) {
        return Err(NbtError::SequenceTooLong);
    }
    push_count(out, xs.len(), var);
    let ghost mid = out@;
    proof {
        assert(xs@.skip(0) =~= xs@);
    }
    let mut i: usize = 0;
    while i < xs.len()
        invariant
            i <= xs@.len(),
            out@ + crate::wire::int_array_bytes(var, xs@.skip(i as int)) == mid
                + crate::wire::int_array_bytes(var, xs@),
        decreases xs@.len() - i,
    {
        proof {
            assert(xs@.skip(i as int).drop_first() =~= xs@.skip(i + 1));
            assert(crate::wire::int_array_bytes(var, xs@.skip(i as int)) == crate::wire::uint_bytes(
                var,
                (xs@[i as int] as u32) as nat,
                4,
            ) + crate::wire::int_array_bytes(var, xs@.skip(i + 1)));
        }
        push_uint_bytes(out, (xs[i] as u32) as u64, 4, var.is_little_endian());
        i = i + 1;
    }
    proof {
        assert(xs@.skip(xs@.len() as int) =~= Seq::<i32>::empty());
        assert(out@ =~= mid + crate::wire::int_array_bytes(var, xs@));
        assert(out@ =~= old(out)@ + crate::wire::count_bytes(var, xs@.len())
            + crate::wire::int_array_bytes(var, xs@));
    }
    Ok(())
}

/// Appends a long-array payload.
#[verifier::loop_isolation(false)]
fn encode_long_array(out: &mut Vec<u8>, xs: &Vec<i64>, var: Variant) -> (r: Result<(), NbtError>)
    ensures
        r is Ok <==> xs@.len() <= count_max(var),
        r is Ok ==> final(out)@ == old(out)@ + crate::wire::count_bytes(var, xs@.len())
            + crate::wire::long_array_bytes(var, xs@),
        r is Err ==> r == Err::<(), NbtError>(NbtError::SequenceTooLong),
{
    if (xs.len() as u64) > count_max_val(var) {
        return Err(NbtError::SequenceTooLong);
    }
    push_count(out, xs.len(), var);
    let ghost mid = out@;
    proof {
        assert(xs@.skip(0) =~= xs@);
    }
    let mut i: usize = 0;
    while i < xs.len()
        invariant
            i <= xs@.len(),
            out@ + crate::wire::long_array_bytes(var, xs@.skip(i as int)) == mid
                + crate::wire::long_array_bytes(var, xs@),
        decreases xs@.len() - i,
    {
        proof {
            assert(xs@.skip(i as int).drop_first() =~= xs@.skip(i + 1));
            assert(crate::wire::long_array_bytes(var, xs@.skip(i as int))
                == crate::wire::uint_bytes(var, (xs@[i as int] as u64) as nat, 8)
                + crate::wire::long_array_bytes(var, xs@.skip(i + 1)));
        }
        push_uint_bytes(out, xs[i] as u64, 8, var.is_little_endian());
        i = i + 1;
    }
    proof {
        assert(xs@.skip(xs@.len() as int) =~= Seq::<i64>::empty());
        assert(out@ =~= mid + crate::wire::long_array_bytes(var, xs@));
        assert(out@ =~= old(out)@ + crate::wire::count_bytes(var, xs@.len())
            + crate::wire::long_array_bytes(var, xs@));
    }
    Ok(())
}

/// Appends the payload bytes of `value`. `d` bounds how much deeper lists
/// and compounds may nest; the caller has already checked it. The only
/// failure is a sequence or string longer than the variant's length policy
/// can encode, and then exactly when the tree holds one.
fn encode_payload(value: &Value, var: Variant, d: u32, out: &mut Vec<u8>) -> (r: Result<
    (),
    NbtError,
>)
    requires
        height_le(value@, d as nat),
    ensures
        r is Ok <==> encodable(value@, var),
        r is Ok ==> final(out)@ == old(out)@ + enc_payload(value@, var),
        r is Err ==> r == Err::<(), NbtError>(NbtError::SequenceTooLong),
    decreases d, 1nat,
{
    match value {
        Value::Byte(x) => {
            out.push(*x as u8);
            proof {
                assert(out@ =~= old(out)@ + enc_payload(value@, var));
            }
            Ok(())
        },
        Value::Short(x) => {
            push_uint_bytes(out, (*x as u16) as u64, 2, var.is_little_endian());
            Ok(())
        },
        Value::Int(x) => {
            if var.uses_varint_integers() {
                let z = zigzag32_exec(*x);
                push_varint(out, z as u64);
            } else {
                push_uint_bytes(out, (*x as u32) as u64, 4, var.is_little_endian());
            }
            Ok(())
        },
        Value::Long(x) => {
            if var.uses_varint_integers() {
                let z = zigzag64_exec(*x);
                push_varint(out, z);
            } else {
                push_uint_bytes(out, *x as u64, 8, var.is_little_endian());
            }
            Ok(())
        },
        Value::Float(b) => {
            push_uint_bytes(out, *b as u64, 4, var.is_little_endian());
            Ok(())
        },
        Value::Double(b) => {
            push_uint_bytes(out, *b, 8, var.is_little_endian());
            Ok(())
        },
        Value::ByteArray(xs) => {
            let r = encode_byte_array(out, xs, var);
            proof {
                if r is Ok {
                    assert(final(out)@ =~= old(out)@ + enc_payload(value@, var));
                }
            }
            r
        },
        Value::String(s) => encode_string(out, s.as_str(), var),
        Value::List(elems) => encode_list(elems, var, d, out),
        Value::Compound(entries) => encode_compound(entries, var, d, out),
        Value::IntArray(xs) => {
            let r = encode_int_array(out, xs, var);
            proof {
                if r is Ok {
                    assert(final(out)@ =~= old(out)@ + enc_payload(value@, var));
                }
            }
            r
        },
        Value::LongArray(xs) => {
            let r = encode_long_array(out, xs, var);
            proof {
                if r is Ok {
                    assert(final(out)@ =~= old(out)@ + enc_payload(value@, var));
                }
            }
            r
        },
    }
}

/// Appends a list payload: the element tag byte (`End` for an empty
/// list), the count, then each element payload with no per-element header.
#[verifier::rlimit(60)]
#[verifier::loop_isolation(false)]
fn encode_list(elems: &Vec<Value>, var: Variant, d: u32, out: &mut Vec<u8>) -> (r: Result<
    (),
    NbtError,
>)
    requires
        height_le(view_value(Value::List(*elems)), d as nat),
    ensures
        r is Ok <==> encodable(view_value(Value::List(*elems)), var),
        r is Ok ==> final(out)@ == old(out)@ + enc_payload(view_value(Value::List(*elems)), var),
        r is Err ==> r == Err::<(), NbtError>(NbtError::SequenceTooLong),
    decreases d, 0nat,
{
    let ghost lv = view_value(Value::List(*elems));
    let ghost vs = lv->List_0;
    proof {
        assert(vs =~= Seq::new(
            elems@.len(),
            |i: int|
                if 0 <= i < elems@.len() {
                    view_value(elems@[i])
                } else {
                    SpecValue::Byte(0)
                },
        ));
    }
    if (elems.len() as u64) > count_max_val(var) {
        return Err(NbtError::SequenceTooLong);
    }
    let tag_byte: u8 = if elems.len() == 0 {
        0
    } else {
        elems[0].tag().to_byte()
    };
    proof {
        assert(tag_byte == list_elem_tag(vs).spec_to_byte());
    }
    out.push(tag_byte);
    push_count(out, elems.len(), var);
    let ghost mid = out@;
    let mut i: usize = 0;
    while i < elems.len()
        invariant
            i <= elems@.len(),
            out@ == mid + enc_elems(vs, var, i as nat),
            forall|j: int| 0 <= j < i ==> encodable(#[trigger] vs[j], var),
        decreases elems@.len() - i,
    {
        proof {
            assert(d >= 1);
            assert(height_le(vs[i as int], (d - 1) as nat));
        }
        match encode_payload(&elems[i], var, d - 1, out) {
            Ok(()) => {},
            Err(e) => {
                proof {
                    assert(!encodable(vs[i as int], var));
                }
                return Err(e);
            },
        }
        proof {
            assert(encodable(vs[i as int], var));
            assert(forall|j: int| 0 <= j < i + 1 ==> encodable(#[trigger] vs[j], var));
            assert(enc_elems(vs, var, (i + 1) as nat) == enc_elems(vs, var, i as nat) + enc_payload(
                vs[i as int],
                var,
            ));
            assert(out@ =~= mid + enc_elems(vs, var, (i + 1) as nat));
        }
        i = i + 1;
    }
    proof {
        assert(out@ =~= old(out)@ + enc_payload(lv, var));
    }
    Ok(())
}

/// Appends a compound payload: for each entry a tag byte, the key and the
/// value payload, in insertion order, closed by a single `End` tag byte.
#[verifier::rlimit(60)]
#[verifier::loop_isolation(false)]
fn encode_compound(entries: &Vec<(String, Value)>, var: Variant, d: u32, out: &mut Vec<u8>) -> (r:
    Result<(), NbtError>)
    requires
        height_le(view_value(Value::Compound(*entries)), d as nat),
    ensures
        r is Ok <==> encodable(view_value(Value::Compound(*entries)), var),
        r is Ok ==> final(out)@ == old(out)@ + enc_payload(
            view_value(Value::Compound(*entries)),
            var,
        ),
        r is Err ==> r == Err::<(), NbtError>(NbtError::SequenceTooLong),
    decreases d, 0nat,
{
    let ghost cv = view_value(Value::Compound(*entries));
    let ghost vs = cv->Compound_0;
    proof {
        assert(vs =~= Seq::new(
            entries@.len(),
            |i: int|
                if 0 <= i < entries@.len() {
                    (entries@[i].0@, view_value(entries@[i].1))
                } else {
                    (Seq::<char>::empty(), SpecValue::Byte(0))
                },
        ));
    }
    let ghost mid = out@;
    let mut i: usize = 0;
    while i < entries.len()
        invariant
            i <= entries@.len(),
            out@ == mid + enc_entries(vs, var, i as nat),
            forall|j: int|
                0 <= j < i ==> encodable(#[trigger] vs[j].1, var) && encode_utf8(vs[j].0).len()
                    <= str_len_max(var),
        decreases entries@.len() - i,
    {
        proof {
            assert(vs[i as int] == (entries@[i as int].0@, view_value(entries@[i as int].1)));
        }
        let tb = entries[i].1.tag().to_byte();
        proof {
            assert(tb == spec_tag_of(vs[i as int].1).spec_to_byte());
        }
        out.push(tb);
        match encode_string(out, entries[i].0.as_str(), var) {
            Ok(()) => {},
            Err(e) => {
                proof {
                    assert(!(encodable(vs[i as int].1, var) && encode_utf8(vs[i as int].0).len()
                        <= str_len_max(var)));
                }
                return Err(e);
            },
        }
        proof {
            assert(d >= 1);
            assert(height_le(vs[i as int].1, (d - 1) as nat));
        }
        match encode_payload(&entries[i].1, var, d - 1, out) {
            Ok(()) => {},
            Err(e) => {
                proof {
                    assert(!(encodable(vs[i as int].1, var) && encode_utf8(vs[i as int].0).len()
                        <= str_len_max(var)));
                }
                return Err(e);
            },
        }
        proof {
            assert(encodable(vs[i as int].1, var) && encode_utf8(vs[i as int].0).len()
                <= str_len_max(var));
            assert(forall|j: int|
                0 <= j < i + 1 ==> encodable(#[trigger] vs[j].1, var) && encode_utf8(
                    vs[j].0,
                ).len() <= str_len_max(var));
            assert(out@ =~= mid + (enc_entries(vs, var, i as nat) + enc_entry(vs[i as int], var)));
            assert(enc_entries(vs, var, (i + 1) as nat) == enc_entries(vs, var, i as nat)
                + enc_entry(vs[i as int], var));
        }
        i = i + 1;
    }
    out.push(0u8);
    proof {
        assert(encodable(cv, var));
        assert(out@ =~= old(out)@ + enc_payload(cv, var));
    }
    Ok(())
}

/// Encodes a named root value under a variant and appends the bytes to
/// `out`, leaving `out` unchanged on failure. Fails with
/// `DepthLimitExceeded` when the tree nests deeper than [`MAX_DEPTH`],
/// else with `SequenceTooLong` when a string or sequence in it is longer
/// than the variant's length policy can encode, and succeeds otherwise.
pub fn encode_named_in(name: &str, value: &Value, var: Variant, out: &mut Vec<u8>) -> (r: Result<
    (),
    NbtError,
>)
    ensures
        r is Ok <==> (height_le(value@, MAX_DEPTH as nat) && encodable(value@, var) && encode_utf8(
            name@,
        ).len() <= str_len_max(var)),
        r is Ok ==> final(out)@ == old(out)@ + enc_root(name@, value@, var),
        r is Err ==> final(out)@ == old(out)@,
        !height_le(value@, MAX_DEPTH as nat) ==> r == Err::<(), NbtError>(
            NbtError::DepthLimitExceeded,
        ),
        height_le(value@, MAX_DEPTH as nat) && !(encodable(value@, var) && encode_utf8(
            name@,
        ).len() <= str_len_max(var)) ==> r == Err::<(), NbtError>(NbtError::SequenceTooLong),
{
    if !value.fits_depth(MAX_DEPTH) {
        return Err(NbtError::DepthLimitExceeded);
    }
    let mut tmp: Vec<u8> = Vec::new();
    tmp.push(value.tag().to_byte());
    match encode_string(&mut tmp, name, var) {
        Ok(()) => {},
        Err(e) => {
            return Err(e);
        },
    }
    match encode_payload(value, var, MAX_DEPTH, &mut tmp) {
        Ok(()) => {},
        Err(e) => {
            return Err(e);
        },
    }
    proof {
        assert(tmp@ =~= enc_root(name@, value@, var));
    }
    let mut moved = tmp;
    out.append(&mut moved);
    Ok(())
}

/// Encodes a root value with an empty name; see [`encode_named_in`].
pub fn to_bytes_named<T: EndiannessImpl>(name: &str, value: &Value) -> (r: Result<
    Vec<u8>,
    NbtError,
>)
    ensures
        r is Ok <==> (height_le(value@, MAX_DEPTH as nat) && encodable(value@, T::variant())
            && encode_utf8(name@).len() <= str_len_max(T::variant())),
        r is Ok ==> r.unwrap()@ == enc_root(name@, value@, T::variant()),
        r is Err ==> r->Err_0 == spec_encode_err(name@, value@, T::variant()),
{
    let var = T::as_enum();
    let mut out: Vec<u8> = Vec::new();
    match encode_named_in(name, value, var, &mut out) {
        Ok(()) => {
            proof {
                assert(out@ =~= enc_root(name@, value@, T::variant()));
            }
            Ok(out)
        },
        Err(e) => Err(e),
    }
}

/// The error that encoding a tree is defined to raise: the depth of the
/// tree is checked before its lengths.
pub open spec fn spec_encode_err(name: Seq<char>, sv: SpecValue, var: Variant) -> NbtError {
    if !height_le(sv, MAX_DEPTH as nat) {
        NbtError::DepthLimitExceeded
    } else {
        NbtError::SequenceTooLong
    }
}

/// Encodes a root value with an empty name under the variant picked by the
/// marker `T`, returning the byte stream.
pub fn to_bytes<T: EndiannessImpl>(value: &Value) -> (r: Result<Vec<u8>, NbtError>)
    ensures
        r is Ok <==> (height_le(value@, MAX_DEPTH as nat) && encodable(value@, T::variant())),
        r is Ok ==> r.unwrap()@ == enc_root(Seq::<char>::empty(), value@, T::variant()),
        r is Err ==> r->Err_0 == spec_encode_err(Seq::<char>::empty(), value@, T::variant()),
{
    proof {
        reveal_strlit("");
        assert(""@ =~= Seq::<char>::empty());
    }
    to_bytes_named::<T>("", value)
}

/// Encodes with an empty root name and appends to `out`; `out` is left
/// unchanged on failure.
pub fn to_bytes_in<T: EndiannessImpl>(value: &Value, out: &mut Vec<u8>) -> (r: Result<
    (),
    NbtError,
>)
    ensures
        r is Ok <==> (height_le(value@, MAX_DEPTH as nat) && encodable(value@, T::variant())),
        r is Ok ==> final(out)@ == old(out)@ + enc_root(
            Seq::<char>::empty(),
            value@,
            T::variant(),
        ),
        r is Err ==> final(out)@ == old(out)@ && r->Err_0 == spec_encode_err(
            Seq::<char>::empty(),
            value@,
            T::variant(),
        ),
{
    proof {
        reveal_strlit("");
        assert(""@ =~= Seq::<char>::empty());
    }
    encode_named_in("", value, T::as_enum(), out)
}

/// Encodes under the big endian variant.
pub fn to_be_bytes(value: &Value) -> (r: Result<Vec<u8>, NbtError>)
    ensures
        r is Ok <==> (height_le(value@, MAX_DEPTH as nat) && encodable(
            value@,
            Variant::BigEndian,
        )),
        r is Ok ==> r.unwrap()@ == enc_root(Seq::<char>::empty(), value@, Variant::BigEndian),
        r is Err ==> r->Err_0 == spec_encode_err(Seq::<char>::empty(), value@, Variant::BigEndian),
{
    to_bytes::<crate::BigEndian>(value)
}

/// Encodes under the little endian variant.
pub fn to_le_bytes(value: &Value) -> (r: Result<Vec<u8>, NbtError>)
    ensures
        r is Ok <==> (height_le(value@, MAX_DEPTH as nat) && encodable(
            value@,
            Variant::LittleEndian,
        )),
        r is Ok ==> r.unwrap()@ == enc_root(Seq::<char>::empty(), value@, Variant::LittleEndian),
        r is Err ==> r->Err_0 == spec_encode_err(
            Seq::<char>::empty(),
            value@,
            Variant::LittleEndian,
        ),
{
    to_bytes::<crate::LittleEndian>(value)
}

/// Encodes under the network little endian variant.
pub fn to_net_bytes(value: &Value) -> (r: Result<Vec<u8>, NbtError>)
    ensures
        r is Ok <==> (height_le(value@, MAX_DEPTH as nat) && encodable(
            value@,
            Variant::NetworkEndian,
        )),
        r is Ok ==> r.unwrap()@ == enc_root(Seq::<char>::empty(), value@, Variant::NetworkEndian),
        r is Err ==> r->Err_0 == spec_encode_err(
            Seq::<char>::empty(),
            value@,
            Variant::NetworkEndian,
        ),
{
    to_bytes::<crate::NetworkLittleEndian>(value)
}

/// Encodes under the big endian variant, appending to `out`.
pub fn to_be_bytes_in(value: &Value, out: &mut Vec<u8>) -> (r: Result<(), NbtError>)
    ensures
        r is Ok <==> (height_le(value@, MAX_DEPTH as nat) && encodable(
            value@,
            Variant::BigEndian,
        )),
        r is Ok ==> final(out)@ == old(out)@ + enc_root(
            Seq::<char>::empty(),
            value@,
            Variant::BigEndian,
        ),
        r is Err ==> final(out)@ == old(out)@,
{
    to_bytes_in::<crate::BigEndian>(value, out)
}

/// Encodes under the little endian variant, appending to `out`.
pub fn to_le_bytes_in(value: &Value, out: &mut Vec<u8>) -> (r: Result<(), NbtError>)
    ensures
        r is Ok <==> (height_le(value@, MAX_DEPTH as nat) && encodable(
            value@,
            Variant::LittleEndian,
        )),
        r is Ok ==> final(out)@ == old(out)@ + enc_root(
            Seq::<char>::empty(),
            value@,
            Variant::LittleEndian,
        ),
        r is Err ==> final(out)@ == old(out)@,
{
    to_bytes_in::<crate::LittleEndian>(value, out)
}

/// Encodes under the network little endian variant, appending to `out`.
pub fn to_net_bytes_in(value: &Value, out: &mut Vec<u8>) -> (r: Result<(), NbtError>)
    ensures
        r is Ok <==> (height_le(value@, MAX_DEPTH as nat) && encodable(
            value@,
            Variant::NetworkEndian,
        )),
        r is Ok ==> final(out)@ == old(out)@ + enc_root(
            Seq::<char>::empty(),
            value@,
            Variant::NetworkEndian,
        ),
        r is Err ==> final(out)@ == old(out)@,
{
    to_bytes_in::<crate::NetworkLittleEndian>(value, out)
}

} // verus!
