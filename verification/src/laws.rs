//! The round-trip law: decoding the encoding of a well-formed tree gives
//! the tree back, under every variant, and consumes exactly the encoding.

use vstd::prelude::*;
use vstd::arithmetic::div_mod::lemma_small_mod;
use vstd::utf8::{encode_utf8, encode_utf8_valid_utf8, encode_utf8_decode_utf8};

use crate::FieldType;
use crate::Variant;
use crate::error::NbtError;
use crate::ints::{le_bytes_of, pow256, lemma_le_bytes_len,
    lemma_le_bytes_roundtrip, lemma_i8_cast_roundtrip, lemma_i16_cast_roundtrip,
    lemma_i32_cast_roundtrip, lemma_i64_cast_roundtrip, lemma_zigzag32_roundtrip,
    lemma_zigzag64_roundtrip, zigzag32, zigzag64};
use crate::value::{SpecValue, spec_tag_of, wf_value, height_le};
use crate::varint::{lemma_varint_roundtrip, lemma_varint_len, lemma_pow128_widths};
use crate::wire::{MAX_DEPTH, str_len_max, count_max, uint_bytes, uint_of, str_len_bytes,
    count_bytes, string_bytes, int_payload, long_payload, byte_array_bytes, int_array_bytes,
    long_array_bytes, list_elem_tag, encodable, enc_payload, enc_elems, enc_entry, enc_entries,
    enc_root, skipn, dec_uint, dec_str_len, dec_count, dec_string, dec_i32, dec_i64, dec_payload,
    dec_elems, dec_entries, dec_root};

verus! {

broadcast use vstd::seq::group_seq_axioms;

/// Reading back the `w`-byte field of `x < 256^w` gives `x`.
proof fn lemma_uint_roundtrip(var: Variant, x: nat, w: nat, rest: Seq<u8>)
    requires
        x < pow256(w),
    ensures
        dec_uint(uint_bytes(var, x, w) + rest, var, w) == Ok::<(nat, nat), NbtError>((x, w)),
        uint_bytes(var, x, w).len() == w,
{
    lemma_le_bytes_len(x, w);
    let enc = uint_bytes(var, x, w);
    let s = enc + rest;
    assert(s.take(w as int) =~= enc);
    lemma_le_bytes_roundtrip(x, w);
    if !var.spec_is_little_endian() {
        assert(le_bytes_of(x, w).reverse().reverse() =~= le_bytes_of(x, w));
    }
}

/// Reading back a string length field for `n` gives `n`.
proof fn lemma_str_len_roundtrip(var: Variant, n: nat, rest: Seq<u8>)
    requires
        n <= str_len_max(var),
    ensures
        dec_str_len(str_len_bytes(var, n) + rest, var) == Ok::<(nat, nat), NbtError>(
            (n, str_len_bytes(var, n).len()),
        ),
        str_len_bytes(var, n).len() >= 1,
{
    if var.spec_uses_varint_lengths() {
        lemma_pow128_widths();
        lemma_varint_roundtrip(n, 5, rest);
        lemma_varint_len(n, 5);
        lemma_small_mod(n, 0x1_0000_0000);
    } else {
        assert(pow256(2) == 0x1_0000) by {
            reveal_with_fuel(pow256, 3);
        }
        lemma_uint_roundtrip(var, n, 2, rest);
    }
}

/// Reading back a count field for `n` gives `n`.
proof fn lemma_count_roundtrip(var: Variant, n: nat, rest: Seq<u8>)
    requires
        n <= count_max(var),
    ensures
        dec_count(count_bytes(var, n) + rest, var) == Ok::<(nat, nat), NbtError>(
            (n, count_bytes(var, n).len()),
        ),
        count_bytes(var, n).len() >= 1,
{
    if var.spec_uses_varint_lengths() {
        lemma_pow128_widths();
        lemma_varint_roundtrip(n, 5, rest);
        lemma_varint_len(n, 5);
        lemma_small_mod(n, 0x1_0000_0000);
    } else {
        assert(pow256(4) == 0x1_0000_0000) by {
            reveal_with_fuel(pow256, 5);
        }
        lemma_uint_roundtrip(var, n, 4, rest);
    }
}

/// Reading back an encoded string gives its characters.
proof fn lemma_string_roundtrip(var: Variant, cs: Seq<char>, rest: Seq<u8>)
    requires
        encode_utf8(cs).len() <= str_len_max(var),
    ensures
        dec_string(string_bytes(var, cs) + rest, var) == Ok::<(Seq<char>, nat), NbtError>(
            (cs, string_bytes(var, cs).len()),
        ),
        string_bytes(var, cs).len() >= 1,
{
    let utf8 = encode_utf8(cs);
    let lf = str_len_bytes(var, utf8.len());
    let s = string_bytes(var, cs) + rest;
    assert(s =~= lf + (utf8 + rest));
    lemma_str_len_roundtrip(var, utf8.len(), utf8 + rest);
    assert(s.subrange(lf.len() as int, (lf.len() + utf8.len()) as int) =~= utf8);
    encode_utf8_valid_utf8(cs);
    encode_utf8_decode_utf8(cs);
}

/// Reading back an int payload gives the int.
proof fn lemma_i32_roundtrip(var: Variant, x: i32, rest: Seq<u8>)
    ensures
        dec_i32(int_payload(var, x) + rest, var) == Ok::<(i32, nat), NbtError>(
            (x, int_payload(var, x).len()),
        ),
{
    if var.spec_uses_varint_integers() {
        let z = zigzag32(x);
        lemma_pow128_widths();
        lemma_varint_roundtrip(z as nat, 5, rest);
        lemma_small_mod(z as nat, 0x1_0000_0000);
        lemma_zigzag32_roundtrip(x);
    } else {
        assert(pow256(4) == 0x1_0000_0000) by {
            reveal_with_fuel(pow256, 5);
        }
        lemma_uint_roundtrip(var, (x as u32) as nat, 4, rest);
        lemma_i32_cast_roundtrip(x);
    }
}

/// Reading back a long payload gives the long.
proof fn lemma_i64_roundtrip(var: Variant, x: i64, rest: Seq<u8>)
    ensures
        dec_i64(long_payload(var, x) + rest, var) == Ok::<(i64, nat), NbtError>(
            (x, long_payload(var, x).len()),
        ),
{
    if var.spec_uses_varint_integers() {
        let z = zigzag64(x);
        lemma_pow128_widths();
        lemma_varint_roundtrip(z as nat, 10, rest);
        lemma_small_mod(z as nat, 0x1_0000_0000_0000_0000);
        lemma_zigzag64_roundtrip(x);
    } else {
        assert(pow256(8) == 0x1_0000_0000_0000_0000) by {
            reveal_with_fuel(pow256, 9);
        }
        lemma_uint_roundtrip(var, (x as u64) as nat, 8, rest);
        lemma_i64_cast_roundtrip(x);
    }
}

/// The int-array body is `4` bytes per element, the element at `i` at
/// offset `4 * i`.
proof fn lemma_int_array_bytes_shape(var: Variant, xs: Seq<i32>)
    ensures
        int_array_bytes(var, xs).len() == 4 * xs.len(),
        forall|i: int|
            0 <= i < xs.len() ==> int_array_bytes(var, xs).subrange(4 * i, 4 * i + 4)
                =~= uint_bytes(var, (#[trigger] xs[i] as u32) as nat, 4),
    decreases xs.len(),
{
    lemma_le_bytes_len((xs[0] as u32) as nat, 4);
    if xs.len() == 0 {
    } else {
        lemma_int_array_bytes_shape(var, xs.drop_first());
        let head = uint_bytes(var, (xs[0] as u32) as nat, 4);
        let tail = int_array_bytes(var, xs.drop_first());
        assert(head.len() == 4);
        assert forall|i: int| 0 <= i < xs.len() implies int_array_bytes(var, xs).subrange(
            4 * i,
            4 * i + 4,
        ) =~= uint_bytes(var, (#[trigger] xs[i] as u32) as nat, 4) by {
            if i == 0 {
                assert((head + tail).subrange(0, 4) =~= head);
            } else {
                assert((head + tail).subrange(4 * i, 4 * i + 4) =~= tail.subrange(
                    4 * (i - 1),
                    4 * (i - 1) + 4,
                ));
                assert(xs.drop_first()[i - 1] == xs[i]);
            }
        }
    }
}

/// The long-array body is `8` bytes per element.
proof fn lemma_long_array_bytes_shape(var: Variant, xs: Seq<i64>)
    ensures
        long_array_bytes(var, xs).len() == 8 * xs.len(),
        forall|i: int|
            0 <= i < xs.len() ==> long_array_bytes(var, xs).subrange(8 * i, 8 * i + 8)
                =~= uint_bytes(var, (#[trigger] xs[i] as u64) as nat, 8),
    decreases xs.len(),
{
    lemma_le_bytes_len((xs[0] as u64) as nat, 8);
    if xs.len() == 0 {
    } else {
        lemma_long_array_bytes_shape(var, xs.drop_first());
        let head = uint_bytes(var, (xs[0] as u64) as nat, 8);
        let tail = long_array_bytes(var, xs.drop_first());
        assert(head.len() == 8);
        assert forall|i: int| 0 <= i < xs.len() implies long_array_bytes(var, xs).subrange(
            8 * i,
            8 * i + 8,
        ) =~= uint_bytes(var, (#[trigger] xs[i] as u64) as nat, 8) by {
            if i == 0 {
                assert((head + tail).subrange(0, 8) =~= head);
            } else {
                assert((head + tail).subrange(8 * i, 8 * i + 8) =~= tail.subrange(
                    8 * (i - 1),
                    8 * (i - 1) + 8,
                ));
                assert(xs.drop_first()[i - 1] == xs[i]);
            }
        }
    }
}

/// The first `n >= 1` element payloads split off the first element.
proof fn lemma_enc_elems_front(elems: Seq<SpecValue>, var: Variant, n: nat)
    requires
        1 <= n <= elems.len(),
    ensures
        enc_elems(elems, var, n) == enc_payload(elems[0], var) + enc_elems(
            elems.drop_first(),
            var,
            (n - 1) as nat,
        ),
    decreases n,
{
    if n == 1 {
        assert(enc_elems(elems, var, 0) + enc_payload(elems[0], var) =~= enc_payload(
            elems[0],
            var,
        ) + enc_elems(elems.drop_first(), var, 0));
    } else {
        lemma_enc_elems_front(elems, var, (n - 1) as nat);
        assert(elems.drop_first()[n - 2] == elems[n - 1]);
        assert((enc_payload(elems[0], var) + enc_elems(elems.drop_first(), var, (n - 2) as nat))
            + enc_payload(elems[n - 1], var) =~= enc_payload(elems[0], var) + enc_elems(
            elems.drop_first(),
            var,
            (n - 1) as nat,
        ));
    }
}

/// The first `n >= 1` entry encodings split off the first entry.
proof fn lemma_enc_entries_front(entries: Seq<(Seq<char>, SpecValue)>, var: Variant, n: nat)
    requires
        1 <= n <= entries.len(),
    ensures
        enc_entries(entries, var, n) == enc_entry(entries[0], var) + enc_entries(
            entries.drop_first(),
            var,
            (n - 1) as nat,
        ),
    decreases n,
{
    if n == 1 {
        assert(enc_entries(entries, var, 0) + enc_entry(entries[0], var) =~= enc_entry(
            entries[0],
            var,
        ) + enc_entries(entries.drop_first(), var, 0));
    } else {
        lemma_enc_entries_front(entries, var, (n - 1) as nat);
        assert(entries.drop_first()[n - 2] == entries[n - 1]);
        assert((enc_entry(entries[0], var) + enc_entries(entries.drop_first(), var, (n - 2) as nat))
            + enc_entry(entries[n - 1], var) =~= enc_entry(entries[0], var) + enc_entries(
            entries.drop_first(),
            var,
            (n - 1) as nat,
        ));
    }
}

/// A carried tag's wire byte is in `1..=12` and converts back to the tag.
proof fn lemma_tag_byte(sv: SpecValue)
    ensures
        1 <= spec_tag_of(sv).spec_to_byte() <= 12,
        FieldType::spec_from_byte(spec_tag_of(sv).spec_to_byte()) == spec_tag_of(sv),
{
}

/// Reading back a byte-array payload gives the elements.
proof fn lemma_byte_array_payload(var: Variant, xs: Seq<i8>, d: nat, rest: Seq<u8>)
    requires
        xs.len() <= count_max(var),
    ensures
        ({
            let enc = count_bytes(var, xs.len()) + byte_array_bytes(xs);
            dec_payload(enc + rest, FieldType::ByteArray, var, d) == Ok::<
                (SpecValue, nat),
                NbtError,
            >((SpecValue::ByteArray(xs), enc.len()))
        }),
{
    let body = byte_array_bytes(xs);
    let cb = count_bytes(var, xs.len());
    let enc = cb + body;
    let s = enc + rest;
    assert(s =~= cb + (body + rest));
    lemma_count_roundtrip(var, xs.len(), body + rest);
    let cl = cb.len();
    assert(Seq::new(xs.len(), |i: int| s[cl + i] as i8) =~= xs) by {
        assert forall|i: int| 0 <= i < xs.len() implies s[cl + i] as i8 == (#[trigger] xs[i]) by {
            assert(s[cl + i] == body[i]);
            assert(body[i] == xs[i] as u8);
            lemma_i8_cast_roundtrip(xs[i]);
        }
    }
}

/// Reading back an int-array payload gives the elements.
proof fn lemma_int_array_payload(var: Variant, xs: Seq<i32>, d: nat, rest: Seq<u8>)
    requires
        xs.len() <= count_max(var),
    ensures
        ({
            let enc = count_bytes(var, xs.len()) + int_array_bytes(var, xs);
            dec_payload(enc + rest, FieldType::IntArray, var, d) == Ok::<
                (SpecValue, nat),
                NbtError,
            >((SpecValue::IntArray(xs), enc.len()))
        }),
{
    let body = int_array_bytes(var, xs);
    let cb = count_bytes(var, xs.len());
    let s = (cb + body) + rest;
    assert(s =~= cb + (body + rest));
    lemma_count_roundtrip(var, xs.len(), body + rest);
    lemma_int_array_bytes_shape(var, xs);
    let cl = cb.len();
    assert(pow256(4) == 0x1_0000_0000) by {
        reveal_with_fuel(pow256, 5);
    }
    assert(Seq::new(
        xs.len(),
        |i: int| (uint_of(var, s.subrange(cl + 4 * i, cl + 4 * i + 4)) as u32) as i32,
    ) =~= xs) by {
        assert forall|i: int| 0 <= i < xs.len() implies (uint_of(
            var,
            s.subrange(cl + 4 * i, cl + 4 * i + 4),
        ) as u32) as i32 == (#[trigger] xs[i]) by {
            assert(s.subrange(cl + 4 * i, cl + 4 * i + 4) =~= body.subrange(4 * i, 4 * i + 4));
            let ebytes = uint_bytes(var, (xs[i] as u32) as nat, 4);
            lemma_uint_roundtrip(var, (xs[i] as u32) as nat, 4, Seq::empty());
            assert((ebytes + Seq::<u8>::empty()).take(4) =~= ebytes);
            assert(body.subrange(4 * i, 4 * i + 4) =~= ebytes);
            lemma_i32_cast_roundtrip(xs[i]);
        }
    }
}

/// Reading back a long-array payload gives the elements.
proof fn lemma_long_array_payload(var: Variant, xs: Seq<i64>, d: nat, rest: Seq<u8>)
    requires
        xs.len() <= count_max(var),
    ensures
        ({
            let enc = count_bytes(var, xs.len()) + long_array_bytes(var, xs);
            dec_payload(enc + rest, FieldType::LongArray, var, d) == Ok::<
                (SpecValue, nat),
                NbtError,
            >((SpecValue::LongArray(xs), enc.len()))
        }),
{
    let body = long_array_bytes(var, xs);
    let cb = count_bytes(var, xs.len());
    let s = (cb + body) + rest;
    assert(s =~= cb + (body + rest));
    lemma_count_roundtrip(var, xs.len(), body + rest);
    lemma_long_array_bytes_shape(var, xs);
    let cl = cb.len();
    assert(pow256(8) == 0x1_0000_0000_0000_0000) by {
        reveal_with_fuel(pow256, 9);
    }
    assert(Seq::new(
        xs.len(),
        |i: int| (uint_of(var, s.subrange(cl + 8 * i, cl + 8 * i + 8)) as u64) as i64,
    ) =~= xs) by {
        assert forall|i: int| 0 <= i < xs.len() implies (uint_of(
            var,
            s.subrange(cl + 8 * i, cl + 8 * i + 8),
        ) as u64) as i64 == (#[trigger] xs[i]) by {
            assert(s.subrange(cl + 8 * i, cl + 8 * i + 8) =~= body.subrange(8 * i, 8 * i + 8));
            let ebytes = uint_bytes(var, (xs[i] as u64) as nat, 8);
            lemma_uint_roundtrip(var, (xs[i] as u64) as nat, 8, Seq::empty());
            assert((ebytes + Seq::<u8>::empty()).take(8) =~= ebytes);
            assert(body.subrange(8 * i, 8 * i + 8) =~= ebytes);
            lemma_i64_cast_roundtrip(xs[i]);
        }
    }
}

/// Reading back a list payload gives the elements.
#[verifier::rlimit(100)]
proof fn lemma_list_payload(elems: Seq<SpecValue>, var: Variant, d: nat, rest: Seq<u8>)
    requires
        d >= 1,
        elems.len() <= count_max(var),
        forall|j: int|
            0 <= j < elems.len() ==> wf_value(#[trigger] elems[j]) && encodable(elems[j], var)
                && height_le(elems[j], (d - 1) as nat) && spec_tag_of(elems[j]) == spec_tag_of(
                elems[0],
            ),
    ensures
        ({
            let enc = seq![list_elem_tag(elems).spec_to_byte()] + count_bytes(var, elems.len())
                + enc_elems(elems, var, elems.len());
            dec_payload(enc + rest, FieldType::List, var, d) == Ok::<
                (SpecValue, nat),
                NbtError,
            >((SpecValue::List(elems), enc.len()))
        }),
    decreases elems, 1nat,
{
    let tb = list_elem_tag(elems).spec_to_byte();
    let cb = count_bytes(var, elems.len());
    let body = enc_elems(elems, var, elems.len());
    let enc = seq![tb] + cb + body;
    let s = enc + rest;
    assert(s =~= seq![tb] + (cb + (body + rest)));
    assert(s[0] == tb);
    assert(skipn(s, 1) =~= cb + (body + rest));
    lemma_count_roundtrip(var, elems.len(), body + rest);
    if elems.len() == 0 {
        assert(tb == 0);
        assert(SpecValue::List(elems) == SpecValue::List(Seq::<SpecValue>::empty())) by {
            assert(elems =~= Seq::<SpecValue>::empty());
        }
    } else {
        lemma_tag_byte(elems[0]);
        assert(skipn(s, 1 + cb.len()) =~= body + rest);
        lemma_elems_roundtrip(elems, spec_tag_of(elems[0]), var, (d - 1) as nat, rest);
    }
}

/// Reading back a compound payload gives the entries.
#[verifier::rlimit(100)]
proof fn lemma_compound_payload(
    entries: Seq<(Seq<char>, SpecValue)>,
    var: Variant,
    d: nat,
    rest: Seq<u8>,
)
    requires
        d >= 1,
        forall|j: int|
            0 <= j < entries.len() ==> wf_value((#[trigger] entries[j]).1) && encodable(
                entries[j].1,
                var,
            ) && height_le(entries[j].1, (d - 1) as nat) && encode_utf8(entries[j].0).len()
                <= str_len_max(var),
    ensures
        ({
            let enc = enc_entries(entries, var, entries.len()) + seq![0u8];
            dec_payload(enc + rest, FieldType::Compound, var, d) == Ok::<
                (SpecValue, nat),
                NbtError,
            >((SpecValue::Compound(entries), enc.len()))
        }),
    decreases entries, 1nat,
{
    let body = enc_entries(entries, var, entries.len());
    let s = (body + seq![0u8]) + rest;
    assert(s =~= body + (seq![0u8] + rest));
    lemma_entries_roundtrip(entries, var, (d - 1) as nat, rest);
}

/// Decoding the payload encoding of a well-formed, encodable tree of
/// height at most `d`, from the front of any longer input, gives the tree
/// back and consumes exactly the encoding.
#[verifier::rlimit(100)]
pub proof fn lemma_payload_roundtrip(sv: SpecValue, var: Variant, d: nat, rest: Seq<u8>)
    requires
        wf_value(sv),
        encodable(sv, var),
        height_le(sv, d),
    ensures
        dec_payload(enc_payload(sv, var) + rest, spec_tag_of(sv), var, d) == Ok::<
            (SpecValue, nat),
            NbtError,
        >((sv, enc_payload(sv, var).len())),
    decreases sv, 0nat,
{
    let enc = enc_payload(sv, var);
    let s = enc + rest;
    match sv {
        SpecValue::Byte(x) => {
            assert(s[0] == x as u8);
            lemma_i8_cast_roundtrip(x);
        },
        SpecValue::Short(x) => {
            assert(pow256(2) == 0x1_0000) by {
                reveal_with_fuel(pow256, 3);
            }
            lemma_uint_roundtrip(var, ((x as u16) as nat), 2, rest);
            lemma_i16_cast_roundtrip(x);
        },
        SpecValue::Int(x) => {
            lemma_i32_roundtrip(var, x, rest);
        },
        SpecValue::Long(x) => {
            lemma_i64_roundtrip(var, x, rest);
        },
        SpecValue::Float(b) => {
            assert(pow256(4) == 0x1_0000_0000) by {
                reveal_with_fuel(pow256, 5);
            }
            lemma_uint_roundtrip(var, b as nat, 4, rest);
        },
        SpecValue::Double(b) => {
            assert(pow256(8) == 0x1_0000_0000_0000_0000) by {
                reveal_with_fuel(pow256, 9);
            }
            lemma_uint_roundtrip(var, b as nat, 8, rest);
        },
        SpecValue::ByteArray(xs) => {
            lemma_byte_array_payload(var, xs, d, rest);
        },
        SpecValue::String(cs) => {
            lemma_string_roundtrip(var, cs, rest);
        },
        SpecValue::List(elems) => {
            lemma_list_payload(elems, var, d, rest);
        },
        SpecValue::Compound(entries) => {
            lemma_compound_payload(entries, var, d, rest);
        },
        SpecValue::IntArray(xs) => {
            lemma_int_array_payload(var, xs, d, rest);
        },
        SpecValue::LongArray(xs) => {
            lemma_long_array_payload(var, xs, d, rest);
        },
    }
}

/// Decoding the concatenated payloads of homogeneous, well-formed
/// elements gives them back in order.
#[verifier::rlimit(100)]
proof fn lemma_elems_roundtrip(
    elems: Seq<SpecValue>,
    etag: FieldType,
    var: Variant,
    d: nat,
    rest: Seq<u8>,
)
    requires
        forall|j: int|
            0 <= j < elems.len() ==> wf_value(#[trigger] elems[j]) && encodable(elems[j], var)
                && height_le(elems[j], d) && spec_tag_of(elems[j]) == etag,
    ensures
        dec_elems(enc_elems(elems, var, elems.len()) + rest, etag, var, d, elems.len()) == Ok::<
            (Seq<SpecValue>, nat),
            NbtError,
        >((elems, enc_elems(elems, var, elems.len()).len())),
    decreases elems, 0nat,
{
    let body = enc_elems(elems, var, elems.len());
    let s = body + rest;
    if elems.len() == 0 {
        assert(elems =~= Seq::<SpecValue>::empty());
    } else {
        let tail = elems.drop_first();
        vstd::seq::axiom_seq_len_decreases(elems, tail);
        lemma_enc_elems_front(elems, var, elems.len());
        let e0 = enc_payload(elems[0], var);
        let tbody = enc_elems(tail, var, tail.len());
        assert(s =~= e0 + (tbody + rest));
        lemma_payload_roundtrip(elems[0], var, d, tbody + rest);
        assert(skipn(s, e0.len() as nat) =~= tbody + rest);
        lemma_elems_roundtrip(tail, etag, var, d, rest);
        assert(seq![elems[0]] + tail =~= elems);
    }
}

/// Decoding the concatenated entry encodings of a compound body, followed
/// by the closing `End` byte, gives the entries back in order.
#[verifier::rlimit(100)]
#[verifier::spinoff_prover]
proof fn lemma_entries_roundtrip(
    entries: Seq<(Seq<char>, SpecValue)>,
    var: Variant,
    d: nat,
    rest: Seq<u8>,
)
    requires
        forall|j: int|
            0 <= j < entries.len() ==> wf_value((#[trigger] entries[j]).1) && encodable(
                entries[j].1,
                var,
            ) && height_le(entries[j].1, d) && encode_utf8(entries[j].0).len() <= str_len_max(var),
    ensures
        dec_entries(enc_entries(entries, var, entries.len()) + (seq![0u8] + rest), var, d) == Ok::<
            (Seq<(Seq<char>, SpecValue)>, nat),
            NbtError,
        >((entries, enc_entries(entries, var, entries.len()).len() + 1)),
    decreases entries, 0nat,
{
    let body = enc_entries(entries, var, entries.len());
    let s = body + (seq![0u8] + rest);
    if entries.len() == 0 {
        assert(s =~= seq![0u8] + rest);
        assert(s[0] == 0);
        assert(entries =~= Seq::<(Seq<char>, SpecValue)>::empty());
    } else {
        let e0 = entries[0];
        let tail = entries.drop_first();
        vstd::seq::axiom_seq_len_decreases(entries, tail);
        lemma_enc_entries_front(entries, var, entries.len());
        let tb = spec_tag_of(e0.1).spec_to_byte();
        let sb = string_bytes(var, e0.0);
        let pb = enc_payload(e0.1, var);
        let tbody = enc_entries(tail, var, tail.len());
        lemma_tag_byte(e0.1);
        assert(s =~= seq![tb] + (sb + (pb + (tbody + (seq![0u8] + rest)))));
        assert(s[0] == tb);
        assert(dec_string(skipn(s, 1), var) == Ok::<(Seq<char>, nat), NbtError>(
            (e0.0, sb.len()),
        )) by {
            assert(skipn(s, 1) =~= sb + (pb + (tbody + (seq![0u8] + rest))));
            lemma_string_roundtrip(var, e0.0, pb + (tbody + (seq![0u8] + rest)));
        }
        assert(sb.len() >= 1) by {
            lemma_string_roundtrip(var, e0.0, pb + (tbody + (seq![0u8] + rest)));
        }
        assert(dec_payload(skipn(s, 1 + sb.len()), spec_tag_of(e0.1), var, d) == Ok::<
            (SpecValue, nat),
            NbtError,
        >((e0.1, pb.len()))) by {
            assert(skipn(s, 1 + sb.len()) =~= pb + (tbody + (seq![0u8] + rest)));
            lemma_payload_roundtrip(e0.1, var, d, tbody + (seq![0u8] + rest));
        }
        assert(dec_entries(skipn(s, 1 + sb.len() + pb.len()), var, d) == Ok::<
            (Seq<(Seq<char>, SpecValue)>, nat),
            NbtError,
        >((tail, tbody.len() + 1))) by {
            assert(skipn(s, 1 + sb.len() + pb.len()) =~= tbody + (seq![0u8] + rest));
            lemma_entries_roundtrip(tail, var, d, rest);
        }
        assert(seq![(e0.0, e0.1)] + tail =~= entries);
        assert((e0.0, e0.1) == e0);
    }
}

/// Round-trip identity for a whole document: decoding the encoding of a
/// well-formed, encodable tree whose nesting stays within the depth limit,
/// under the same variant, gives back the root name, the tree, and a
/// consumed count equal to the document length.
pub proof fn lemma_round_trip(name: Seq<char>, sv: SpecValue, var: Variant)
    requires
        wf_value(sv),
        encodable(sv, var),
        encode_utf8(name).len() <= str_len_max(var),
        height_le(sv, MAX_DEPTH as nat),
    ensures
        dec_root(enc_root(name, sv, var), var, MAX_DEPTH as nat) == Ok::<
            ((Seq<char>, SpecValue), nat),
            NbtError,
        >(((name, sv), enc_root(name, sv, var).len())),
{
    let tb = spec_tag_of(sv).spec_to_byte();
    let sb = string_bytes(var, name);
    let pb = enc_payload(sv, var);
    let s = enc_root(name, sv, var);
    lemma_tag_byte(sv);
    assert(s =~= seq![tb] + (sb + pb));
    assert(s[0] == tb);
    assert(skipn(s, 1) =~= sb + pb);
    lemma_string_roundtrip(var, name, pb);
    assert(skipn(s, 1 + sb.len()) =~= pb + Seq::<u8>::empty());
    lemma_payload_roundtrip(sv, var, MAX_DEPTH as nat, Seq::empty());
    assert(pb + Seq::<u8>::empty() =~= pb);
}

/// The same value, encoded under two variants, decodes back to the same
/// value under each: the byte streams may differ, the tree does not.
pub proof fn lemma_cross_variant_value_equivalence(
    name: Seq<char>,
    sv: SpecValue,
    va: Variant,
    vb: Variant,
)
    requires
        wf_value(sv),
        encodable(sv, va),
        encodable(sv, vb),
        encode_utf8(name).len() <= str_len_max(va),
        encode_utf8(name).len() <= str_len_max(vb),
        height_le(sv, MAX_DEPTH as nat),
    ensures
        dec_root(enc_root(name, sv, va), va, MAX_DEPTH as nat)->Ok_0.0 == dec_root(
            enc_root(name, sv, vb),
            vb,
            MAX_DEPTH as nat,
        )->Ok_0.0,
        dec_root(enc_root(name, sv, va), va, MAX_DEPTH as nat) is Ok,
        dec_root(enc_root(name, sv, vb), vb, MAX_DEPTH as nat) is Ok,
{
    lemma_round_trip(name, sv, va);
    lemma_round_trip(name, sv, vb);
}

} // verus!
