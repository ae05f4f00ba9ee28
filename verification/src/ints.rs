//! Fixed-width integer fields: little- and big-endian byte sequences of a
//! given width, and the zig-zag mapping used by varint-encoded integers.

use vstd::prelude::*;
use vstd::arithmetic::div_mod::*;
use vstd::arithmetic::mul::*;

verus! {

/// `256^w`: the number of values a `w`-byte field can carry.
pub open spec fn pow256(w: nat) -> nat
    decreases w,
{
    if w == 0 {
        1
    } else {
        256 * pow256((w - 1) as nat)
    }
}

/// The `w` little-endian bytes of `x`: least significant byte first.
pub open spec fn le_bytes_of(x: nat, w: nat) -> Seq<u8>
    decreases w,
{
    if w == 0 {
        Seq::empty()
    } else {
        seq![(x % 256) as u8] + le_bytes_of(x / 256, (w - 1) as nat)
    }
}

/// The `w` big-endian bytes of `x`: most significant byte first.
pub open spec fn be_bytes_of(x: nat, w: nat) -> Seq<u8> {
    le_bytes_of(x, w).reverse()
}

/// The value of a little-endian byte sequence.
pub open spec fn nat_of_le_bytes(s: Seq<u8>) -> nat
    decreases s.len(),
{
    if s.len() == 0 {
        0nat
    } else {
        (s[0] + 256 * nat_of_le_bytes(s.drop_first())) as nat
    }
}

pub proof fn lemma_le_bytes_len(x: nat, w: nat)
    ensures
        le_bytes_of(x, w).len() == w,
    decreases w,
{
    if w > 0 {
        lemma_le_bytes_len(x / 256, (w - 1) as nat);
    }
}

pub proof fn lemma_pow256_pos(w: nat)
    ensures
        pow256(w) >= 1,
    decreases w,
{
    if w > 0 {
        lemma_pow256_pos((w - 1) as nat);
    }
}

/// Reading back the `w` little-endian bytes of `x < 256^w` gives `x`.
pub proof fn lemma_le_bytes_roundtrip(x: nat, w: nat)
    requires
        x < pow256(w),
    ensures
        nat_of_le_bytes(le_bytes_of(x, w)) == x,
    decreases w,
{
    if w == 0 {
        assert(x == 0);
    } else {
        let s = le_bytes_of(x, w);
        let rest = le_bytes_of(x / 256, (w - 1) as nat);
        lemma_le_bytes_len(x / 256, (w - 1) as nat);
        assert(s.drop_first() =~= rest);
        lemma_fundamental_div_mod(x as int, 256);
        assert(x / 256 < pow256((w - 1) as nat)) by {
            if x / 256 >= pow256((w - 1) as nat) {
                lemma_mul_inequality(pow256((w - 1) as nat) as int, (x / 256) as int, 256);
                assert(256 * pow256((w - 1) as nat) <= 256 * (x / 256));
            }
        }
        lemma_le_bytes_roundtrip(x / 256, (w - 1) as nat);
    }
}

/// The value of `w` bytes is below `256^w`.
pub proof fn lemma_nat_of_le_bytes_bound(s: Seq<u8>)
    ensures
        nat_of_le_bytes(s) < pow256(s.len()),
    decreases s.len(),
{
    if s.len() == 0 {
    } else {
        lemma_nat_of_le_bytes_bound(s.drop_first());
        let r = nat_of_le_bytes(s.drop_first());
        assert(r <= pow256((s.len() - 1) as nat) - 1);
        lemma_mul_inequality(r as int, pow256((s.len() - 1) as nat) - 1, 256);
    }
}

/// The zig-zag image of a 32-bit integer: non-negative values map to the
/// even numbers, negative values to the odd ones.
pub open spec fn zigzag32(x: i32) -> u32 {
    if x >= 0 {
        (2 * (x as int)) as u32
    } else {
        (-2 * (x as int) - 1) as u32
    }
}

/// The inverse of [`zigzag32`].
pub open spec fn unzigzag32(u: u32) -> i32 {
    if u % 2 == 0 {
        (u / 2) as i32
    } else {
        (-((u / 2) as int) - 1) as i32
    }
}

/// The zig-zag image of a 64-bit integer.
pub open spec fn zigzag64(x: i64) -> u64 {
    if x >= 0 {
        (2 * (x as int)) as u64
    } else {
        (-2 * (x as int) - 1) as u64
    }
}

/// The inverse of [`zigzag64`].
pub open spec fn unzigzag64(u: u64) -> i64 {
    if u % 2 == 0 {
        (u / 2) as i64
    } else {
        (-((u / 2) as int) - 1) as i64
    }
}

pub proof fn lemma_zigzag32_roundtrip(x: i32)
    ensures
        unzigzag32(zigzag32(x)) == x,
{
    if x >= 0 {
        assert((2 * (x as int)) % 2 == 0 && (2 * (x as int)) / 2 == x as int) by (nonlinear_arith);
    } else {
        let u = -2 * (x as int) - 1;
        assert(u == 2 * (-(x as int) - 1) + 1);
        assert(u % 2 == 1 && u / 2 == -(x as int) - 1) by (nonlinear_arith)
            requires
                u == 2 * (-(x as int) - 1) + 1 && x < 0,
        ;
    }
}

pub proof fn lemma_zigzag64_roundtrip(x: i64)
    ensures
        unzigzag64(zigzag64(x)) == x,
{
    if x >= 0 {
        assert((2 * (x as int)) % 2 == 0 && (2 * (x as int)) / 2 == x as int) by (nonlinear_arith);
    } else {
        let u = -2 * (x as int) - 1;
        assert(u == 2 * (-(x as int) - 1) + 1);
        assert(u % 2 == 1 && u / 2 == -(x as int) - 1) by (nonlinear_arith)
            requires
                u == 2 * (-(x as int) - 1) + 1 && x < 0,
        ;
    }
}

/// Casting a signed value to the unsigned type of the same width and back
/// returns the value.
pub proof fn lemma_i8_cast_roundtrip(x: i8)
    ensures
        (x as u8) as i8 == x,
{
    assert((x as u8) as i8 == x) by (bit_vector);
}

pub proof fn lemma_i16_cast_roundtrip(x: i16)
    ensures
        (x as u16) as i16 == x,
{
    assert((x as u16) as i16 == x) by (bit_vector);
}

pub proof fn lemma_i32_cast_roundtrip(x: i32)
    ensures
        (x as u32) as i32 == x,
{
    assert((x as u32) as i32 == x) by (bit_vector);
}

pub proof fn lemma_i64_cast_roundtrip(x: i64)
    ensures
        (x as u64) as i64 == x,
{
    assert((x as u64) as i64 == x) by (bit_vector);
}

/// Computes the zig-zag image of a 32-bit integer.
pub fn zigzag32_exec(x: i32) -> (r: u32)
    ensures
        r == zigzag32(x),
{
    if x >= 0 {
        (x as u32) * 2
    } else {
        let m: i32 = -(x + 1);
        (m as u32) * 2 + 1
    }
}

/// Inverts the zig-zag mapping on a 32-bit image.
pub fn unzigzag32_exec(u: u32) -> (r: i32)
    ensures
        r == unzigzag32(u),
{
    let h: u32 = u / 2;
    if u % 2 == 0 {
        h as i32
    } else {
        -(h as i32) - 1
    }
}

/// Computes the zig-zag image of a 64-bit integer.
pub fn zigzag64_exec(x: i64) -> (r: u64)
    ensures
        r == zigzag64(x),
{
    if x >= 0 {
        (x as u64) * 2
    } else {
        let m: i64 = -(x + 1);
        (m as u64) * 2 + 1
    }
}

/// Inverts the zig-zag mapping on a 64-bit image.
pub fn unzigzag64_exec(u: u64) -> (r: i64)
    ensures
        r == unzigzag64(u),
{
    let h: u64 = u / 2;
    if u % 2 == 0 {
        h as i64
    } else {
        -(h as i64) - 1
    }
}

/// Appends the `w` bytes of `x` to `out`, least significant byte first
/// when `little` is set, most significant first otherwise.
#[verifier::loop_isolation(false)]
pub fn push_uint_bytes(out: &mut Vec<u8>, x: u64, w: usize, little: bool)
    requires
        w <= 8,
    ensures
        little ==> final(out)@ == old(out)@ + le_bytes_of(x as nat, w as nat),
        !little ==> final(out)@ == old(out)@ + be_bytes_of(x as nat, w as nat),
{
    let mut tmp: Vec<u8> = Vec::new();
    let mut cur: u64 = x;
    let mut i: usize = 0;
    while i < w
        invariant
            i <= w,
            tmp@.len() == i,
            le_bytes_of(x as nat, w as nat) == tmp@ + le_bytes_of(cur as nat, (w - i) as nat),
        decreases w - i,
    {
        let b: u8 = (cur % 256) as u8;
        proof {
            assert(le_bytes_of(cur as nat, (w - i) as nat) == seq![b] + le_bytes_of(
                (cur as nat) / 256,
                (w - i - 1) as nat,
            ));
            assert(tmp@ + le_bytes_of(cur as nat, (w - i) as nat) =~= (tmp@ + seq![b])
                + le_bytes_of((cur as nat) / 256, (w - i - 1) as nat));
            assert((cur as nat) / 256 == (cur / 256) as nat);
        }
        tmp.push(b);
        cur = cur / 256;
        i = i + 1;
    }
    proof {
        assert(le_bytes_of(x as nat, w as nat) =~= tmp@);
        lemma_le_bytes_len(x as nat, w as nat);
    }
    if little {
        let mut k: usize = 0;
        while k < w
            invariant
                k <= w,
                w <= 8,
                tmp@ == le_bytes_of(x as nat, w as nat),
                tmp@.len() == w,
                out@ == old(out)@ + tmp@.take(k as int),
            decreases w - k,
        {
            let b = tmp[k];
            proof {
                assert(tmp@.take(k + 1) =~= tmp@.take(k as int) + seq![tmp@[k as int]]);
                assert(old(out)@ + tmp@.take(k + 1) =~= (old(out)@ + tmp@.take(k as int)) + seq![
                    tmp@[k as int],
                ]);
            }
            out.push(b);
            k = k + 1;
        }
        proof {
            assert(tmp@.take(w as int) =~= tmp@);
        }
    } else {
        let mut k: usize = 0;
        while k < w
            invariant
                k <= w,
                w <= 8,
                tmp@ == le_bytes_of(x as nat, w as nat),
                tmp@.len() == w,
                out@ == old(out)@ + tmp@.reverse().take(k as int),
            decreases w - k,
        {
            let b = tmp[w - 1 - k];
            proof {
                assert(tmp@.reverse()[k as int] == tmp@[w - 1 - k]);
                assert(tmp@.reverse().take(k + 1) =~= tmp@.reverse().take(k as int) + seq![
                    tmp@.reverse()[k as int],
                ]);
                assert(old(out)@ + tmp@.reverse().take(k + 1) =~= (old(out)@ + tmp@.reverse().take(
                    k as int,
                )) + seq![tmp@[w - 1 - k]]);
            }
            out.push(b);
            k = k + 1;
        }
        proof {
            assert(tmp@.reverse().take(w as int) =~= tmp@.reverse());
        }
    }
}

/// Reads a `w`-byte unsigned integer at `pos`, least significant byte
/// first when `little` is set, most significant first otherwise.
#[verifier::loop_isolation(false)]
pub fn read_uint_bytes(bytes: &[u8], pos: usize, w: usize, little: bool) -> (r: u64)
    requires
        w <= 8,
        pos + w <= bytes@.len(),
    ensures
        little ==> r as nat == nat_of_le_bytes(bytes@.subrange(pos as int, pos + w)),
        !little ==> r as nat == nat_of_le_bytes(
            bytes@.subrange(pos as int, pos + w).reverse(),
        ),
{
    let ghost seg = if little {
        bytes@.subrange(pos as int, pos + w)
    } else {
        bytes@.subrange(pos as int, pos + w).reverse()
    };
    let n = bytes.len();
    proof {
        lemma_pow256_le_8((w as nat));
    }
    let mut r: u64 = 0;
    let mut k: usize = w;
    while k > 0
        invariant
            k <= w,
            w <= 8,
            pos + w <= bytes@.len(),
            seg == (if little {
                bytes@.subrange(pos as int, pos + w)
            } else {
                bytes@.subrange(pos as int, pos + w).reverse()
            }),
            seg.len() == w,
            r as nat == nat_of_le_bytes(seg.skip(k as int)),
            r < pow256((w - k) as nat),
        decreases k,
    {
        let b: u8 = if little {
            bytes[pos + k - 1]
        } else {
            bytes[pos + w - k]
        };
        proof {
            assert(seg[k - 1] == b);
            assert(seg.skip(k - 1).drop_first() =~= seg.skip(k as int));
            assert(nat_of_le_bytes(seg.skip(k - 1)) == seg[k - 1] + 256 * nat_of_le_bytes(
                seg.skip(k as int),
            ));
            let p = pow256((w - k) as nat);
            lemma_pow256_mono((w - k) as nat, 7);
            lemma_pow256_le_8(8);
            assert(pow256(8) == 256 * pow256(7));
            assert(256 * (r as int) <= 256 * (p - 1)) by {
                lemma_mul_inequality(r as int, p as int - 1, 256);
            }
            assert(256 * (p as int) <= 256 * pow256(7)) by {
                lemma_mul_inequality(p as int, pow256(7) as int, 256);
            }
            assert(256 * (r as int) + b < pow256(8));
        }
        r = r * 256 + (b as u64);
        k = k - 1;
    }
    proof {
        assert(seg.skip(0) =~= seg);
    }
    r
}

/// `256^w` for `w <= 8` stays within the range of a 64-bit accumulator.
pub proof fn lemma_pow256_le_8(w: nat)
    requires
        w <= 8,
    ensures
        pow256(w) <= 0x1_0000_0000_0000_0000,
{
    reveal_with_fuel(pow256, 9);
}

/// `256^a <= 256^b` when `a <= b`.
pub proof fn lemma_pow256_mono(a: nat, b: nat)
    requires
        a <= b,
    ensures
        pow256(a) <= pow256(b),
    decreases b,
{
    if a < b && b > 0 {
        lemma_pow256_mono(a, (b - 1) as nat);
        lemma_pow256_pos((b - 1) as nat);
    }
}

} // verus!
