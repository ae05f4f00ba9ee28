//! Variable-length integer codec: little-endian base-128 with the high bit
//! of each byte marking continuation. Used by the network variant for
//! lengths and, through the zig-zag mapping, for int and long payloads.

use vstd::prelude::*;
use vstd::arithmetic::div_mod::*;
use vstd::arithmetic::mul::*;

use crate::error::NbtError;

verus! {

/// `128^k`: the number of values `k` varint payload groups can carry.
pub open spec fn pow128(k: nat) -> nat
    decreases k,
{
    if k == 0 {
        1
    } else {
        128 * pow128((k - 1) as nat)
    }
}

/// The varint encoding of `x`: seven payload bits per byte, least
/// significant group first, high bit set on every byte but the last.
pub open spec fn varint_bytes(x: nat) -> Seq<u8>
    decreases x,
{
    if x < 128 {
        seq![x as u8]
    } else {
        seq![((x % 128) + 128) as u8] + varint_bytes(x / 128)
    }
}

/// Reads one varint from the front of `bytes`, consuming at most `max`
/// bytes: the untruncated value and the count of bytes consumed, or the
/// error. Fails with `VarintTooLong` when the sequence does not terminate
/// within `max` bytes, and with `UnexpectedEof` when the input ends first.
pub open spec fn spec_read_varint(bytes: Seq<u8>, max: nat) -> Result<(nat, nat), NbtError>
    decreases max,
{
    if max == 0 {
        Err(NbtError::VarintTooLong)
    } else if bytes.len() == 0 {
        Err(NbtError::UnexpectedEof)
    } else if bytes[0] < 128 {
        Ok((bytes[0] as nat, 1nat))
    } else {
        match spec_read_varint(bytes.drop_first(), (max - 1) as nat) {
            Ok((v, used)) => Ok((((bytes[0] - 128) + 128 * v) as nat, (used + 1) as nat)),
            Err(e) => Err(e),
        }
    }
}

pub proof fn lemma_pow128_pos(k: nat)
    ensures
        pow128(k) >= 1,
    decreases k,
{
    if k > 0 {
        lemma_pow128_pos((k - 1) as nat);
    }
}

/// A value below `128^k` encodes in at most `k` bytes.
pub proof fn lemma_varint_len(x: nat, k: nat)
    requires
        x < pow128(k),
        k >= 1,
    ensures
        varint_bytes(x).len() <= k,
        varint_bytes(x).len() >= 1,
    decreases x,
{
    if x >= 128 {
        lemma_fundamental_div_mod(x as int, 128);
        assert(x / 128 < pow128((k - 1) as nat)) by {
            if x / 128 >= pow128((k - 1) as nat) {
                lemma_mul_inequality(pow128((k - 1) as nat) as int, (x / 128) as int, 128);
            }
        }
        assert(k >= 2) by {
            if k == 1 {
                lemma_pow128_pos((k - 1) as nat);
            }
        }
        assert(x / 128 < x);
        lemma_varint_len(x / 128, (k - 1) as nat);
    }
}

/// Decoding the encoding of `x` from the front of any longer input gives
/// back `x` and consumes exactly the encoding.
pub proof fn lemma_varint_roundtrip(x: nat, max: nat, rest: Seq<u8>)
    requires
        x < pow128(max),
        max >= 1,
    ensures
        spec_read_varint(varint_bytes(x) + rest, max) == Ok::<(nat, nat), NbtError>(
            (x, varint_bytes(x).len() as nat),
        ),
    decreases x,
{
    let s = varint_bytes(x) + rest;
    if x < 128 {
        assert(s[0] == x as u8);
    } else {
        lemma_fundamental_div_mod(x as int, 128);
        assert(s[0] == ((x % 128) + 128) as u8);
        assert(s[0] >= 128);
        assert(x / 128 < pow128((max - 1) as nat)) by {
            if x / 128 >= pow128((max - 1) as nat) {
                lemma_mul_inequality(pow128((max - 1) as nat) as int, (x / 128) as int, 128);
            }
        }
        assert(max >= 2) by {
            if max == 1 {
                lemma_pow128_pos((max - 1) as nat);
            }
        }
        assert(x / 128 < x);
        lemma_varint_roundtrip(x / 128, (max - 1) as nat, rest);
        assert(s.drop_first() =~= varint_bytes(x / 128) + rest);
        assert((s[0] - 128) + 128 * (x / 128) == x);
    }
}

/// Bounds used at the two widths the codec reads: 32-bit fields take at
/// most 5 varint bytes, 64-bit fields at most 10.
pub proof fn lemma_pow128_widths()
    ensures
        pow128(5) == 0x8_0000_0000,
        pow128(10) == 0x40_0000_0000_0000_0000,
{
    reveal_with_fuel(pow128, 11);
}

/// Appends the varint encoding of `x` to `out`.
#[verifier::loop_isolation(false)]
pub fn push_varint(out: &mut Vec<u8>, x: u64)
    ensures
        final(out)@ == old(out)@ + varint_bytes(x as nat),
{
    let mut cur: u64 = x;
    while cur >= 128
        invariant
            old(out)@ + varint_bytes(x as nat) == out@ + varint_bytes(cur as nat),
        decreases cur,
    {
        let b: u8 = ((cur % 128) + 128) as u8;
        proof {
            assert(varint_bytes(cur as nat) == seq![b] + varint_bytes((cur as nat) / 128));
            assert(out@ + varint_bytes(cur as nat) =~= (out@ + seq![b]) + varint_bytes(
                (cur as nat) / 128,
            ));
            assert((cur as nat) / 128 == (cur / 128) as nat);
            assert(cur / 128 < cur);
        }
        out.push(b);
        cur = cur / 128;
    }
    proof {
        assert(varint_bytes(cur as nat) == seq![cur as u8]);
    }
    out.push(cur as u8);
    proof {
        assert(out@ =~= old(out)@ + varint_bytes(x as nat));
    }
}

/// Reads one varint at `pos`, consuming at most `max` bytes. The returned
/// value is the decoded value truncated to 64 bits; the count and the
/// error cases follow [`spec_read_varint`] exactly.
pub fn read_varint(bytes: &[u8], pos: usize, max: usize) -> (r: Result<(u64, usize), NbtError>)
    requires
        pos <= bytes@.len(),
    ensures
        match (r, spec_read_varint(bytes@.skip(pos as int), max as nat)) {
            (Ok((v, used)), Ok((n, m))) => used == m && pos + used <= bytes@.len() && v as nat == n
                % 0x1_0000_0000_0000_0000,
            (Err(e1), Err(e2)) => e1 == e2,
            _ => false,
        },
    decreases max,
{
    let ghost s = bytes@.skip(pos as int);
    if max == 0 {
        return Err(NbtError::VarintTooLong);
    }
    if pos >= bytes.len() {
        return Err(NbtError::UnexpectedEof);
    }
    let b = bytes[pos];
    proof {
        assert(s[0] == b);
    }
    if b < 128 {
        proof {
            lemma_small_mod(b as nat, 0x1_0000_0000_0000_0000);
        }
        return Ok((b as u64, 1));
    }
    proof {
        assert(s.drop_first() =~= bytes@.skip(pos + 1));
    }
    match read_varint(bytes, pos + 1, max - 1) {
        Ok((v, used)) => {
            let ghost m: int = 0x1_0000_0000_0000_0000;
            let ghost n = spec_read_varint(bytes@.skip(pos + 1), (max - 1) as nat)->Ok_0.0;
            let low: u8 = b - 128;
            let word: u64 = v.wrapping_mul(128).wrapping_add(low as u64);
            proof {
                assert(v.wrapping_mul(128) == ((v as int) * 128) % m);
                assert(word == (((v as int) * 128) % m + low) % m);
                lemma_mul_mod_noop_left(n as int, 128, m);
                assert((v as int) * 128 % m == (n as int) * 128 % m) by {
                    assert(v as int == (n as int) % m);
                }
                lemma_add_mod_noop((n as int) * 128, low as int, m);
                lemma_small_mod(low as nat, m as nat);
                assert(word == ((n as int) * 128 + low) % m);
                assert((low + 128 * n) as nat % (m as nat) == word as nat);
            }
            Ok((word, used + 1))
        },
        Err(e) => Err(e),
    }
}

} // verus!
