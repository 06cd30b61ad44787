//! Bytes: integers in little-endian order, and fields of a fixed length.
use vstd::prelude::*;
use vstd::arithmetic::div_mod::lemma_mod_multiples_vanish;

verus! {

/// `bytes` set left in `n` places, cut off or filled up with zeros.
pub open spec fn zero_padded(bytes: Seq<u8>, n: nat) -> Seq<u8> {
    Seq::new(
        n,
        |i: int|
            if i < bytes.len() {
                bytes[i]
            } else {
                0
            },
    )
}

/// What fits is kept, in its place, and there are zeros behind it.
pub proof fn lemma_zero_padded(bytes: Seq<u8>, n: nat, i: int)
    requires
        0 <= i < n,
    ensures
        zero_padded(bytes, n).len() == n,
        i < bytes.len() ==> zero_padded(bytes, n)[i] == bytes[i],
        i >= bytes.len() ==> zero_padded(bytes, n)[i] == 0,
{
}

/// `256` to the power of `n`.
pub open spec fn pow256(n: nat) -> nat
    decreases n,
{
    if n == 0 {
        1
    } else {
        256 * pow256((n - 1) as nat)
    }
}

/// The number that bytes stand for, least significant byte first.
pub open spec fn le_value(s: Seq<u8>) -> nat
    decreases s.len(),
{
    if s.len() == 0 {
        0
    } else {
        s[0] as nat + 256 * le_value(s.skip(1))
    }
}

/// The low `len` bytes of a number, least significant byte first.
pub open spec fn le_bytes(n: nat, len: nat) -> Seq<u8>
    decreases len,
{
    if len == 0 {
        Seq::empty()
    } else {
        seq![(n % 256) as u8] + le_bytes(n / 256, (len - 1) as nat)
    }
}

/// There are as many bytes as were asked for.
pub proof fn lemma_le_bytes_len(n: nat, len: nat)
    ensures
        le_bytes(n, len).len() == len,
    decreases len,
{
    if len > 0 {
        lemma_le_bytes_len(n / 256, (len - 1) as nat);
    }
}

/// A number of `n` bytes is below `256` to the power of `n`.
pub proof fn lemma_le_value_bound(s: Seq<u8>)
    ensures
        le_value(s) < pow256(s.len()),
    decreases s.len(),
{
    if s.len() > 0 {
        lemma_le_value_bound(s.skip(1));
    }
}

/// A number that fits is read back from its bytes.
pub proof fn lemma_le_round_trip(n: nat, len: nat)
    requires
        n < pow256(len),
    ensures
        le_value(le_bytes(n, len)) == n,
    decreases len,
{
    if len > 0 {
        assert(n / 256 < pow256((len - 1) as nat));
        lemma_le_round_trip(n / 256, (len - 1) as nat);
        assert(le_bytes(n, len).skip(1) =~= le_bytes(n / 256, (len - 1) as nat));
    }
}

/// The powers that integers of 32 and 64 bits need.
pub proof fn lemma_pow256()
    ensures
        pow256(4) == 0x1_0000_0000,
        pow256(7) == 0x100_0000_0000_0000,
        pow256(8) == 0x1_0000_0000_0000_0000,
{
    reveal_with_fuel(pow256, 9);
}

/// Fewer bytes have the smaller power.
proof fn lemma_pow256_grows(a: nat, b: nat)
    requires
        a <= b,
    ensures
        pow256(a) <= pow256(b),
    decreases b,
{
    if a < b {
        lemma_pow256_grows(a, (b - 1) as nat);
    }
}

/// Reads the number in `bytes[from..to]`.
pub fn read_le(bytes: &[u8], from: usize, to: usize) -> (r: u64)
    requires
        from <= to <= bytes@.len(),
        to - from <= 8,
    ensures
        r == le_value(bytes@.subrange(from as int, to as int)),
    decreases to - from,
{
    if from == to {
        0
    } else {
        let rest: u64 = read_le(bytes, from + 1, to);
        proof {
            let s = bytes@.subrange(from as int, to as int);
            assert(s.skip(1) =~= bytes@.subrange(from + 1, to as int));
            lemma_le_value_bound(s.skip(1));
            lemma_pow256_grows(s.skip(1).len(), 7);
            lemma_pow256();
        }
        bytes[from] as u64 + 256 * rest
    }
}

/// Appends the low `len` bytes of `n`.
pub fn push_le(out: &mut Vec<u8>, n: u64, len: usize)
    ensures
        final(out)@ == old(out)@ + le_bytes(n as nat, len as nat),
    decreases len,
{
    if len > 0 {
        out.push((n % 256) as u8);
        push_le(out, n / 256, len - 1);
        assert(out@ =~= old(out)@ + le_bytes(n as nat, len as nat));
    } else {
        assert(out@ =~= old(out)@ + le_bytes(n as nat, len as nat));
    }
}

/// A number of 64 bits read as signed.
pub proof fn lemma_as_signed(v: u64)
    ensures
        v as i64 == (if v < 0x8000_0000_0000_0000 {
            v as int
        } else {
            v - 0x1_0000_0000_0000_0000
        }),
{
    assert(v < 0x8000_0000_0000_0000 ==> v as i64 == v) by (bit_vector);
    assert(v >= 0x8000_0000_0000_0000 ==> v as i64 == v - 0x1_0000_0000_0000_0000)
        by (bit_vector);
}

/// How far apart two counts modulo 2^64 are, the shorter way round.
pub open spec fn apart_64(a: int, b: int) -> int {
    let d = (a - b) % 0x1_0000_0000_0000_0000;
    if d <= 0x8000_0000_0000_0000 {
        d
    } else {
        0x1_0000_0000_0000_0000 - d
    }
}

/// Two counts that do not differ by more than 2^63 are as far apart as they differ,
/// whatever multiples of 2^64 were lost.
pub proof fn lemma_apart_64(a: int, b: int, d: int, turns: int)
    requires
        a - b == d + turns * 0x1_0000_0000_0000_0000,
        -0x8000_0000_0000_0000 <= d <= 0x8000_0000_0000_0000,
    ensures
        apart_64(a, b) == (if d < 0 {
            -d
        } else {
            d
        }),
{
    lemma_mod_multiples_vanish(turns, d, 0x1_0000_0000_0000_0000);
}

/// Each byte counts for 256 times as much as the one before it.
pub proof fn lemma_le_value_places(s: Seq<u8>)
    ensures
        s.len() == 4 ==> le_value(s) == s[0] + 0x100 * s[1] + 0x1_0000 * s[2] + 0x100_0000 * s[3],
        s.len() == 8 ==> le_value(s) == s[0] + 0x100 * s[1] + 0x1_0000 * s[2] + 0x100_0000 * s[3]
            + 0x1_0000_0000 * s[4] + 0x100_0000_0000 * s[5] + 0x1_0000_0000_0000 * s[6]
            + 0x100_0000_0000_0000 * s[7],
{
    reveal_with_fuel(le_value, 9);
    if s.len() == 4 || s.len() == 8 {
        let t1 = s.skip(1);
        let t2 = t1.skip(1);
        let t3 = t2.skip(1);
        let t4 = t3.skip(1);
        assert(t1[0] == s[1] && t2[0] == s[2] && t3[0] == s[3]);
        if s.len() == 8 {
            let t5 = t4.skip(1);
            let t6 = t5.skip(1);
            let t7 = t6.skip(1);
            assert(t4[0] == s[4] && t5[0] == s[5] && t6[0] == s[6] && t7[0] == s[7]);
            assert(t7.skip(1).len() == 0);
        } else {
            assert(t4.len() == 0);
        }
    }
}

} // verus!
