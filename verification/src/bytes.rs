//! Little-endian integers in byte sequences.

use vstd::prelude::*;

verus! {

/// The number that `s` spells in base 256, least significant byte first.
pub open spec fn le_value(s: Seq<u8>) -> nat
    decreases s.len(),
{
    if s.len() == 0 {
        0
    } else {
        s[0] as nat + 256 * le_value(s.skip(1))
    }
}

/// The bytes of `n` in base 256, least significant byte first, cut off after `len` bytes.
pub open spec fn le_bytes(n: nat, len: nat) -> Seq<u8>
    decreases len,
{
    if len == 0 {
        Seq::empty()
    } else {
        seq![(n % 256) as u8] + le_bytes(n / 256, (len - 1) as nat)
    }
}

/// It makes no difference how bytes that stand one after the other are joined.
pub proof fn lemma_joined(a: Seq<u8>, b: Seq<u8>, c: Seq<u8>)
    ensures
        a + b + c == a + (b + c),
{
    assert(a + b + c =~= a + (b + c));
}

/// Writing a number that fits and reading it back gives the number.
pub proof fn law_le_roundtrip(n: nat, len: nat)
    requires
        n < vstd::arithmetic::power::pow(256, len),
    ensures
        le_bytes(n, len).len() == len,
        le_value(le_bytes(n, len)) == n,
    decreases len,
{
    vstd::arithmetic::power::lemma_pow0(256);
    if len > 0 {
        let rest = (len - 1) as nat;
        vstd::arithmetic::power::lemma_pow_positive(256, rest);
        assert(vstd::arithmetic::power::pow(256, len) == 256 * vstd::arithmetic::power::pow(
            256,
            rest,
        )) by {
            reveal(vstd::arithmetic::power::pow);
        }
        law_le_roundtrip(n / 256, rest);
        assert(le_bytes(n, len).skip(1) =~= le_bytes(n / 256, rest));
    }
}

/// Writing a `u32` and reading it back gives the number.
pub proof fn law_le_u32(n: nat)
    requires
        n <= u32::MAX,
    ensures
        le_bytes(n, 4).len() == 4,
        le_value(le_bytes(n, 4)) == n,
{
    assert(vstd::arithmetic::power::pow(256, 4) == 4294967296) by {
        reveal_with_fuel(vstd::arithmetic::power::pow, 5);
    }
    law_le_roundtrip(n, 4);
}

/// The value of a sequence, byte by byte.
pub proof fn lemma_le_value_4(s: Seq<u8>)
    requires
        s.len() == 4,
    ensures
        le_value(s) == s[0] + 256 * s[1] + 65536 * s[2] + 16777216 * s[3],
{
    reveal_with_fuel(le_value, 5);
}

/// The value of two bytes.
pub proof fn law_le_value_2(s: Seq<u8>)
    requires
        s.len() == 2,
    ensures
        le_value(s) == s[0] + 256 * s[1],
{
    reveal_with_fuel(le_value, 3);
}

/// The value of eight bytes: the last four count for 4294967296 times their value.
pub proof fn law_le_value_8(s: Seq<u8>)
    requires
        s.len() == 8,
    ensures
        le_value(s) == s[0] + 256 * s[1] + 65536 * s[2] + 16777216 * s[3] + 4294967296 * (s[4] + 256
            * s[5] + 65536 * s[6] + 16777216 * s[7]),
{
    reveal_with_fuel(le_value, 5);
    let t = s.skip(1).skip(1).skip(1).skip(1);
    assert(t =~= s.skip(4));
    lemma_le_value_4(t);
}

/// Reading a sequence and writing the number in as many bytes gives the sequence.
pub proof fn law_le_bytes_of_value(s: Seq<u8>)
    ensures
        le_bytes(le_value(s), s.len()) == s,
    decreases s.len(),
{
    if s.len() > 0 {
        law_le_bytes_of_value(s.skip(1));
        assert(le_value(s) % 256 == s[0]);
        assert(le_value(s) / 256 == le_value(s.skip(1)));
        assert(le_bytes(le_value(s), s.len()) =~= s);
    } else {
        assert(le_bytes(le_value(s), s.len()) =~= s);
    }
}

/// Writing a `u64` and reading it back gives the number.
pub proof fn law_le_u64(n: nat)
    requires
        n <= u64::MAX,
    ensures
        le_bytes(n, 8).len() == 8,
        le_value(le_bytes(n, 8)) == n,
{
    assert(vstd::arithmetic::power::pow(256, 8) == 18446744073709551616) by {
        reveal_with_fuel(vstd::arithmetic::power::pow, 9);
    }
    law_le_roundtrip(n, 8);
}

/// Reads a `u16` at index `i` of `s`.
pub fn read_u16(s: &[u8], i: usize) -> (n: u16)
    requires
        i + 2 <= s@.len(),
    ensures
        n == le_value(s@.subrange(i as int, i + 2)),
        n == s@[i as int] + 256 * s@[i + 1],
{
    proof {
        reveal_with_fuel(le_value, 3);
    }
    s[i] as u16 + 256 * s[i + 1] as u16
}

/// Reads a `u32` at index `i` of `s`.
pub fn read_u32(s: &[u8], i: usize) -> (n: u32)
    requires
        i + 4 <= s@.len(),
    ensures
        n == le_value(s@.subrange(i as int, i + 4)),
        n == s@[i as int] + 256 * s@[i + 1] + 65536 * s@[i + 2] + 16777216 * s@[i + 3],
{
    proof {
        lemma_le_value_4(s@.subrange(i as int, i + 4));
    }
    s[i] as u32 + 256 * s[i + 1] as u32 + 65536 * s[i + 2] as u32 + 16777216 * s[i + 3] as u32
}

/// Reads a `u64` at index `i` of `s`.
pub fn read_u64(s: &[u8], i: usize) -> (n: u64)
    requires
        i + 8 <= s@.len(),
    ensures
        n == le_value(s@.subrange(i as int, i + 8)),
        n == s@[i as int] + 256 * s@[i + 1] + 65536 * s@[i + 2] + 16777216 * s@[i + 3] + 4294967296
            * (s@[i + 4] + 256 * s@[i + 5] + 65536 * s@[i + 6] + 16777216 * s@[i + 7]),
{
    assert(i + 8 <= s.len());
    let low: u32 = read_u32(s, i);
    let high: u32 = read_u32(s, i + 4);
    proof {
        let t = s@.subrange(i as int, i + 8);
        reveal_with_fuel(le_value, 5);
        let u = t.skip(1).skip(1).skip(1).skip(1);
        assert(u =~= s@.subrange(i + 4, i + 8));
        assert(le_value(t) == t[0] + 256 * t[1] + 65536 * t[2] + 16777216 * t[3] + 4294967296
            * le_value(u));
    }
    low as u64 + 4294967296 * high as u64
}

} // verus!
