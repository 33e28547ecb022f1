//! Little-endian integers inside byte buffers.

use vstd::prelude::*;

verus! {

/// The 32-bit little-endian number at `o`.
pub open spec fn le32(s: Seq<u8>, o: int) -> nat {
    (s[o] + 0x100 * s[o + 1] + 0x1_0000 * s[o + 2] + 0x100_0000 * s[o + 3]) as nat
}

/// The 64-bit little-endian number at `o`.
pub open spec fn le64(s: Seq<u8>, o: int) -> nat {
    le32(s, o) + 0x1_0000_0000 * le32(s, o + 4)
}

/// A 32-bit pattern read as a two's complement number.
pub open spec fn signed32(v: nat) -> int {
    if v < 0x8000_0000 {
        v as int
    } else {
        v - 0x1_0000_0000
    }
}

/// `s` with the low 32 bits of `v` written at `o` in little-endian order.
pub open spec fn with_le32(s: Seq<u8>, o: int, v: int) -> Seq<u8> {
    let w = v % 0x1_0000_0000;
    s.update(o, (w % 0x100) as u8).update(o + 1, (w / 0x100 % 0x100) as u8).update(
        o + 2,
        (w / 0x1_0000 % 0x100) as u8,
    ).update(o + 3, (w / 0x100_0000) as u8)
}

/// Reading back a 32-bit number gives its low 32 bits.
pub proof fn lemma_with_le32(s: Seq<u8>, o: int, v: int)
    requires
        0 <= o,
        o + 4 <= s.len(),
    ensures
        le32(with_le32(s, o, v), o) == v % 0x1_0000_0000,
        with_le32(s, o, v).len() == s.len(),
        forall|i: int| 0 <= i < s.len() && !(o <= i < o + 4) ==> with_le32(s, o, v)[i] == s[i],
{
    let w = v % 0x1_0000_0000;
    assert(w == w % 0x100 + 0x100 * (w / 0x100 % 0x100) + 0x1_0000 * (w / 0x1_0000 % 0x100)
        + 0x100_0000 * (w / 0x100_0000));
}

/// The `n` low bytes of the number `v`, least significant one first.
pub open spec fn le_bytes(v: nat, n: nat) -> Seq<u8>
    decreases n,
{
    if n == 0 {
        Seq::empty()
    } else {
        seq![(v % 256) as u8] + le_bytes(v / 256, (n - 1) as nat)
    }
}

/// The `n` bytes from `o` on, byte number `i` of them counted `256^i` times.
pub open spec fn weighed(s: Seq<u8>, o: int, n: nat) -> nat
    decreases n,
{
    if n == 0 {
        0
    } else {
        s[o] as nat + 256 * weighed(s, o + 1, (n - 1) as nat)
    }
}

/// Every byte of a number counts 256 times as much as the one before it.
pub proof fn lemma_le_weights(s: Seq<u8>, o: int)
    ensures
        le32(s, o) == weighed(s, o, 4),
        le64(s, o) == weighed(s, o, 8),
{
    reveal_with_fuel(weighed, 9);
}

/// The bytes of a number weigh as much as its low bytes do.
proof fn lemma_weighed_bytes(s: Seq<u8>, o: int, v: nat, n: nat)
    requires
        forall|i: int| 0 <= i < n ==> s[o + i] == #[trigger] le_bytes(v, n)[i],
        n == 4 && v < 0x1_0000_0000 || n == 8 && v < 0x1_0000_0000_0000_0000,
    ensures
        weighed(s, o, n) == v,
{
    reveal_with_fuel(weighed, 9);
    reveal_with_fuel(le_bytes, 9);
    let b = le_bytes(v, n);
    assert(s[o] == b[0] && s[o + 1] == b[1] && s[o + 2] == b[2] && s[o + 3] == b[3]);
    if n == 8 {
        assert(s[o + 4] == b[4] && s[o + 5] == b[5] && s[o + 6] == b[6] && s[o + 7] == b[7]);
    }
}

/// A 32-bit number is read back from its four bytes.
pub proof fn lemma_le32_round_trip(s: Seq<u8>, o: int, v: u32)
    requires
        forall|i: int| 0 <= i < 4 ==> s[o + i] == #[trigger] le_bytes(v as nat, 4)[i],
    ensures
        le32(s, o) == v,
{
    lemma_le_weights(s, o);
    lemma_weighed_bytes(s, o, v as nat, 4);
}

/// A 64-bit number is read back from its eight bytes.
pub proof fn lemma_le64_round_trip(s: Seq<u8>, o: int, v: u64)
    requires
        forall|i: int| 0 <= i < 8 ==> s[o + i] == #[trigger] le_bytes(v as nat, 8)[i],
    ensures
        le64(s, o) == v,
{
    lemma_le_weights(s, o);
    lemma_weighed_bytes(s, o, v as nat, 8);
}

/// A signed number is read back from its pattern, the remainder modulo `2^32`.
pub proof fn lemma_signed_round_trip(v: i32)
    ensures
        signed32((v as int % 0x1_0000_0000) as nat) == v,
{
}

/// Writing a number puts its bytes in place, least significant one first.
pub proof fn lemma_written_bytes(s: Seq<u8>, o: int, v: int, i: int)
    requires
        0 <= o,
        o + 4 <= s.len(),
        0 <= i < 4,
    ensures
        with_le32(s, o, v)[o + i] == le_bytes((v % 0x1_0000_0000) as nat, 4)[i],
{
    reveal_with_fuel(le_bytes, 5);
}

#[inline]
pub fn u32_le(b: &[u8], o: usize) -> (v: u32)
    requires
        o + 4 <= b@.len(),
    ensures
        v == le32(b@, o as int),
{
    assert(b.len() == b@.len());
    b[o] as u32 + 0x100 * b[o + 1] as u32 + 0x1_0000 * b[o + 2] as u32 + 0x100_0000 * b[o + 3]
        as u32
}

/// A 32-bit pattern as a two's complement number.
pub fn to_signed(v: u32) -> (r: i32)
    ensures
        r == signed32(v as nat),
{
    if v < 0x8000_0000 {
        v as i32
    } else {
        (v as i64 - 0x1_0000_0000) as i32
    }
}

#[inline]
pub fn i32_le(b: &[u8], o: usize) -> (v: i32)
    requires
        o + 4 <= b@.len(),
    ensures
        v == signed32(le32(b@, o as int)),
{
    to_signed(u32_le(b, o))
}

#[inline]
pub fn u64_le(b: &[u8], o: usize) -> (v: u64)
    requires
        o + 8 <= b@.len(),
    ensures
        v == le64(b@, o as int),
{
    assert(b.len() == b@.len());
    u32_le(b, o) as u64 + 0x1_0000_0000 * u32_le(b, o + 4) as u64
}

/// Writes the low 32 bits of `v` at `o`.
pub fn put_le32(b: &mut [u8], o: usize, v: i64)
    requires
        o + 4 <= old(b)@.len(),
    ensures
        final(b)@ == with_le32(old(b)@, o as int, v as int),
        final(b)@.len() == old(b)@.len(),
{
    assert(b.len() == b@.len());
    let w: u64 = (v as i128 + 0x8000_0000_0000_0000) as u64 % 0x1_0000_0000;
    assert(w == v % 0x1_0000_0000) by {
        vstd::arithmetic::div_mod::lemma_mod_multiples_vanish(
            0x8000_0000,
            v as int,
            0x1_0000_0000,
        );
    }
    b[o] = (w % 0x100) as u8;
    b[o + 1] = (w / 0x100 % 0x100) as u8;
    b[o + 2] = (w / 0x1_0000 % 0x100) as u8;
    b[o + 3] = (w / 0x100_0000) as u8;
}

} // verus!
