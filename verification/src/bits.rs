//! The bit-level model of bytes and byte buffers that every contract of the
//! crate is stated over.

use vstd::prelude::*;

verus! {

/// Bit-addressing mode: the rule that maps a linear bit offset to a byte of a
/// buffer. `LITTLE` counts bytes from the first one, `BIG` from the last one;
/// within a byte, bit 0 is always the least significant bit.
#[derive(Debug, Clone, Copy, PartialEq, Eq, Structural)]
pub enum Endianness {
    BIG,
    LITTLE,
}

/// Bit `j` of the byte `b`, bit 0 being the least significant one.
pub open spec fn bit_of(b: u8, j: u8) -> bool {
    (b >> j) & 1 == 1
}

/// The byte of an `n`-byte buffer that holds bit offset `k`.
pub open spec fn byte_index(n: int, e: Endianness, k: int) -> int {
    match e {
        Endianness::LITTLE => k / 8,
        Endianness::BIG => n - 1 - k / 8,
    }
}

/// The bit at offset `k` of a buffer under the addressing mode `e`.
pub open spec fn bit_at(bytes: Seq<u8>, e: Endianness, k: int) -> bool
    recommends
        0 <= k < 8 * bytes.len(),
{
    bit_of(bytes[byte_index(bytes.len() as int, e, k)], (k % 8) as u8)
}

/// The byte whose `n` low bits are set (all eight for `n >= 8`).
pub open spec fn mask_spec(n: u8) -> u8 {
    if n >= 8 {
        0xffu8
    } else {
        !(0xffu8 << n)
    }
}

/// The `n` bits of `b` that start at bit `bit`, moved down to bit 0.
pub open spec fn extract(b: u8, bit: u8, n: u8) -> u8 {
    (b & (mask_spec(n) << bit)) >> bit
}

/// The byte `old` with its `n` bits from bit `bit` on replaced by the `n` low
/// bits of `c`.
pub open spec fn deposit(old: u8, c: u8, bit: u8, n: u8) -> u8 {
    (old & !(mask_spec(n) << bit)) | ((c & mask_spec(n)) << bit)
}

/// What is left of the chunk value `c` once its `n` low bits are taken.
pub open spec fn remainder(c: u8, n: u8) -> u8 {
    if n >= 8 {
        0u8
    } else {
        c >> n
    }
}

pub proof fn lemma_mask_values()
    ensures
        mask_spec(0) == 0u8,
        mask_spec(1) == 0b1u8,
        mask_spec(2) == 0b11u8,
        mask_spec(3) == 0b111u8,
        mask_spec(4) == 0b1111u8,
        mask_spec(5) == 0b11111u8,
        mask_spec(6) == 0b111111u8,
        mask_spec(7) == 0b1111111u8,
        forall|n: u8| n >= 8 ==> #[trigger] mask_spec(n) == 0xffu8,
{
    assert(!(0xffu8 << 0u8) == 0u8 && !(0xffu8 << 1u8) == 0b1u8 && !(0xffu8 << 2u8) == 0b11u8 && !(
    0xffu8 << 3u8) == 0b111u8 && !(0xffu8 << 4u8) == 0b1111u8 && !(0xffu8 << 5u8) == 0b11111u8
        && !(0xffu8 << 6u8) == 0b111111u8 && !(0xffu8 << 7u8) == 0b1111111u8) by (bit_vector);
}

/// Bit `j` of an extracted value is bit `bit + j` of the byte it came from,
/// and every bit from `n` on is clear.
pub proof fn lemma_extract_bit(b: u8, bit: u8, n: u8, j: u8, t: u8)
    by (bit_vector)
    requires
        bit < 8,
        1 <= n,
        n <= 8 - bit,
        j < 8,
        t == (bit + j) % 8,
    ensures
        bit_of(extract(b, bit, n), j) == (j < n && bit_of(b, t)),
{
}

/// Bit `j` of a byte after a deposit: taken from the chunk inside the
/// deposited range, unchanged outside it.
pub proof fn lemma_deposit_bit(old: u8, c: u8, bit: u8, n: u8, j: u8, t: u8)
    by (bit_vector)
    requires
        bit < 8,
        1 <= n,
        n <= 8 - bit,
        j < 8,
        t == (j + 8 - bit) % 8,
    ensures
        bit_of(deposit(old, c, bit, n), j) == (if bit <= j && j < bit + n {
            bit_of(c, t)
        } else {
            bit_of(old, j)
        }),
{
}

/// Bit `j` of what is left of a chunk value is bit `j + n` of the value.
pub proof fn lemma_remainder_bit(c: u8, n: u8, j: u8, t: u8)
    by (bit_vector)
    requires
        n <= 8,
        j < 8,
        t == (j + n) % 8,
    ensures
        bit_of(remainder(c, n), j) == (j + n < 8 && bit_of(c, t)),
{
}

/// Two bytes that agree on each of their eight bits are equal.
pub proof fn lemma_byte_extensional(a: u8, b: u8)
    by (bit_vector)
    requires
        bit_of(a, 0) == bit_of(b, 0),
        bit_of(a, 1) == bit_of(b, 1),
        bit_of(a, 2) == bit_of(b, 2),
        bit_of(a, 3) == bit_of(b, 3),
        bit_of(a, 4) == bit_of(b, 4),
        bit_of(a, 5) == bit_of(b, 5),
        bit_of(a, 6) == bit_of(b, 6),
        bit_of(a, 7) == bit_of(b, 7),
    ensures
        a == b,
{
}

/// Addressing from the last byte mirrors addressing from the first one: in a
/// buffer of `n` bytes, offset `k` counted from the last byte lies in the
/// byte that holds offset `8 * n - 1 - k` counted from the first byte, and
/// reading a buffer from its last byte is reading the reversed buffer from
/// its first byte.
pub proof fn endianness_symmetry(bytes: Seq<u8>, k: int)
    requires
        0 <= k < 8 * bytes.len(),
    ensures
        byte_index(bytes.len() as int, Endianness::BIG, k) == byte_index(
            bytes.len() as int,
            Endianness::LITTLE,
            8 * bytes.len() - 1 - k,
        ),
        byte_index(bytes.len() as int, Endianness::LITTLE, k) == byte_index(
            bytes.len() as int,
            Endianness::BIG,
            8 * bytes.len() - 1 - k,
        ),
        bit_at(bytes, Endianness::BIG, k) == bit_at(bytes.reverse(), Endianness::LITTLE, k),
        bit_at(bytes, Endianness::LITTLE, k) == bit_at(bytes.reverse(), Endianness::BIG, k),
{
    let n = bytes.len() as int;
    assert((8 * n - 1 - k) / 8 == n - 1 - k / 8);
    assert(bytes.reverse()[k / 8] == bytes[n - 1 - k / 8]);
    assert(bytes.reverse()[n - 1 - k / 8] == bytes[k / 8]);
}

/// The offset of bit 0 of the byte at position `m` of an `n`-byte buffer.
pub open spec fn offset_of(n: int, e: Endianness, m: int) -> int {
    match e {
        Endianness::LITTLE => 8 * m,
        Endianness::BIG => 8 * (n - 1 - m),
    }
}

/// Bit `j` of the byte at position `m` is the buffer's bit `j` places behind
/// the byte's offset.
pub proof fn lemma_byte_bit(bytes: Seq<u8>, e: Endianness, m: int, j: u8)
    requires
        0 <= m < bytes.len(),
        j < 8,
    ensures
        0 <= offset_of(bytes.len() as int, e, m) + j < 8 * bytes.len(),
        bit_at(bytes, e, offset_of(bytes.len() as int, e, m) + j) == bit_of(bytes[m], j),
{
    let k = offset_of(bytes.len() as int, e, m) + j;
    assert(k / 8 == offset_of(bytes.len() as int, e, m) / 8 && k % 8 == j);
}

/// Two buffers of one length that agree on every bit are equal.
pub proof fn lemma_buffer_extensional(a: Seq<u8>, b: Seq<u8>, e: Endianness)
    requires
        a.len() == b.len(),
        forall|k: int| 0 <= k < 8 * a.len() ==> bit_at(a, e, k) == bit_at(b, e, k),
    ensures
        a == b,
{
    assert forall|m: int| 0 <= m < a.len() implies a[m] == b[m] by {
        lemma_byte_bit(a, e, m, 0);
        lemma_byte_bit(b, e, m, 0);
        lemma_byte_bit(a, e, m, 1);
        lemma_byte_bit(b, e, m, 1);
        lemma_byte_bit(a, e, m, 2);
        lemma_byte_bit(b, e, m, 2);
        lemma_byte_bit(a, e, m, 3);
        lemma_byte_bit(b, e, m, 3);
        lemma_byte_bit(a, e, m, 4);
        lemma_byte_bit(b, e, m, 4);
        lemma_byte_bit(a, e, m, 5);
        lemma_byte_bit(b, e, m, 5);
        lemma_byte_bit(a, e, m, 6);
        lemma_byte_bit(b, e, m, 6);
        lemma_byte_bit(a, e, m, 7);
        lemma_byte_bit(b, e, m, 7);
        lemma_byte_extensional(a[m], b[m]);
    }
    assert(a =~= b);
}

} // verus!
