//! Literal bit runs of a pattern: text of `0` and `1`, the leftmost
//! character being the most significant bit, packed into bytes.

use vstd::prelude::*;
use vstd::string::StringSliceAdditionalSpecFns;
use crate::bits::{Endianness, bit_at, bit_of};

verus! {

/// A run of bits taken verbatim from pattern text: `bits` bits, held in
/// `bytes` with the least significant byte first.
#[derive(Debug, PartialEq, Eq)]
pub struct Literal {
    pub bytes: Vec<u8>,
    pub bits: usize,
}

/// Bit `k` of the bit string `s`, counted from its right end: whether the
/// character `k` places from the end is `1`. False beyond the string.
pub open spec fn text_bit(s: Seq<u8>, k: int) -> bool {
    0 <= k < s.len() && s[s.len() - 1 - k] == 0x31u8
}

/// The number of bytes that hold `bits` bits.
pub open spec fn bytes_for(bits: int) -> int {
    (bits + 7) / 8
}

impl Literal {
    /// The literal holds the bit string `s`.
    pub open spec fn holds(&self, s: Seq<u8>) -> bool {
        &&& self.bits == s.len()
        &&& self.bytes@.len() == bytes_for(s.len() as int)
        &&& forall|k: int|
            0 <= k < 8 * self.bytes@.len() ==> #[trigger] bit_at(
                self.bytes@,
                Endianness::LITTLE,
                k,
            ) == text_bit(s, k)
    }

    /// The byte array is as long as the bit count asks for.
    pub open spec fn well_formed(&self) -> bool {
        self.bytes@.len() == bytes_for(self.bits as int)
    }
}

proof fn lemma_shift_in(r: u8, c: u8, j: u8, t: u8)
    by (bit_vector)
    requires
        c <= 1,
        j < 8,
        t == (j + 7) % 8,
    ensures
        bit_of((r << 1) | c, j) == (if j == 0 {
            c == 1
        } else {
            bit_of(r, t)
        }),
{
}

/// The value of the bit string `text[from..to]`; of a longer one, of its last
/// eight characters.
pub fn byte_of_bits(text: &[u8], from: usize, to: usize) -> (b: u8)
    requires
        from <= to <= text@.len(),
    ensures
        forall|j: u8| j < 8 ==> #[trigger] bit_of(b, j) == text_bit(text@.subrange(from as int, to as int), j as int),
{
    let mut result: u8 = 0;
    let mut i: usize = from;
    proof {
        assert forall|j: u8| j < 8 implies !#[trigger] bit_of(0u8, j) by {
            assert((0u8 >> j) & 1 == 0) by (bit_vector);
        }
    }
    while i < to
        invariant
            from <= i <= to <= text@.len(),
            forall|j: u8|
                j < 8 ==> #[trigger] bit_of(result, j) == text_bit(
                    text@.subrange(from as int, i as int),
                    j as int,
                ),
        decreases to - i,
    {
        let c: u8 = if text[i] == 0x31u8 {
            1
        } else {
            0
        };
        let ghost before = result;
        result = (result << 1) | c;
        proof {
            assert forall|j: u8| j < 8 implies #[trigger] bit_of(result, j) == text_bit(
                text@.subrange(from as int, i + 1),
                j as int,
            ) by {
                lemma_shift_in(before, c, j, ((j + 7) % 8) as u8);
                if j > 0 {
                    assert(bit_of(before, (j - 1) as u8) == text_bit(
                        text@.subrange(from as int, i as int),
                        j - 1,
                    ));
                }
            }
        }
        i = i + 1;
    }
    result
}

/// The bytes of the bit string `text[from..to]`, the least significant byte
/// first: each byte holds eight characters, peeled off the right end, and the
/// last byte holds what is left at the left end.
pub fn literal_bytes(text: &[u8], from: usize, to: usize) -> (v: Vec<u8>)
    requires
        from <= to <= text@.len(),
    ensures
        v@.len() == bytes_for(to - from),
        forall|k: int|
            0 <= k < 8 * v@.len() ==> #[trigger] bit_at(v@, Endianness::LITTLE, k) == text_bit(
                text@.subrange(from as int, to as int),
                k,
            ),
{
    let ghost s = text@.subrange(from as int, to as int);
    let mut v: Vec<u8> = Vec::new();
    let mut len: usize = to - from;
    while len > 8
        invariant
            from <= to <= text@.len(),
            s == text@.subrange(from as int, to as int),
            len <= to - from,
            len + 8 * v@.len() == to - from,
            forall|m: int, j: u8|
                0 <= m < v@.len() && j < 8 ==> #[trigger] bit_of(v@[m], j) == text_bit(
                    s,
                    8 * m + j,
                ),
        decreases len,
    {
        let b: u8 = byte_of_bits(text, from + len - 8, from + len);
        proof {
            let m = v@.len() as int;
            let part = text@.subrange(from + len - 8, from + len);
            assert forall|j: u8| j < 8 implies #[trigger] bit_of(b, j) == text_bit(s, 8 * m + j) by {
                assert(bit_of(b, j) == text_bit(part, j as int));
                assert(part[part.len() - 1 - j] == s[s.len() - 1 - (8 * m + j)]);
            }
        }
        v.push(b);
        len = len - 8;
    }
    if len > 0 {
        let b: u8 = byte_of_bits(text, from, from + len);
        proof {
            let m = v@.len() as int;
            let part = text@.subrange(from as int, from + len);
            assert forall|j: u8| j < 8 implies #[trigger] bit_of(b, j) == text_bit(s, 8 * m + j) by {
                assert(bit_of(b, j) == text_bit(part, j as int));
                if j < len {
                    assert(part[part.len() - 1 - j] == s[s.len() - 1 - (8 * m + j)]);
                }
            }
        }
        v.push(b);
    }
    proof {
        assert forall|k: int| 0 <= k < 8 * v@.len() implies #[trigger] bit_at(
            v@,
            Endianness::LITTLE,
            k,
        ) == text_bit(s, k) by {
            let m = k / 8;
            let j = (k % 8) as u8;
            assert(bit_of(v@[m], j) == text_bit(s, 8 * m + j));
        }
    }
    v
}

/// The value of a bit string of up to eight characters; of a longer one, of
/// its last eight characters. Every character but `1` counts as `0`.
pub fn parse_bits_to_byte(bits: &str) -> (b: u8)
    ensures
        forall|j: u8| j < 8 ==> #[trigger] bit_of(b, j) == text_bit(bits.spec_bytes(), j as int),
{
    let text = bits.as_bytes();
    assert(text@.subrange(0, text@.len() as int) =~= text@);
    byte_of_bits(text, 0, text.len())
}

/// The bytes of a bit string, the least significant byte first.
pub fn parse_bits(bits: &str) -> (v: Vec<u8>)
    ensures
        v@.len() == bytes_for(bits.spec_bytes().len() as int),
        forall|k: int|
            0 <= k < 8 * v@.len() ==> #[trigger] bit_at(v@, Endianness::LITTLE, k) == text_bit(
                bits.spec_bytes(),
                k,
            ),
{
    let text = bits.as_bytes();
    assert(text@.subrange(0, text@.len() as int) =~= text@);
    literal_bytes(text, 0, text.len())
}

/// The literal that a bit string stands for.
pub fn parse_literal(string: &str) -> (literal: Literal)
    ensures
        literal.holds(string.spec_bytes()),
{
    let text = string.as_bytes();
    assert(text@.subrange(0, text@.len() as int) =~= text@);
    Literal { bytes: literal_bytes(text, 0, text.len()), bits: text.len() }
}

} // verus!
