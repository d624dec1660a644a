//! The bits of a source as text.

use vstd::prelude::*;
use vstd::pervasive::unreached;
use crate::bits::bit_of;
use crate::chunk::BitChunk;
use crate::sink::{BitSink, BitSource};
use crate::window::LittleEndian;

verus! {

/// A source to be shown as a row of `0` and `1`, the most significant bit
/// first.
#[derive(Debug, Clone)]
pub struct DisplayBits<'a, T: BitSource> {
    pub source: &'a T,
}

/// The character that stands for a bit.
pub open spec fn bit_char(b: bool) -> char {
    if b {
        '1'
    } else {
        '0'
    }
}

impl<'a, T: BitSource> DisplayBits<'a, T> {
    /// The bits of the source, one character for each, the most significant
    /// bit first.
    pub fn to_string(&self) -> (s: String)
        requires
            self.source.readable(0, self.source.bit_count() as int),
            self.source.bit_count() + 8 <= usize::MAX,
        ensures
            s@.len() == self.source.bit_count(),
            forall|i: int|
                0 <= i < s@.len() ==> #[trigger] s@[i] == bit_char(
                    self.source.source_bit(s@.len() - 1 - i),
                ),
    {
        let num_bits: usize = self.source.size();
        let num_bytes: usize = if num_bits % 8 != 0 {
            num_bits / 8 + 1
        } else {
            num_bits / 8
        };
        let mut bytes: Vec<u8> = Vec::new();
        while bytes.len() < num_bytes
            invariant
                bytes@.len() <= num_bytes,
            decreases num_bytes - bytes@.len(),
        {
            bytes.push(0);
        }
        let mut sink = match LittleEndian::with_bits(bytes, num_bits) {
            Ok(sink) => sink,
            Err(_) => unreached(),
        };
        match self.source.write_to(&mut sink, 0) {
            Ok(_) => {},
            Err(_) => unreached(),
        }
        proof {
            assert forall|k: int| 0 <= k < num_bits implies #[trigger] sink.bit(k)
                == self.source.source_bit(k) by {
                assert(sink.sink_bit(k) == self.source.source_bit(k - 0));
            }
        }
        let mut s = String::new();
        let mut i: usize = 0;
        while i < num_bits
            invariant
                i <= num_bits,
                num_bits == self.source.bit_count(),
                sink.width() == num_bits,
                forall|k: int|
                    0 <= k < num_bits ==> #[trigger] sink.bit(k) == self.source.source_bit(k),
                s@.len() == i,
                forall|j: int|
                    0 <= j < i ==> #[trigger] s@[j] == bit_char(
                        self.source.source_bit(num_bits - 1 - j),
                    ),
            decreases num_bits - i,
        {
            let c: char = if sink.get(num_bits - 1 - i) {
                '1'
            } else {
                '0'
            };
            s.push(c);
            i = i + 1;
        }
        s
    }
}

/// The number of digits that show a chunk value of `bits` bits: one for each
/// bit, and as many more as it takes where the value does not fit in them.
pub open spec fn shown_digits(byte: u8, bits: u8) -> u8
    decreases 8 - bits,
{
    if bits < 8 && byte >> bits != 0 {
        shown_digits(byte, (bits + 1) as u8)
    } else {
        bits
    }
}

impl BitChunk {
    /// The chunk as text: its bits, the most significant one first, and
    /// `<empty>` for a chunk of no bits.
    pub fn to_string(&self) -> (s: String)
        requires
            self.bits <= 8,
        ensures
            self.bits == 0 ==> s@ == "<empty>"@,
            self.bits > 0 ==> s@.len() == shown_digits(self.byte, self.bits),
            self.bits > 0 ==> forall|i: int|
                0 <= i < s@.len() ==> #[trigger] s@[i] == bit_char(
                    bit_of(self.byte, (s@.len() - 1 - i) as u8),
                ),
    {
        if self.bits == 0 {
            return "<empty>".to_owned();
        }
        let mut digits: u8 = self.bits;
        while digits < 8 && self.byte >> digits != 0
            invariant
                self.bits <= digits <= 8,
                shown_digits(self.byte, self.bits) == shown_digits(self.byte, digits),
            decreases 8 - digits,
        {
            digits = digits + 1;
        }
        let mut s = String::new();
        let mut i: u8 = 0;
        while i < digits
            invariant
                i <= digits <= 8,
                s@.len() == i,
                forall|j: int|
                    0 <= j < i ==> #[trigger] s@[j] == bit_char(
                        bit_of(self.byte, (digits - 1 - j) as u8),
                    ),
            decreases digits - i,
        {
            let c: char = if (self.byte >> (digits - 1 - i)) & 1 == 1 {
                '1'
            } else {
                '0'
            };
            s.push(c);
            i = i + 1;
        }
        s
    }
}

} // verus!
