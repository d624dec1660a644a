//! Byte buffers tagged with a length in bits, as sources and as sinks.

use vstd::prelude::*;
use crate::bits::{Endianness, bit_at, lemma_buffer_extensional};
use crate::chunk::write_bits;
use crate::error::{Error, is_input_error, is_output_error};
use crate::sink::{BitSink, BitSource, check_input_range, check_output_range};

verus! {

/// A byte buffer addressed from its first byte, tagged with the number of
/// its bits that are in use.
#[derive(Debug, Clone)]
pub struct LittleEndian {
    bytes: Vec<u8>,
    bits: usize,
}

impl LittleEndian {
    /// The bytes of the buffer.
    pub closed spec fn contents(&self) -> Seq<u8> {
        self.bytes@
    }

    /// The number of bits in use: the tag, and never more than the buffer
    /// holds.
    pub closed spec fn width(&self) -> nat {
        if self.bits <= 8 * self.bytes@.len() {
            self.bits as nat
        } else {
            8 * self.bytes@.len()
        }
    }

    /// The bit at offset `k`, where that is in use.
    pub open spec fn bit(&self, k: int) -> bool {
        0 <= k < self.width() && bit_at(self.contents(), Endianness::LITTLE, k)
    }

    /// A window on the whole of `bytes`.
    pub fn new(bytes: Vec<u8>) -> (w: LittleEndian)
        requires
            8 * bytes@.len() <= usize::MAX,
        ensures
            w.contents() == bytes@,
            w.width() == 8 * bytes@.len(),
    {
        let bits: usize = bytes.len() * 8;
        LittleEndian { bytes, bits }
    }

    /// A window on the first `bits` bits of `bytes`; refused where the buffer
    /// holds fewer.
    pub fn with_bits(bytes: Vec<u8>, bits: usize) -> (r: Result<LittleEndian, Error>)
        requires
            8 * bytes@.len() <= usize::MAX,
        ensures
            match r {
                Ok(w) => bits <= 8 * bytes@.len() && w.contents() == bytes@ && w.width() == bits,
                Err(e) => bits > 8 * bytes@.len() && is_input_error(
                    e,
                    "LittleEndian"@,
                    0,
                    bits as int,
                    0,
                    (8 * bytes@.len()) as int,
                ),
            },
    {
        let max_bits: usize = bytes.len() * 8;
        if bits > max_bits {
            return Err(Error::input_bits_out_of_range("LittleEndian", 0, bits, 0, max_bits));
        }
        Ok(LittleEndian { bytes, bits })
    }

    /// The bytes of the buffer.
    pub fn bytes(&self) -> (b: &[u8])
        ensures
            b@ == self.contents(),
    {
        self.bytes.as_slice()
    }

    /// Gives the buffer back.
    pub fn into_bytes(self) -> (b: Vec<u8>)
        ensures
            b@ == self.contents(),
    {
        self.bytes
    }

    /// Reads the bit at offset `k`.
    pub fn get(&self, k: usize) -> (b: bool)
        requires
            k < self.width(),
        ensures
            b == self.bit(k as int),
    {
        let byte: u8 = self.bytes[k / 8];
        (byte >> ((k % 8) as u8)) & 1 == 1
    }

    fn in_use(&self) -> (n: usize)
        ensures
            n == self.width(),
            n <= 8 * self.bytes@.len(),
    {
        if self.bits / 8 < self.bytes.len() {
            self.bits
        } else {
            self.bytes.len() * 8
        }
    }
}

/// A window on a whole buffer that holds, bit for bit, what another such
/// window of the same width holds, holds the same bytes: what was written in
/// full is read back unchanged.
pub proof fn round_trip_little_endian(value: &LittleEndian, sink: &LittleEndian)
    requires
        value.width() == 8 * value.contents().len(),
        sink.width() == value.width(),
        sink.contents().len() == value.contents().len(),
        forall|k: int|
            0 <= k < value.width() ==> #[trigger] sink.sink_bit(k) == value.source_bit(k),
    ensures
        sink.contents() == value.contents(),
        forall|k: int| sink.source_bit(k) == value.source_bit(k),
{
    assert forall|k: int| 0 <= k < 8 * sink.contents().len() implies bit_at(
        sink.contents(),
        Endianness::LITTLE,
        k,
    ) == bit_at(value.contents(), Endianness::LITTLE, k) by {
        assert(sink.sink_bit(k) == value.source_bit(k));
    }
    lemma_buffer_extensional(sink.contents(), value.contents(), Endianness::LITTLE);
}

impl BitSource for LittleEndian {
    open spec fn bit_count(&self) -> nat {
        self.width()
    }

    open spec fn source_bit(&self, k: int) -> bool {
        self.bit(k)
    }

    open spec fn readable(&self, start: int, len: int) -> bool {
        start + len <= self.width()
    }

    fn write<S: BitSink>(&self, sink: &mut S, start: usize, len: usize, pos: usize) -> (r: Result<
        usize,
        Error,
    >)
        ensures
            r is Err ==> forall|k: int| #[trigger]
                final(sink).sink_bit(k) == old(sink).sink_bit(k),
            len > 0 && start + len > self.width() ==> is_input_error(
                r->Err_0,
                "LittleEndian"@,
                start as int,
                start + len - 1,
                0,
                if self.width() == 0 {
                    0int
                } else {
                    self.width() - 1
                },
            ),
            len > 0 && start + len <= self.width() && r is Err ==> is_output_error(
                r->Err_0,
                old(sink).sink_label(),
                len as int,
                pos as int,
                old(sink).capacity()->0 as int,
            ),
    {
        if len == 0 {
            return Ok(0);
        }
        let size: usize = self.in_use();
        if size == 0 {
            return Err(Error::input_bits_out_of_range("LittleEndian", start, start + len - 1, 0, 0));
        }
        match check_input_range("LittleEndian", start, len, 0, size - 1) {
            Err(e) => Err(e),
            Ok(_) => sink.write(self.bytes.as_slice(), start, len, pos, Endianness::LITTLE),
        }
    }

    fn size(&self) -> (r: usize)
    {
        self.in_use()
    }
}

impl BitSink for LittleEndian {
    open spec fn capacity(&self) -> Option<nat> {
        Some(self.width())
    }

    open spec fn sink_bit(&self, k: int) -> bool {
        self.bit(k)
    }

    open spec fn sink_label(&self) -> Seq<char> {
        "LittleEndian"@
    }

    fn write(
        &mut self,
        bytes: &[u8],
        start: usize,
        len: usize,
        pos: usize,
        endianness: Endianness,
    ) -> (r: Result<usize, Error>)
        ensures
            final(self).contents().len() == old(self).contents().len(),
            r is Err ==> final(self).contents() == old(self).contents(),
    {
        if len == 0 {
            return Ok(0);
        }
        let size: usize = self.in_use();
        match check_output_range("LittleEndian", pos, len, Some(size)) {
            Err(e) => Err(e),
            Ok(_) => write_bits(
                bytes,
                start,
                len,
                pos,
                self.bytes.as_mut_slice(),
                endianness,
                Endianness::LITTLE,
            ),
        }
    }

    fn size(&self) -> (r: Option<usize>)
    {
        Some(self.in_use())
    }
}

/// A byte buffer addressed from its last byte, tagged with the number of
/// its bits that are in use.
#[derive(Debug, Clone)]
pub struct BigEndian {
    bytes: Vec<u8>,
    bits: usize,
}

impl BigEndian {
    /// The bytes of the buffer.
    pub closed spec fn contents(&self) -> Seq<u8> {
        self.bytes@
    }

    /// The number of bits in use: the tag, and never more than the buffer
    /// holds.
    pub closed spec fn width(&self) -> nat {
        if self.bits <= 8 * self.bytes@.len() {
            self.bits as nat
        } else {
            8 * self.bytes@.len()
        }
    }

    /// The bit at offset `k`, where that is in use.
    pub open spec fn bit(&self, k: int) -> bool {
        0 <= k < self.width() && bit_at(self.contents(), Endianness::BIG, k)
    }

    /// A window on the whole of `bytes`.
    pub fn new(bytes: Vec<u8>) -> (w: BigEndian)
        requires
            8 * bytes@.len() <= usize::MAX,
        ensures
            w.contents() == bytes@,
            w.width() == 8 * bytes@.len(),
    {
        let bits: usize = bytes.len() * 8;
        BigEndian { bytes, bits }
    }

    /// A window on the first `bits` bits of `bytes`; refused where the buffer
    /// holds fewer.
    pub fn with_bits(bytes: Vec<u8>, bits: usize) -> (r: Result<BigEndian, Error>)
        requires
            8 * bytes@.len() <= usize::MAX,
        ensures
            match r {
                Ok(w) => bits <= 8 * bytes@.len() && w.contents() == bytes@ && w.width() == bits,
                Err(e) => bits > 8 * bytes@.len() && is_input_error(
                    e,
                    "BigEndian"@,
                    0,
                    bits as int,
                    0,
                    (8 * bytes@.len()) as int,
                ),
            },
    {
        let max_bits: usize = bytes.len() * 8;
        if bits > max_bits {
            return Err(Error::input_bits_out_of_range("BigEndian", 0, bits, 0, max_bits));
        }
        Ok(BigEndian { bytes, bits })
    }

    /// The bytes of the buffer.
    pub fn bytes(&self) -> (b: &[u8])
        ensures
            b@ == self.contents(),
    {
        self.bytes.as_slice()
    }

    /// Gives the buffer back.
    pub fn into_bytes(self) -> (b: Vec<u8>)
        ensures
            b@ == self.contents(),
    {
        self.bytes
    }

    /// Reads the bit at offset `k`.
    pub fn get(&self, k: usize) -> (b: bool)
        requires
            k < self.width(),
        ensures
            b == self.bit(k as int),
    {
        let byte: u8 = self.bytes[self.bytes.len() - 1 - k / 8];
        (byte >> ((k % 8) as u8)) & 1 == 1
    }

    fn in_use(&self) -> (n: usize)
        ensures
            n == self.width(),
            n <= 8 * self.bytes@.len(),
    {
        if self.bits / 8 < self.bytes.len() {
            self.bits
        } else {
            self.bytes.len() * 8
        }
    }
}

/// A window on a whole buffer that holds, bit for bit, what another such
/// window of the same width holds, holds the same bytes: what was written in
/// full is read back unchanged.
pub proof fn round_trip_big_endian(value: &BigEndian, sink: &BigEndian)
    requires
        value.width() == 8 * value.contents().len(),
        sink.width() == value.width(),
        sink.contents().len() == value.contents().len(),
        forall|k: int|
            0 <= k < value.width() ==> #[trigger] sink.sink_bit(k) == value.source_bit(k),
    ensures
        sink.contents() == value.contents(),
        forall|k: int| sink.source_bit(k) == value.source_bit(k),
{
    assert forall|k: int| 0 <= k < 8 * sink.contents().len() implies bit_at(
        sink.contents(),
        Endianness::BIG,
        k,
    ) == bit_at(value.contents(), Endianness::BIG, k) by {
        assert(sink.sink_bit(k) == value.source_bit(k));
    }
    lemma_buffer_extensional(sink.contents(), value.contents(), Endianness::BIG);
}

impl BitSource for BigEndian {
    open spec fn bit_count(&self) -> nat {
        self.width()
    }

    open spec fn source_bit(&self, k: int) -> bool {
        self.bit(k)
    }

    open spec fn readable(&self, start: int, len: int) -> bool {
        start + len <= self.width()
    }

    fn write<S: BitSink>(&self, sink: &mut S, start: usize, len: usize, pos: usize) -> (r: Result<
        usize,
        Error,
    >)
        ensures
            r is Err ==> forall|k: int| #[trigger]
                final(sink).sink_bit(k) == old(sink).sink_bit(k),
            len > 0 && start + len > self.width() ==> is_input_error(
                r->Err_0,
                "BigEndian"@,
                start as int,
                start + len - 1,
                0,
                if self.width() == 0 {
                    0int
                } else {
                    self.width() - 1
                },
            ),
            len > 0 && start + len <= self.width() && r is Err ==> is_output_error(
                r->Err_0,
                old(sink).sink_label(),
                len as int,
                pos as int,
                old(sink).capacity()->0 as int,
            ),
    {
        if len == 0 {
            return Ok(0);
        }
        let size: usize = self.in_use();
        if size == 0 {
            return Err(Error::input_bits_out_of_range("BigEndian", start, start + len - 1, 0, 0));
        }
        match check_input_range("BigEndian", start, len, 0, size - 1) {
            Err(e) => Err(e),
            Ok(_) => sink.write(self.bytes.as_slice(), start, len, pos, Endianness::BIG),
        }
    }

    fn size(&self) -> (r: usize)
    {
        self.in_use()
    }
}

impl BitSink for BigEndian {
    open spec fn capacity(&self) -> Option<nat> {
        Some(self.width())
    }

    open spec fn sink_bit(&self, k: int) -> bool {
        self.bit(k)
    }

    open spec fn sink_label(&self) -> Seq<char> {
        "BigEndian"@
    }

    fn write(
        &mut self,
        bytes: &[u8],
        start: usize,
        len: usize,
        pos: usize,
        endianness: Endianness,
    ) -> (r: Result<usize, Error>)
        ensures
            final(self).contents().len() == old(self).contents().len(),
            r is Err ==> final(self).contents() == old(self).contents(),
    {
        if len == 0 {
            return Ok(0);
        }
        let size: usize = self.in_use();
        match check_output_range("BigEndian", pos, len, Some(size)) {
            Err(e) => Err(e),
            Ok(_) => write_bits(
                bytes,
                start,
                len,
                pos,
                self.bytes.as_mut_slice(),
                endianness,
                Endianness::BIG,
            ),
        }
    }

    fn size(&self) -> (r: Option<usize>)
    {
        Some(self.in_use())
    }
}

} // verus!
