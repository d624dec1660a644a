//! The two capabilities that a bit transfer connects: a source supplies a
//! bounded range of bits, a sink accepts a range of bits at an offset.

use vstd::prelude::*;
use crate::bits::{Endianness, bit_at};
use crate::display::DisplayBits;
use crate::error::{Error, is_input_error, is_output_error, root_cause};

verus! {

/// Whether `len` bits at offset `pos` lie within a sink of the given capacity
/// (`None`: unbounded).
pub open spec fn fits(capacity: Option<nat>, pos: int, len: int) -> bool {
    match capacity {
        Some(c) => pos + len <= c,
        None => true,
    }
}

/// Checks that the `len` bits from `start` on lie within
/// `[input_start, input_end]`, both ends included. A request for no bits is
/// held to its `start` alone.
pub fn check_input_range(
    source: &str,
    start: usize,
    len: usize,
    input_start: usize,
    input_end: usize,
) -> (r: Result<(), Error>)
    requires
        start + len - 1 <= usize::MAX,
    ensures
        ({
            let end = if len == 0 {
                start as int
            } else {
                start + len - 1
            };
            match r {
                Ok(_) => input_start <= start && end <= input_end,
                Err(e) => !(input_start <= start && end <= input_end) && is_input_error(
                    e,
                    source@,
                    start as int,
                    end,
                    input_start as int,
                    input_end as int,
                ),
            }
        }),
{
    let end: usize = if len == 0 {
        start
    } else {
        start + (len - 1)
    };
    if end > input_end || start < input_start {
        return Err(Error::input_bits_out_of_range(source, start, end, input_start, input_end));
    }
    Ok(())
}

/// Checks that `len` bits at offset `start` lie within a sink of
/// `output_len` bits; an unbounded sink takes any range.
pub fn check_output_range(sink: &str, start: usize, len: usize, output_len: Option<usize>) -> (r:
    Result<(), Error>)
    ensures
        match r {
            Ok(_) => output_len is Some ==> start + len <= output_len->0,
            Err(e) => output_len is Some && start + len > output_len->0 && is_output_error(
                e,
                sink@,
                len as int,
                start as int,
                output_len->0 as int,
            ),
        },
{
    match output_len {
        Some(capacity) => {
            if start > capacity || len > capacity - start {
                Err(Error::output_bits_out_of_range(sink, len, start, capacity))
            } else {
                Ok(())
            }
        },
        None => Ok(()),
    }
}

/// A place that accepts bits: a numbered row of bits, bounded or not, that a
/// write changes in the requested range and nowhere else.
pub trait BitSink: Sized {
    /// The number of bits of the sink; `None` where it can grow without bound.
    spec fn capacity(&self) -> Option<nat>;

    /// The bit that the sink holds at offset `k`.
    spec fn sink_bit(&self, k: int) -> bool;

    /// The name under which the sink reports a range error.
    spec fn sink_label(&self) -> Seq<char>;

    /// Writes the `len` bits of `bytes` from offset `start` on, addressed by
    /// `endianness`, to the offsets from `pos` on, and returns the number of
    /// bits written. A range that does not fit is refused before anything is
    /// written.
    fn write(
        &mut self,
        bytes: &[u8],
        start: usize,
        len: usize,
        pos: usize,
        endianness: Endianness,
    ) -> (r: Result<usize, Error>)
        requires
            len > 0 ==> start + len <= 8 * bytes@.len(),
            start + len <= usize::MAX,
            pos + len <= usize::MAX,
        ensures
            final(self).capacity() == old(self).capacity(),
            final(self).sink_label() == old(self).sink_label(),
            r is Ok <==> len == 0 || fits(old(self).capacity(), pos as int, len as int),
            r is Ok ==> r == Ok::<usize, Error>(len),
            r is Err ==> is_output_error(
                r->Err_0,
                old(self).sink_label(),
                len as int,
                pos as int,
                old(self).capacity()->0 as int,
            ),
            forall|k: int| #[trigger]
                final(self).sink_bit(k) == (if r is Ok && pos <= k < pos + len {
                    bit_at(bytes@, endianness, start + (k - pos))
                } else {
                    old(self).sink_bit(k)
                }),
    ;

    /// The number of bits of the sink; `None` where it can grow without bound.
    fn size(&self) -> (r: Option<usize>)
        ensures
            match r {
                Some(n) => self.capacity() == Some(n as nat),
                None => self.capacity() is None,
            },
    ;
}

/// A value that supplies a bounded row of bits, bit 0 being the least
/// significant one.
pub trait BitSource: Sized {
    /// The number of bits of the source.
    spec fn bit_count(&self) -> nat;

    /// The bit of the source at offset `k`.
    spec fn source_bit(&self, k: int) -> bool;

    /// Whether the source can hand out the `len` bits from `start` on.
    spec fn readable(&self, start: int, len: int) -> bool;

    /// Writes the `len` bits from offset `start` on to the offsets of `sink`
    /// from `pos` on, and returns the number of bits written. Bits of the
    /// sink outside that range are never touched; a request beyond the end of
    /// the source is refused before anything is written.
    fn write<S: BitSink>(&self, sink: &mut S, start: usize, len: usize, pos: usize) -> (r: Result<
        usize,
        Error,
    >)
        requires
            start + len <= usize::MAX,
            pos + len <= usize::MAX,
        ensures
            final(sink).capacity() == old(sink).capacity(),
            final(sink).sink_label() == old(sink).sink_label(),
            r is Ok <==> len == 0 || (self.readable(start as int, len as int) && fits(
                old(sink).capacity(),
                pos as int,
                len as int,
            )),
            r is Ok ==> r == Ok::<usize, Error>(len),
            len > 0 && start + len > self.bit_count() ==> r is Err && root_cause(
                r->Err_0,
            ) is InputBitsOutOfRange,
            len > 0 && start + len > self.bit_count() ==> forall|k: int| #[trigger]
                final(sink).sink_bit(k) == old(sink).sink_bit(k),
            r is Err && self.readable(start as int, len as int) ==> root_cause(
                r->Err_0,
            ) is OutputBitsOutOfRange,
            forall|k: int|
                !(pos <= k < pos + len) ==> #[trigger] final(sink).sink_bit(k) == old(
                    sink,
                ).sink_bit(k),
            r is Ok ==> forall|k: int|
                pos <= k < pos + len ==> #[trigger] final(sink).sink_bit(k) == self.source_bit(
                    start + (k - pos),
                ),
    ;

    /// Writes every bit of the source to the offsets of `sink` from `pos` on.
    fn write_to<S: BitSink>(&self, sink: &mut S, pos: usize) -> (r: Result<usize, Error>)
        requires
            pos + self.bit_count() <= usize::MAX,
        ensures
            final(sink).capacity() == old(sink).capacity(),
            final(sink).sink_label() == old(sink).sink_label(),
            r is Ok <==> self.bit_count() == 0 || (self.readable(0, self.bit_count() as int)
                && fits(old(sink).capacity(), pos as int, self.bit_count() as int)),
            r is Ok ==> r == Ok::<usize, Error>(self.bit_count() as usize),
            r is Err && self.readable(0, self.bit_count() as int) ==> root_cause(
                r->Err_0,
            ) is OutputBitsOutOfRange,
            forall|k: int|
                !(pos <= k < pos + self.bit_count()) ==> #[trigger] final(sink).sink_bit(k)
                    == old(sink).sink_bit(k),
            r is Ok ==> forall|k: int|
                pos <= k < pos + self.bit_count() ==> #[trigger] final(sink).sink_bit(k)
                    == self.source_bit(k - pos),
    {
        let n: usize = BitSource::size(self);
        BitSource::write(self, sink, 0, n, pos)
    }

    /// Writes every bit of the source into a sink made by `T::default()` and
    /// returns that sink. Whether the bits fit is for the new sink to say;
    /// `write_to` states it for a sink at hand.
    fn bits_into<T: BitSink + Default>(&self) -> (r: Result<T, Error>)
        ensures
            self.bit_count() == 0 ==> r is Ok,
            r is Ok ==> self.bit_count() == 0 || (self.readable(0, self.bit_count() as int)
                && fits(r->Ok_0.capacity(), 0, self.bit_count() as int)),
            r is Ok ==> forall|k: int|
                0 <= k < self.bit_count() ==> #[trigger] r->Ok_0.sink_bit(k) == self.source_bit(k),
    {
        let mut sink = T::default();
        let n: usize = BitSource::size(self);
        match BitSource::write(self, &mut sink, 0, n, 0) {
            Ok(_) => Ok(sink),
            Err(e) => Err(e),
        }
    }

    /// Wraps the source to show its bits as text.
    fn display_bits<'a>(&'a self) -> (d: DisplayBits<'a, Self>)
        ensures
            d.source == self,
    {
        DisplayBits { source: self }
    }

    /// The number of bits of the source.
    fn size(&self) -> (r: usize)
        ensures
            r == self.bit_count(),
    ;
}

} // verus!
