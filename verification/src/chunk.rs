//! The chunked copy: bits move from a source buffer to a sink buffer in
//! chunks of at most eight bits, none of which crosses a byte boundary of
//! the source.

use vstd::prelude::*;
use crate::bits::{
    Endianness, bit_at, bit_of, byte_index, deposit, extract, lemma_deposit_bit,
    lemma_extract_bit, lemma_mask_values, lemma_remainder_bit, mask_spec, remainder,
};
use crate::error::Error;

verus! {

/// Up to eight bits on their way from a source to a sink: the `bits` low bits
/// of `byte`.
#[derive(Debug, Clone, Copy, PartialEq, Eq, Structural)]
pub struct BitChunk {
    pub byte: u8,
    pub bits: u8,
}

impl BitChunk {
    pub fn byte(&self) -> (r: u8)
        ensures
            r == self.byte,
    {
        self.byte
    }

    pub fn bits(&self) -> (r: usize)
        ensures
            r == self.bits,
    {
        self.bits as usize
    }

    pub fn is_empty(&self) -> (r: bool)
        ensures
            r == (self.bits == 0),
    {
        self.bits == 0
    }
}

/// The mask of the `len` low bits of a byte.
pub fn mask(len: usize) -> (m: u8)
    ensures
        m == (if len >= 8 {
            0xffu8
        } else {
            mask_spec(len as u8)
        }),
{
    proof {
        lemma_mask_values();
    }
    match len {
        0 => 0,
        1 => 0b1,
        2 => 0b11,
        3 => 0b111,
        4 => 0b1111,
        5 => 0b11111,
        6 => 0b111111,
        7 => 0b1111111,
        _ => 0b11111111,
    }
}

/// How many of `len` bits that start at offset `start` lie in the byte that
/// holds `start`.
pub open spec fn chunk_len(start: int, len: int) -> int {
    if len < 8 - start % 8 {
        len
    } else {
        8 - start % 8
    }
}

/// The next chunk of `len` bits of `bytes` from offset `start` on: empty for
/// `len == 0`, else the bits up to the end of the byte that holds `start`.
pub open spec fn next_chunk_spec(bytes: Seq<u8>, e: Endianness, start: int, len: int) -> BitChunk {
    if len == 0 {
        BitChunk { byte: 0, bits: 0 }
    } else {
        BitChunk {
            byte: extract(
                bytes[byte_index(bytes.len() as int, e, start)],
                (start % 8) as u8,
                chunk_len(start, len) as u8,
            ),
            bits: chunk_len(start, len) as u8,
        }
    }
}

/// A chunk holds the source's bits from `start` on, and nothing above them.
pub proof fn lemma_next_chunk_bits(bytes: Seq<u8>, e: Endianness, start: int, len: int)
    requires
        0 <= start,
        0 < len,
        start / 8 < bytes.len(),
    ensures
        ({
            let c = next_chunk_spec(bytes, e, start, len);
            &&& c.bits == chunk_len(start, len)
            &&& 1 <= c.bits <= 8
            &&& forall|j: u8|
                j < 8 ==> #[trigger] bit_of(c.byte, j) == (j < c.bits && bit_at(
                    bytes,
                    e,
                    start + j,
                ))
        }),
{
    let c = next_chunk_spec(bytes, e, start, len);
    let i = byte_index(bytes.len() as int, e, start);
    let bit = (start % 8) as u8;
    let n = chunk_len(start, len) as u8;
    assert forall|j: u8| j < 8 implies #[trigger] bit_of(c.byte, j) == (j < c.bits && bit_at(
        bytes,
        e,
        start + j,
    )) by {
        lemma_extract_bit(bytes[i], bit, n, j, ((bit + j) % 8) as u8);
        if j < n {
            assert((start + j) / 8 == start / 8);
            assert((start + j) % 8 == bit + j);
        }
    }
}

/// The sink after the first part of `chunk` is placed at offset `start`: the
/// byte that holds `start` takes as many bits as fit in it.
pub open spec fn deposit_chunk(bytes: Seq<u8>, e: Endianness, chunk: BitChunk, start: int) -> Seq<
    u8,
> {
    if chunk.bits == 0 {
        bytes
    } else {
        let i = byte_index(bytes.len() as int, e, start);
        bytes.update(
            i,
            deposit(
                bytes[i],
                chunk.byte,
                (start % 8) as u8,
                chunk_len(start, chunk.bits as int) as u8,
            ),
        )
    }
}

/// The part of `chunk` that did not fit in the byte that holds `start`.
pub open spec fn chunk_rest(chunk: BitChunk, start: int) -> BitChunk {
    if chunk.bits == 0 {
        chunk
    } else {
        let n = chunk_len(start, chunk.bits as int);
        BitChunk { byte: remainder(chunk.byte, n as u8), bits: (chunk.bits - n) as u8 }
    }
}

/// Bit by bit, what placing the first part of a chunk does to a sink.
pub proof fn lemma_deposit_chunk_bits(bytes: Seq<u8>, e: Endianness, chunk: BitChunk, start: int)
    requires
        0 <= start,
        1 <= chunk.bits <= 8,
        start / 8 < bytes.len(),
    ensures
        ({
            let post = deposit_chunk(bytes, e, chunk, start);
            let n = chunk_len(start, chunk.bits as int);
            &&& post.len() == bytes.len()
            &&& 1 <= n <= chunk.bits
            &&& forall|k: int|
                0 <= k < 8 * bytes.len() ==> #[trigger] bit_at(post, e, k) == (if start <= k
                    < start + n {
                    bit_of(chunk.byte, (k - start) as u8)
                } else {
                    bit_at(bytes, e, k)
                })
        }),
{
    let post = deposit_chunk(bytes, e, chunk, start);
    let n = chunk_len(start, chunk.bits as int);
    let i = byte_index(bytes.len() as int, e, start);
    let bit = (start % 8) as u8;
    assert forall|k: int| 0 <= k < 8 * bytes.len() implies #[trigger] bit_at(post, e, k) == (
    if start <= k < start + n {
        bit_of(chunk.byte, (k - start) as u8)
    } else {
        bit_at(bytes, e, k)
    }) by {
        let ki = byte_index(bytes.len() as int, e, k);
        let j = (k % 8) as u8;
        if ki == i {
            assert(k / 8 == start / 8);
            lemma_deposit_bit(bytes[i], chunk.byte, bit, n as u8, j, ((j + 8 - bit) % 8) as u8);
            if start <= k < start + n {
                assert(k - start == j - bit);
            }
        } else {
            assert(k / 8 != start / 8);
        }
    }
}

/// The next chunk of a buffer addressed from its last byte.
pub fn next_chunk_be(bytes: &[u8], start: usize, len: usize) -> (chunk: BitChunk)
    requires
        len > 0 ==> start / 8 < bytes@.len(),
    ensures
        chunk == next_chunk_spec(bytes@, Endianness::BIG, start as int, len as int),
{
    if len == 0 {
        BitChunk { byte: 0, bits: 0 }
    } else {
        let byte: usize = bytes.len() - 1 - (start / 8);
        let bit: usize = start % 8;
        let num_bits: usize = if len < 8 - bit {
            len
        } else {
            8 - bit
        };
        let m: u8 = mask(num_bits) << (bit as u8);
        let value: u8 = (bytes[byte] & m) >> (bit as u8);
        BitChunk { byte: value, bits: num_bits as u8 }
    }
}

/// The next chunk of a buffer addressed from its first byte.
pub fn next_chunk_le(bytes: &[u8], start: usize, len: usize) -> (chunk: BitChunk)
    requires
        len > 0 ==> start / 8 < bytes@.len(),
    ensures
        chunk == next_chunk_spec(bytes@, Endianness::LITTLE, start as int, len as int),
{
    if len == 0 {
        BitChunk { byte: 0, bits: 0 }
    } else {
        let byte: usize = start / 8;
        let bit: usize = start % 8;
        let num_bits: usize = if len < 8 - bit {
            len
        } else {
            8 - bit
        };
        let m: u8 = mask(num_bits) << (bit as u8);
        let value: u8 = (bytes[byte] & m) >> (bit as u8);
        BitChunk { byte: value, bits: num_bits as u8 }
    }
}

/// Places the first part of `chunk` in the byte that holds offset `start`,
/// addressed from the first byte, and returns what did not fit.
pub fn write_chunk_le_helper(chunk: BitChunk, bytes: &mut [u8], start: usize) -> (rest: BitChunk)
    requires
        chunk.bits <= 8,
        chunk.bits > 0 ==> start / 8 < old(bytes)@.len(),
    ensures
        final(bytes)@ == deposit_chunk(old(bytes)@, Endianness::LITTLE, chunk, start as int),
        rest == chunk_rest(chunk, start as int),
{
    if chunk.bits() == 0 {
        return chunk;
    }
    let byte: usize = start / 8;
    let bit: usize = start % 8;
    let num_bits: usize = if chunk.bits() < 8 - bit {
        chunk.bits()
    } else {
        8 - bit
    };
    let m: u8 = mask(num_bits);
    let value: u8 = (bytes[byte] & !(m << (bit as u8))) | ((chunk.byte() & m) << (bit as u8));
    bytes[byte] = value;
    let left: u8 = if num_bits >= 8 {
        0
    } else {
        chunk.byte() >> (num_bits as u8)
    };
    BitChunk { byte: left, bits: (chunk.bits() - num_bits) as u8 }
}

/// Places the first part of `chunk` in the byte that holds offset `start`,
/// addressed from the last byte, and returns what did not fit.
pub fn write_chunk_be_helper(chunk: BitChunk, bytes: &mut [u8], start: usize) -> (rest: BitChunk)
    requires
        chunk.bits <= 8,
        chunk.bits > 0 ==> start / 8 < old(bytes)@.len(),
    ensures
        final(bytes)@ == deposit_chunk(old(bytes)@, Endianness::BIG, chunk, start as int),
        rest == chunk_rest(chunk, start as int),
{
    if chunk.bits() == 0 {
        return chunk;
    }
    let byte: usize = bytes.len() - 1 - (start / 8);
    let bit: usize = start % 8;
    let num_bits: usize = if chunk.bits() < 8 - bit {
        chunk.bits()
    } else {
        8 - bit
    };
    let m: u8 = mask(num_bits);
    let value: u8 = (bytes[byte] & !(m << (bit as u8))) | ((chunk.byte() & m) << (bit as u8));
    bytes[byte] = value;
    let left: u8 = if num_bits >= 8 {
        0
    } else {
        chunk.byte() >> (num_bits as u8)
    };
    BitChunk { byte: left, bits: (chunk.bits() - num_bits) as u8 }
}

/// `post` is `pre` with the bits of `chunk` at the offsets from `start` on,
/// and every other bit as it was.
pub open spec fn chunk_placed(
    pre: Seq<u8>,
    post: Seq<u8>,
    e: Endianness,
    start: int,
    chunk: BitChunk,
) -> bool {
    &&& post.len() == pre.len()
    &&& forall|k: int|
        0 <= k < 8 * pre.len() ==> #[trigger] bit_at(post, e, k) == (if start <= k < start
            + chunk.bits {
            bit_of(chunk.byte, (k - start) as u8)
        } else {
            bit_at(pre, e, k)
        })
}

/// Writes the whole of `chunk` at offset `start` of `bytes`, crossing into
/// the next byte where the chunk does not fit in one, and returns the number
/// of bits written.
pub fn write_chunk(chunk: BitChunk, bytes: &mut [u8], start: usize, endianness: Endianness) -> (written:
    usize)
    requires
        chunk.bits <= 8,
        start + chunk.bits <= 8 * old(bytes)@.len(),
        start + chunk.bits <= usize::MAX,
    ensures
        written == chunk.bits,
        chunk_placed(old(bytes)@, final(bytes)@, endianness, start as int, chunk),
{
    let mut cur = chunk;
    let mut written: usize = 0;
    let mut at: usize = start;
    while !cur.is_empty()
        invariant
            chunk.bits <= 8,
            start + chunk.bits <= 8 * old(bytes)@.len(),
            start + chunk.bits <= usize::MAX,
            cur.bits <= chunk.bits,
            written == chunk.bits - cur.bits,
            at == start + written,
            bytes@.len() == old(bytes)@.len(),
            forall|j: u8|
                j < 8 ==> #[trigger] bit_of(cur.byte, j) == (j + written < 8 && bit_of(
                    chunk.byte,
                    (j + written) as u8,
                )),
            forall|k: int|
                0 <= k < 8 * bytes@.len() ==> #[trigger] bit_at(bytes@, endianness, k) == (
                if start <= k < start + written {
                    bit_of(chunk.byte, (k - start) as u8)
                } else {
                    bit_at(old(bytes)@, endianness, k)
                }),
        decreases cur.bits,
    {
        let ghost before = bytes@;
        let ghost n = chunk_len(at as int, cur.bits as int);
        proof {
            lemma_deposit_chunk_bits(before, endianness, cur, at as int);
        }
        let bits: usize = cur.bits();
        let rest = match endianness {
            Endianness::LITTLE => write_chunk_le_helper(cur, bytes, at),
            Endianness::BIG => write_chunk_be_helper(cur, bytes, at),
        };
        proof {
            assert forall|j: u8| j < 8 implies #[trigger] bit_of(rest.byte, j) == (j + written + n
                < 8 && bit_of(chunk.byte, (j + written + n) as u8)) by {
                lemma_remainder_bit(cur.byte, n as u8, j, ((j + n) % 8) as u8);
            }
            assert forall|k: int| 0 <= k < 8 * bytes@.len() implies #[trigger] bit_at(
                bytes@,
                endianness,
                k,
            ) == (if start <= k < start + written + n {
                bit_of(chunk.byte, (k - start) as u8)
            } else {
                bit_at(old(bytes)@, endianness, k)
            }) by {
                assert(bit_at(before, endianness, k) == (if start <= k < start + written {
                    bit_of(chunk.byte, (k - start) as u8)
                } else {
                    bit_at(old(bytes)@, endianness, k)
                }));
                if at <= k < at + n {
                    let j = (k - at) as u8;
                    assert(bit_of(cur.byte, j) == (j + written < 8 && bit_of(
                        chunk.byte,
                        (j + written) as u8,
                    )));
                }
            }
        }
        let bits_written: usize = bits - rest.bits();
        at = at + bits_written;
        written = written + bits_written;
        cur = rest;
    }
    written
}

/// `post` is `pre` with the `len` bits from offset `pos` on replaced by the
/// `len` bits of `src` from offset `start` on, and every other bit as it was.
pub open spec fn bits_copied(
    pre: Seq<u8>,
    post: Seq<u8>,
    e: Endianness,
    pos: int,
    len: int,
    src: Seq<u8>,
    src_e: Endianness,
    start: int,
) -> bool {
    &&& post.len() == pre.len()
    &&& forall|k: int|
        0 <= k < 8 * pre.len() ==> #[trigger] bit_at(post, e, k) == (if pos <= k < pos + len {
            bit_at(src, src_e, start + (k - pos))
        } else {
            bit_at(pre, e, k)
        })
}

/// The next chunk of `bytes` under the addressing mode `endianness`.
pub fn next_chunk(bytes: &[u8], start: usize, len: usize, endianness: Endianness) -> (chunk:
    BitChunk)
    requires
        len > 0 ==> start / 8 < bytes@.len(),
    ensures
        chunk == next_chunk_spec(bytes@, endianness, start as int, len as int),
{
    match endianness {
        Endianness::LITTLE => next_chunk_le(bytes, start, len),
        Endianness::BIG => next_chunk_be(bytes, start, len),
    }
}

/// Copies the `len` bits of `source` from offset `start` on to the offsets of
/// `sink` from `pos` on, each buffer under its own addressing mode, and
/// returns the number of bits written.
pub fn write_bits(
    source: &[u8],
    start: usize,
    len: usize,
    pos: usize,
    sink: &mut [u8],
    source_endianness: Endianness,
    sink_endianness: Endianness,
) -> (r: Result<usize, Error>)
    requires
        start + len <= 8 * source@.len(),
        pos + len <= 8 * old(sink)@.len(),
        start + len <= usize::MAX,
        pos + len <= usize::MAX,
    ensures
        r == Ok::<usize, Error>(len),
        bits_copied(
            old(sink)@,
            final(sink)@,
            sink_endianness,
            pos as int,
            len as int,
            source@,
            source_endianness,
            start as int,
        ),
{
    let mut at: usize = pos;
    let mut from: usize = start;
    let mut left: usize = len;
    let mut chunk = next_chunk(source, from, left, source_endianness);
    let mut written: usize = 0;
    while !chunk.is_empty()
        invariant
            start + len <= 8 * source@.len(),
            pos + len <= 8 * old(sink)@.len(),
            start + len <= usize::MAX,
            pos + len <= usize::MAX,
            written <= len,
            from == start + written,
            at == pos + written,
            left == len - written,
            chunk == next_chunk_spec(source@, source_endianness, from as int, left as int),
            sink@.len() == old(sink)@.len(),
            forall|k: int|
                0 <= k < 8 * sink@.len() ==> #[trigger] bit_at(sink@, sink_endianness, k) == (
                if pos <= k < pos + written {
                    bit_at(source@, source_endianness, start + (k - pos))
                } else {
                    bit_at(old(sink)@, sink_endianness, k)
                }),
        decreases left,
    {
        proof {
            lemma_next_chunk_bits(source@, source_endianness, from as int, left as int);
        }
        let ghost before = sink@;
        let n: usize = write_chunk(chunk, sink, at, sink_endianness);
        proof {
            assert forall|k: int| 0 <= k < 8 * sink@.len() implies #[trigger] bit_at(
                sink@,
                sink_endianness,
                k,
            ) == (if pos <= k < pos + written + n {
                bit_at(source@, source_endianness, start + (k - pos))
            } else {
                bit_at(old(sink)@, sink_endianness, k)
            }) by {
                assert(bit_at(before, sink_endianness, k) == (if pos <= k < pos + written {
                    bit_at(source@, source_endianness, start + (k - pos))
                } else {
                    bit_at(old(sink)@, sink_endianness, k)
                }));
                if at <= k < at + n {
                    let j = (k - at) as u8;
                    assert(bit_of(chunk.byte, j) == (j < chunk.bits && bit_at(
                        source@,
                        source_endianness,
                        from + j,
                    )));
                }
            }
        }
        written = written + n;
        from = from + chunk.bits();
        at = at + chunk.bits();
        left = left - chunk.bits();
        chunk = next_chunk(source, from, left, source_endianness);
    }
    Ok(written)
}

} // verus!
