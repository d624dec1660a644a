//! The fixed-width integers as sources and as sinks: each stands for the
//! row of its bits, bit 0 being the least significant one.

use vstd::prelude::*;
use crate::bits::{Endianness, bit_at, bit_of};
use crate::chunk::write_bits;
use crate::error::{Error, is_input_error, is_output_error};
use crate::sink::{BitSink, BitSource, check_input_range, check_output_range};

verus! {

/// Bit `k` of a 128-bit word, bit 0 being the least significant one; false
/// beyond the word.
pub open spec fn word_bit(x: u128, k: int) -> bool {
    0 <= k < 128 && (x >> (k as u128)) & 1 == 1
}

proof fn lemma_word_byte(x: u128, i: u128, j: u8, k: u128)
    by (bit_vector)
    requires
        i < 16,
        j < 8,
        k == 8 * i + j,
    ensures
        bit_of(((x >> (8 * i)) & 0xff) as u8, j) == ((x >> k) & 1 == 1),
{
}

proof fn lemma_word_or(x: u128, byte: u8, i: u128, k: u128, j: u8)
    by (bit_vector)
    requires
        i < 16,
        k < 128,
        j == k % 8,
    ensures
        ((x | ((byte as u128) << (8 * i))) >> k) & 1 == 1 <==> ((x >> k) & 1 == 1) || (8 * i <= k
            && k < 8 * i + 8 && bit_of(byte, j)),
{
}

proof fn lemma_shift_top(a: u128, b: u128)
    by (bit_vector)
    requires
        ((a >> 127) & 1 == 1) == ((b >> 127) & 1 == 1),
    ensures
        a >> 127 == b >> 127,
{
}

proof fn lemma_shift_step(a: u128, b: u128, k: u128)
    by (bit_vector)
    requires
        k < 127,
        a >> (k + 1) == b >> (k + 1),
        ((a >> k) & 1 == 1) == ((b >> k) & 1 == 1),
    ensures
        a >> k == b >> k,
{
}

proof fn lemma_shifts_equal(a: u128, b: u128, k: int)
    requires
        0 <= k <= 127,
        forall|j: int| 0 <= j < 128 ==> word_bit(a, j) == word_bit(b, j),
    ensures
        a >> (k as u128) == b >> (k as u128),
    decreases 127 - k,
{
    assert(word_bit(a, k) == word_bit(b, k));
    if k == 127 {
        lemma_shift_top(a, b);
    } else {
        lemma_shifts_equal(a, b, k + 1);
        lemma_shift_step(a, b, k as u128);
    }
}

/// Two words with the same bits are the same word.
pub proof fn lemma_word_extensional(a: u128, b: u128)
    requires
        forall|j: int| 0 <= j < 128 ==> word_bit(a, j) == word_bit(b, j),
    ensures
        a == b,
{
    lemma_shifts_equal(a, b, 0);
    assert(a >> 0 == a && b >> 0 == b) by (bit_vector);
}

proof fn lemma_high_bits_clear(x: u128, w: u128, k: u128)
    by (bit_vector)
    requires
        w < 128,
        x < (1u128 << w),
        w <= k,
        k < 128,
    ensures
        (x >> k) & 1 == 0,
{
}

/// Two words below `2^w` with the same `w` low bits are the same word.
pub proof fn lemma_low_bits_determine(a: u128, b: u128, w: int)
    requires
        0 < w < 128,
        a < (1u128 << (w as u128)),
        b < (1u128 << (w as u128)),
        forall|j: int| 0 <= j < w ==> word_bit(a, j) == word_bit(b, j),
    ensures
        a == b,
{
    assert forall|j: int| 0 <= j < 128 implies word_bit(a, j) == word_bit(b, j) by {
        if j >= w {
            lemma_high_bits_clear(a, w as u128, j as u128);
            lemma_high_bits_clear(b, w as u128, j as u128);
        }
    }
    lemma_word_extensional(a, b);
}

/// The `n` low bytes of `x`, the least significant one first.
pub fn word_to_bytes(x: u128, n: usize) -> (v: Vec<u8>)
    requires
        n <= 16,
    ensures
        v@.len() == n,
        forall|k: int|
            0 <= k < 8 * n ==> #[trigger] bit_at(v@, Endianness::LITTLE, k) == word_bit(x, k),
{
    let mut v: Vec<u8> = Vec::new();
    let mut i: usize = 0;
    while i < n
        invariant
            i <= n <= 16,
            v@.len() == i,
            forall|m: int|
                0 <= m < i ==> #[trigger] v@[m] == ((x >> ((8 * m) as u128)) & 0xff) as u8,
        decreases n - i,
    {
        let shift: u128 = (8 * i) as u128;
        let b: u8 = #[verifier::truncate]
        (((x >> shift) & 0xff) as u8);
        v.push(b);
        i = i + 1;
    }
    proof {
        assert forall|k: int| 0 <= k < 8 * n implies #[trigger] bit_at(v@, Endianness::LITTLE, k)
            == word_bit(x, k) by {
            lemma_word_byte(x, (k / 8) as u128, (k % 8) as u8, k as u128);
        }
    }
    v
}

/// The word whose low bytes are `bytes`, the least significant one first.
pub fn word_from_bytes(bytes: &[u8]) -> (x: u128)
    requires
        bytes@.len() <= 16,
    ensures
        forall|k: int|
            0 <= k < 128 ==> #[trigger] word_bit(x, k) == (k < 8 * bytes@.len() && bit_at(
                bytes@,
                Endianness::LITTLE,
                k,
            )),
{
    let mut x: u128 = 0;
    let mut i: usize = 0;
    proof {
        assert forall|k: int| 0 <= k < 128 implies !#[trigger] word_bit(0u128, k) by {
            let s = k as u128;
            assert((0u128 >> s) & 1 == 0) by (bit_vector);
        }
    }
    while i < bytes.len()
        invariant
            i <= bytes@.len() <= 16,
            forall|k: int|
                0 <= k < 128 ==> #[trigger] word_bit(x, k) == (k < 8 * i && bit_at(
                    bytes@,
                    Endianness::LITTLE,
                    k,
                )),
        decreases bytes@.len() - i,
    {
        let shift: u128 = (8 * i) as u128;
        let ghost before = x;
        x = x | ((bytes[i] as u128) << shift);
        proof {
            assert forall|k: int| 0 <= k < 128 implies #[trigger] word_bit(x, k) == (k < 8 * (i
                + 1) && bit_at(bytes@, Endianness::LITTLE, k)) by {
                lemma_word_or(before, bytes@[i as int], i as u128, k as u128, (k % 8) as u8);
                assert(word_bit(before, k) == (k < 8 * i && bit_at(
                    bytes@,
                    Endianness::LITTLE,
                    k,
                )));
            }
        }
        i = i + 1;
    }
    x
}

proof fn lemma_low_bits_u8(w: u128, k: u128)
    by (bit_vector)
    requires
        k < 8,
    ensures
        (((w as u8) as u128) >> k) & 1 == (w >> k) & 1,
{
}

/// A `u8` that holds, bit for bit, what another one holds is the same
/// value: what was written in full is read back unchanged.
pub proof fn round_trip_u8(value: u8, sink: u8)
    requires
        forall|k: int| 0 <= k < 8 ==> #[trigger] sink.sink_bit(k) == value.source_bit(k),
    ensures
        sink == value,
{
    let a: u128 = sink as u128;
    let b: u128 = value as u128;
    assert forall|j: int| 0 <= j < 8 implies word_bit(a, j) == word_bit(b, j) by {
        assert(sink.sink_bit(j) == value.source_bit(j));
    }
    assert((1u128 << 8u128) == 0x100u128) by (bit_vector);
    lemma_low_bits_determine(a, b, 8);
}

impl BitSource for u8 {
    open spec fn bit_count(&self) -> nat {
        8
    }

    open spec fn source_bit(&self, k: int) -> bool {
        0 <= k < 8 && word_bit(*self as u128, k)
    }

    open spec fn readable(&self, start: int, len: int) -> bool {
        start + len <= 8
    }

    fn write<S: BitSink>(&self, sink: &mut S, start: usize, len: usize, pos: usize) -> (r: Result<
        usize,
        Error,
    >)
        ensures
            r is Err ==> forall|k: int| #[trigger]
                final(sink).sink_bit(k) == old(sink).sink_bit(k),
            len > 0 && start + len > 8 ==> is_input_error(
                r->Err_0,
                "u8"@,
                start as int,
                start + len - 1,
                0,
                7,
            ),
            len > 0 && start + len <= 8 && r is Err ==> is_output_error(
                r->Err_0,
                old(sink).sink_label(),
                len as int,
                pos as int,
                old(sink).capacity()->0 as int,
            ),
    {
        if len == 0 {
            return Ok(0);
        }
        match check_input_range("u8", start, len, 0, 7) {
            Err(e) => Err(e),
            Ok(_) => {
                let word: u128 = *self as u128;
                let bytes = word_to_bytes(word, 1);
                sink.write(bytes.as_slice(), start, len, pos, Endianness::LITTLE)
            },
        }
    }

    fn size(&self) -> (r: usize)
    {
        8
    }
}

impl BitSink for u8 {
    open spec fn capacity(&self) -> Option<nat> {
        Some(8nat)
    }

    open spec fn sink_bit(&self, k: int) -> bool {
        0 <= k < 8 && word_bit(*self as u128, k)
    }

    open spec fn sink_label(&self) -> Seq<char> {
        "u8"@
    }

    fn write(
        &mut self,
        bytes: &[u8],
        start: usize,
        len: usize,
        pos: usize,
        endianness: Endianness,
    ) -> (r: Result<usize, Error>)
        ensures
            r is Err ==> *final(self) == *old(self),
    {
        if len == 0 {
            return Ok(0);
        }
        match check_output_range("u8", pos, len, Some(8)) {
            Err(e) => Err(e),
            Ok(_) => {
                let word: u128 = *self as u128;
                let mut buffer = word_to_bytes(word, 1);
                let r = write_bits(
                    bytes,
                    start,
                    len,
                    pos,
                    buffer.as_mut_slice(),
                    endianness,
                    Endianness::LITTLE,
                );
                let w: u128 = word_from_bytes(buffer.as_slice());
                proof {
                    assert forall|k: int| 0 <= k < 8 implies #[trigger] word_bit(
                        (w as u8) as u128,
                        k,
                    ) == word_bit(w, k) by {
                        lemma_low_bits_u8(w, k as u128);
                    }
                }
                *self = #[verifier::truncate]
                (w as u8);
                r
            },
        }
    }

    fn size(&self) -> (r: Option<usize>)
    {
        Some(8)
    }
}

proof fn lemma_low_bits_u16(w: u128, k: u128)
    by (bit_vector)
    requires
        k < 16,
    ensures
        (((w as u16) as u128) >> k) & 1 == (w >> k) & 1,
{
}

/// A `u16` that holds, bit for bit, what another one holds is the same
/// value: what was written in full is read back unchanged.
pub proof fn round_trip_u16(value: u16, sink: u16)
    requires
        forall|k: int| 0 <= k < 16 ==> #[trigger] sink.sink_bit(k) == value.source_bit(k),
    ensures
        sink == value,
{
    let a: u128 = sink as u128;
    let b: u128 = value as u128;
    assert forall|j: int| 0 <= j < 16 implies word_bit(a, j) == word_bit(b, j) by {
        assert(sink.sink_bit(j) == value.source_bit(j));
    }
    assert((1u128 << 16u128) == 0x10000u128) by (bit_vector);
    lemma_low_bits_determine(a, b, 16);
}

impl BitSource for u16 {
    open spec fn bit_count(&self) -> nat {
        16
    }

    open spec fn source_bit(&self, k: int) -> bool {
        0 <= k < 16 && word_bit(*self as u128, k)
    }

    open spec fn readable(&self, start: int, len: int) -> bool {
        start + len <= 16
    }

    fn write<S: BitSink>(&self, sink: &mut S, start: usize, len: usize, pos: usize) -> (r: Result<
        usize,
        Error,
    >)
        ensures
            r is Err ==> forall|k: int| #[trigger]
                final(sink).sink_bit(k) == old(sink).sink_bit(k),
            len > 0 && start + len > 16 ==> is_input_error(
                r->Err_0,
                "u16"@,
                start as int,
                start + len - 1,
                0,
                15,
            ),
            len > 0 && start + len <= 16 && r is Err ==> is_output_error(
                r->Err_0,
                old(sink).sink_label(),
                len as int,
                pos as int,
                old(sink).capacity()->0 as int,
            ),
    {
        if len == 0 {
            return Ok(0);
        }
        match check_input_range("u16", start, len, 0, 15) {
            Err(e) => Err(e),
            Ok(_) => {
                let word: u128 = *self as u128;
                let bytes = word_to_bytes(word, 2);
                sink.write(bytes.as_slice(), start, len, pos, Endianness::LITTLE)
            },
        }
    }

    fn size(&self) -> (r: usize)
    {
        16
    }
}

impl BitSink for u16 {
    open spec fn capacity(&self) -> Option<nat> {
        Some(16nat)
    }

    open spec fn sink_bit(&self, k: int) -> bool {
        0 <= k < 16 && word_bit(*self as u128, k)
    }

    open spec fn sink_label(&self) -> Seq<char> {
        "u16"@
    }

    fn write(
        &mut self,
        bytes: &[u8],
        start: usize,
        len: usize,
        pos: usize,
        endianness: Endianness,
    ) -> (r: Result<usize, Error>)
        ensures
            r is Err ==> *final(self) == *old(self),
    {
        if len == 0 {
            return Ok(0);
        }
        match check_output_range("u16", pos, len, Some(16)) {
            Err(e) => Err(e),
            Ok(_) => {
                let word: u128 = *self as u128;
                let mut buffer = word_to_bytes(word, 2);
                let r = write_bits(
                    bytes,
                    start,
                    len,
                    pos,
                    buffer.as_mut_slice(),
                    endianness,
                    Endianness::LITTLE,
                );
                let w: u128 = word_from_bytes(buffer.as_slice());
                proof {
                    assert forall|k: int| 0 <= k < 16 implies #[trigger] word_bit(
                        (w as u16) as u128,
                        k,
                    ) == word_bit(w, k) by {
                        lemma_low_bits_u16(w, k as u128);
                    }
                }
                *self = #[verifier::truncate]
                (w as u16);
                r
            },
        }
    }

    fn size(&self) -> (r: Option<usize>)
    {
        Some(16)
    }
}

proof fn lemma_low_bits_u32(w: u128, k: u128)
    by (bit_vector)
    requires
        k < 32,
    ensures
        (((w as u32) as u128) >> k) & 1 == (w >> k) & 1,
{
}

/// A `u32` that holds, bit for bit, what another one holds is the same
/// value: what was written in full is read back unchanged.
pub proof fn round_trip_u32(value: u32, sink: u32)
    requires
        forall|k: int| 0 <= k < 32 ==> #[trigger] sink.sink_bit(k) == value.source_bit(k),
    ensures
        sink == value,
{
    let a: u128 = sink as u128;
    let b: u128 = value as u128;
    assert forall|j: int| 0 <= j < 32 implies word_bit(a, j) == word_bit(b, j) by {
        assert(sink.sink_bit(j) == value.source_bit(j));
    }
    assert((1u128 << 32u128) == 0x100000000u128) by (bit_vector);
    lemma_low_bits_determine(a, b, 32);
}

impl BitSource for u32 {
    open spec fn bit_count(&self) -> nat {
        32
    }

    open spec fn source_bit(&self, k: int) -> bool {
        0 <= k < 32 && word_bit(*self as u128, k)
    }

    open spec fn readable(&self, start: int, len: int) -> bool {
        start + len <= 32
    }

    fn write<S: BitSink>(&self, sink: &mut S, start: usize, len: usize, pos: usize) -> (r: Result<
        usize,
        Error,
    >)
        ensures
            r is Err ==> forall|k: int| #[trigger]
                final(sink).sink_bit(k) == old(sink).sink_bit(k),
            len > 0 && start + len > 32 ==> is_input_error(
                r->Err_0,
                "u32"@,
                start as int,
                start + len - 1,
                0,
                31,
            ),
            len > 0 && start + len <= 32 && r is Err ==> is_output_error(
                r->Err_0,
                old(sink).sink_label(),
                len as int,
                pos as int,
                old(sink).capacity()->0 as int,
            ),
    {
        if len == 0 {
            return Ok(0);
        }
        match check_input_range("u32", start, len, 0, 31) {
            Err(e) => Err(e),
            Ok(_) => {
                let word: u128 = *self as u128;
                let bytes = word_to_bytes(word, 4);
                sink.write(bytes.as_slice(), start, len, pos, Endianness::LITTLE)
            },
        }
    }

    fn size(&self) -> (r: usize)
    {
        32
    }
}

impl BitSink for u32 {
    open spec fn capacity(&self) -> Option<nat> {
        Some(32nat)
    }

    open spec fn sink_bit(&self, k: int) -> bool {
        0 <= k < 32 && word_bit(*self as u128, k)
    }

    open spec fn sink_label(&self) -> Seq<char> {
        "u32"@
    }

    fn write(
        &mut self,
        bytes: &[u8],
        start: usize,
        len: usize,
        pos: usize,
        endianness: Endianness,
    ) -> (r: Result<usize, Error>)
        ensures
            r is Err ==> *final(self) == *old(self),
    {
        if len == 0 {
            return Ok(0);
        }
        match check_output_range("u32", pos, len, Some(32)) {
            Err(e) => Err(e),
            Ok(_) => {
                let word: u128 = *self as u128;
                let mut buffer = word_to_bytes(word, 4);
                let r = write_bits(
                    bytes,
                    start,
                    len,
                    pos,
                    buffer.as_mut_slice(),
                    endianness,
                    Endianness::LITTLE,
                );
                let w: u128 = word_from_bytes(buffer.as_slice());
                proof {
                    assert forall|k: int| 0 <= k < 32 implies #[trigger] word_bit(
                        (w as u32) as u128,
                        k,
                    ) == word_bit(w, k) by {
                        lemma_low_bits_u32(w, k as u128);
                    }
                }
                *self = #[verifier::truncate]
                (w as u32);
                r
            },
        }
    }

    fn size(&self) -> (r: Option<usize>)
    {
        Some(32)
    }
}

proof fn lemma_low_bits_u64(w: u128, k: u128)
    by (bit_vector)
    requires
        k < 64,
    ensures
        (((w as u64) as u128) >> k) & 1 == (w >> k) & 1,
{
}

/// A `u64` that holds, bit for bit, what another one holds is the same
/// value: what was written in full is read back unchanged.
pub proof fn round_trip_u64(value: u64, sink: u64)
    requires
        forall|k: int| 0 <= k < 64 ==> #[trigger] sink.sink_bit(k) == value.source_bit(k),
    ensures
        sink == value,
{
    let a: u128 = sink as u128;
    let b: u128 = value as u128;
    assert forall|j: int| 0 <= j < 64 implies word_bit(a, j) == word_bit(b, j) by {
        assert(sink.sink_bit(j) == value.source_bit(j));
    }
    assert((1u128 << 64u128) == 0x10000000000000000u128) by (bit_vector);
    lemma_low_bits_determine(a, b, 64);
}

impl BitSource for u64 {
    open spec fn bit_count(&self) -> nat {
        64
    }

    open spec fn source_bit(&self, k: int) -> bool {
        0 <= k < 64 && word_bit(*self as u128, k)
    }

    open spec fn readable(&self, start: int, len: int) -> bool {
        start + len <= 64
    }

    fn write<S: BitSink>(&self, sink: &mut S, start: usize, len: usize, pos: usize) -> (r: Result<
        usize,
        Error,
    >)
        ensures
            r is Err ==> forall|k: int| #[trigger]
                final(sink).sink_bit(k) == old(sink).sink_bit(k),
            len > 0 && start + len > 64 ==> is_input_error(
                r->Err_0,
                "u64"@,
                start as int,
                start + len - 1,
                0,
                63,
            ),
            len > 0 && start + len <= 64 && r is Err ==> is_output_error(
                r->Err_0,
                old(sink).sink_label(),
                len as int,
                pos as int,
                old(sink).capacity()->0 as int,
            ),
    {
        if len == 0 {
            return Ok(0);
        }
        match check_input_range("u64", start, len, 0, 63) {
            Err(e) => Err(e),
            Ok(_) => {
                let word: u128 = *self as u128;
                let bytes = word_to_bytes(word, 8);
                sink.write(bytes.as_slice(), start, len, pos, Endianness::LITTLE)
            },
        }
    }

    fn size(&self) -> (r: usize)
    {
        64
    }
}

impl BitSink for u64 {
    open spec fn capacity(&self) -> Option<nat> {
        Some(64nat)
    }

    open spec fn sink_bit(&self, k: int) -> bool {
        0 <= k < 64 && word_bit(*self as u128, k)
    }

    open spec fn sink_label(&self) -> Seq<char> {
        "u64"@
    }

    fn write(
        &mut self,
        bytes: &[u8],
        start: usize,
        len: usize,
        pos: usize,
        endianness: Endianness,
    ) -> (r: Result<usize, Error>)
        ensures
            r is Err ==> *final(self) == *old(self),
    {
        if len == 0 {
            return Ok(0);
        }
        match check_output_range("u64", pos, len, Some(64)) {
            Err(e) => Err(e),
            Ok(_) => {
                let word: u128 = *self as u128;
                let mut buffer = word_to_bytes(word, 8);
                let r = write_bits(
                    bytes,
                    start,
                    len,
                    pos,
                    buffer.as_mut_slice(),
                    endianness,
                    Endianness::LITTLE,
                );
                let w: u128 = word_from_bytes(buffer.as_slice());
                proof {
                    assert forall|k: int| 0 <= k < 64 implies #[trigger] word_bit(
                        (w as u64) as u128,
                        k,
                    ) == word_bit(w, k) by {
                        lemma_low_bits_u64(w, k as u128);
                    }
                }
                *self = #[verifier::truncate]
                (w as u64);
                r
            },
        }
    }

    fn size(&self) -> (r: Option<usize>)
    {
        Some(64)
    }
}

/// A `u128` that holds, bit for bit, what another one holds is the same
/// value: what was written in full is read back unchanged.
pub proof fn round_trip_u128(value: u128, sink: u128)
    requires
        forall|k: int| 0 <= k < 128 ==> #[trigger] sink.sink_bit(k) == value.source_bit(k),
    ensures
        sink == value,
{
    assert forall|j: int| 0 <= j < 128 implies word_bit(sink, j) == word_bit(value, j) by {
        assert(sink.sink_bit(j) == value.source_bit(j));
    }
    lemma_word_extensional(sink, value);
}

impl BitSource for u128 {
    open spec fn bit_count(&self) -> nat {
        128
    }

    open spec fn source_bit(&self, k: int) -> bool {
        0 <= k < 128 && word_bit(*self, k)
    }

    open spec fn readable(&self, start: int, len: int) -> bool {
        start + len <= 128
    }

    fn write<S: BitSink>(&self, sink: &mut S, start: usize, len: usize, pos: usize) -> (r: Result<
        usize,
        Error,
    >)
        ensures
            r is Err ==> forall|k: int| #[trigger]
                final(sink).sink_bit(k) == old(sink).sink_bit(k),
            len > 0 && start + len > 128 ==> is_input_error(
                r->Err_0,
                "u128"@,
                start as int,
                start + len - 1,
                0,
                127,
            ),
            len > 0 && start + len <= 128 && r is Err ==> is_output_error(
                r->Err_0,
                old(sink).sink_label(),
                len as int,
                pos as int,
                old(sink).capacity()->0 as int,
            ),
    {
        if len == 0 {
            return Ok(0);
        }
        match check_input_range("u128", start, len, 0, 127) {
            Err(e) => Err(e),
            Ok(_) => {
                let word: u128 = *self;
                let bytes = word_to_bytes(word, 16);
                sink.write(bytes.as_slice(), start, len, pos, Endianness::LITTLE)
            },
        }
    }

    fn size(&self) -> (r: usize)
    {
        128
    }
}

impl BitSink for u128 {
    open spec fn capacity(&self) -> Option<nat> {
        Some(128nat)
    }

    open spec fn sink_bit(&self, k: int) -> bool {
        0 <= k < 128 && word_bit(*self, k)
    }

    open spec fn sink_label(&self) -> Seq<char> {
        "u128"@
    }

    fn write(
        &mut self,
        bytes: &[u8],
        start: usize,
        len: usize,
        pos: usize,
        endianness: Endianness,
    ) -> (r: Result<usize, Error>)
        ensures
            r is Err ==> *final(self) == *old(self),
    {
        if len == 0 {
            return Ok(0);
        }
        match check_output_range("u128", pos, len, Some(128)) {
            Err(e) => Err(e),
            Ok(_) => {
                let word: u128 = *self;
                let mut buffer = word_to_bytes(word, 16);
                let r = write_bits(
                    bytes,
                    start,
                    len,
                    pos,
                    buffer.as_mut_slice(),
                    endianness,
                    Endianness::LITTLE,
                );
                let w: u128 = word_from_bytes(buffer.as_slice());
                *self = w;
                r
            },
        }
    }

    fn size(&self) -> (r: Option<usize>)
    {
        Some(128)
    }
}

proof fn lemma_low_bits_i8(w: u128, k: u128)
    by (bit_vector)
    requires
        k < 8,
    ensures
        ((((w as i8) as u8) as u128) >> k) & 1 == (w >> k) & 1,
{
}

proof fn lemma_same_bits_i8(a: i8, b: i8)
    by (bit_vector)
    requires
        a as u8 == b as u8,
    ensures
        a == b,
{
}

/// A `i8` that holds, bit for bit, what another one holds is the same
/// value: what was written in full is read back unchanged.
pub proof fn round_trip_i8(value: i8, sink: i8)
    requires
        forall|k: int| 0 <= k < 8 ==> #[trigger] sink.sink_bit(k) == value.source_bit(k),
    ensures
        sink == value,
{
    let a: u128 = (sink as u8) as u128;
    let b: u128 = (value as u8) as u128;
    assert forall|j: int| 0 <= j < 8 implies word_bit(a, j) == word_bit(b, j) by {
        assert(sink.sink_bit(j) == value.source_bit(j));
    }
    assert((1u128 << 8u128) == 0x100u128) by (bit_vector);
    lemma_low_bits_determine(a, b, 8);
    lemma_same_bits_i8(sink, value);
}

impl BitSource for i8 {
    open spec fn bit_count(&self) -> nat {
        8
    }

    open spec fn source_bit(&self, k: int) -> bool {
        0 <= k < 8 && word_bit((*self as u8) as u128, k)
    }

    open spec fn readable(&self, start: int, len: int) -> bool {
        start + len <= 8
    }

    fn write<S: BitSink>(&self, sink: &mut S, start: usize, len: usize, pos: usize) -> (r: Result<
        usize,
        Error,
    >)
        ensures
            r is Err ==> forall|k: int| #[trigger]
                final(sink).sink_bit(k) == old(sink).sink_bit(k),
            len > 0 && start + len > 8 ==> is_input_error(
                r->Err_0,
                "i8"@,
                start as int,
                start + len - 1,
                0,
                7,
            ),
            len > 0 && start + len <= 8 && r is Err ==> is_output_error(
                r->Err_0,
                old(sink).sink_label(),
                len as int,
                pos as int,
                old(sink).capacity()->0 as int,
            ),
    {
        if len == 0 {
            return Ok(0);
        }
        match check_input_range("i8", start, len, 0, 7) {
            Err(e) => Err(e),
            Ok(_) => {
                let word: u128 = (#[verifier::truncate]
                (*self as u8)) as u128;
                let bytes = word_to_bytes(word, 1);
                sink.write(bytes.as_slice(), start, len, pos, Endianness::LITTLE)
            },
        }
    }

    fn size(&self) -> (r: usize)
    {
        8
    }
}

impl BitSink for i8 {
    open spec fn capacity(&self) -> Option<nat> {
        Some(8nat)
    }

    open spec fn sink_bit(&self, k: int) -> bool {
        0 <= k < 8 && word_bit((*self as u8) as u128, k)
    }

    open spec fn sink_label(&self) -> Seq<char> {
        "i8"@
    }

    fn write(
        &mut self,
        bytes: &[u8],
        start: usize,
        len: usize,
        pos: usize,
        endianness: Endianness,
    ) -> (r: Result<usize, Error>)
        ensures
            r is Err ==> *final(self) == *old(self),
    {
        if len == 0 {
            return Ok(0);
        }
        match check_output_range("i8", pos, len, Some(8)) {
            Err(e) => Err(e),
            Ok(_) => {
                let word: u128 = (#[verifier::truncate]
                (*self as u8)) as u128;
                let mut buffer = word_to_bytes(word, 1);
                let r = write_bits(
                    bytes,
                    start,
                    len,
                    pos,
                    buffer.as_mut_slice(),
                    endianness,
                    Endianness::LITTLE,
                );
                let w: u128 = word_from_bytes(buffer.as_slice());
                proof {
                    assert forall|k: int| 0 <= k < 8 implies #[trigger] word_bit(
                        ((w as i8) as u8) as u128,
                        k,
                    ) == word_bit(w, k) by {
                        lemma_low_bits_i8(w, k as u128);
                    }
                }
                *self = #[verifier::truncate]
                (w as i8);
                r
            },
        }
    }

    fn size(&self) -> (r: Option<usize>)
    {
        Some(8)
    }
}

proof fn lemma_low_bits_i16(w: u128, k: u128)
    by (bit_vector)
    requires
        k < 16,
    ensures
        ((((w as i16) as u16) as u128) >> k) & 1 == (w >> k) & 1,
{
}

proof fn lemma_same_bits_i16(a: i16, b: i16)
    by (bit_vector)
    requires
        a as u16 == b as u16,
    ensures
        a == b,
{
}

/// A `i16` that holds, bit for bit, what another one holds is the same
/// value: what was written in full is read back unchanged.
pub proof fn round_trip_i16(value: i16, sink: i16)
    requires
        forall|k: int| 0 <= k < 16 ==> #[trigger] sink.sink_bit(k) == value.source_bit(k),
    ensures
        sink == value,
{
    let a: u128 = (sink as u16) as u128;
    let b: u128 = (value as u16) as u128;
    assert forall|j: int| 0 <= j < 16 implies word_bit(a, j) == word_bit(b, j) by {
        assert(sink.sink_bit(j) == value.source_bit(j));
    }
    assert((1u128 << 16u128) == 0x10000u128) by (bit_vector);
    lemma_low_bits_determine(a, b, 16);
    lemma_same_bits_i16(sink, value);
}

impl BitSource for i16 {
    open spec fn bit_count(&self) -> nat {
        16
    }

    open spec fn source_bit(&self, k: int) -> bool {
        0 <= k < 16 && word_bit((*self as u16) as u128, k)
    }

    open spec fn readable(&self, start: int, len: int) -> bool {
        start + len <= 16
    }

    fn write<S: BitSink>(&self, sink: &mut S, start: usize, len: usize, pos: usize) -> (r: Result<
        usize,
        Error,
    >)
        ensures
            r is Err ==> forall|k: int| #[trigger]
                final(sink).sink_bit(k) == old(sink).sink_bit(k),
            len > 0 && start + len > 16 ==> is_input_error(
                r->Err_0,
                "i16"@,
                start as int,
                start + len - 1,
                0,
                15,
            ),
            len > 0 && start + len <= 16 && r is Err ==> is_output_error(
                r->Err_0,
                old(sink).sink_label(),
                len as int,
                pos as int,
                old(sink).capacity()->0 as int,
            ),
    {
        if len == 0 {
            return Ok(0);
        }
        match check_input_range("i16", start, len, 0, 15) {
            Err(e) => Err(e),
            Ok(_) => {
                let word: u128 = (#[verifier::truncate]
                (*self as u16)) as u128;
                let bytes = word_to_bytes(word, 2);
                sink.write(bytes.as_slice(), start, len, pos, Endianness::LITTLE)
            },
        }
    }

    fn size(&self) -> (r: usize)
    {
        16
    }
}

impl BitSink for i16 {
    open spec fn capacity(&self) -> Option<nat> {
        Some(16nat)
    }

    open spec fn sink_bit(&self, k: int) -> bool {
        0 <= k < 16 && word_bit((*self as u16) as u128, k)
    }

    open spec fn sink_label(&self) -> Seq<char> {
        "i16"@
    }

    fn write(
        &mut self,
        bytes: &[u8],
        start: usize,
        len: usize,
        pos: usize,
        endianness: Endianness,
    ) -> (r: Result<usize, Error>)
        ensures
            r is Err ==> *final(self) == *old(self),
    {
        if len == 0 {
            return Ok(0);
        }
        match check_output_range("i16", pos, len, Some(16)) {
            Err(e) => Err(e),
            Ok(_) => {
                let word: u128 = (#[verifier::truncate]
                (*self as u16)) as u128;
                let mut buffer = word_to_bytes(word, 2);
                let r = write_bits(
                    bytes,
                    start,
                    len,
                    pos,
                    buffer.as_mut_slice(),
                    endianness,
                    Endianness::LITTLE,
                );
                let w: u128 = word_from_bytes(buffer.as_slice());
                proof {
                    assert forall|k: int| 0 <= k < 16 implies #[trigger] word_bit(
                        ((w as i16) as u16) as u128,
                        k,
                    ) == word_bit(w, k) by {
                        lemma_low_bits_i16(w, k as u128);
                    }
                }
                *self = #[verifier::truncate]
                (w as i16);
                r
            },
        }
    }

    fn size(&self) -> (r: Option<usize>)
    {
        Some(16)
    }
}

proof fn lemma_low_bits_i32(w: u128, k: u128)
    by (bit_vector)
    requires
        k < 32,
    ensures
        ((((w as i32) as u32) as u128) >> k) & 1 == (w >> k) & 1,
{
}

proof fn lemma_same_bits_i32(a: i32, b: i32)
    by (bit_vector)
    requires
        a as u32 == b as u32,
    ensures
        a == b,
{
}

/// A `i32` that holds, bit for bit, what another one holds is the same
/// value: what was written in full is read back unchanged.
pub proof fn round_trip_i32(value: i32, sink: i32)
    requires
        forall|k: int| 0 <= k < 32 ==> #[trigger] sink.sink_bit(k) == value.source_bit(k),
    ensures
        sink == value,
{
    let a: u128 = (sink as u32) as u128;
    let b: u128 = (value as u32) as u128;
    assert forall|j: int| 0 <= j < 32 implies word_bit(a, j) == word_bit(b, j) by {
        assert(sink.sink_bit(j) == value.source_bit(j));
    }
    assert((1u128 << 32u128) == 0x100000000u128) by (bit_vector);
    lemma_low_bits_determine(a, b, 32);
    lemma_same_bits_i32(sink, value);
}

impl BitSource for i32 {
    open spec fn bit_count(&self) -> nat {
        32
    }

    open spec fn source_bit(&self, k: int) -> bool {
        0 <= k < 32 && word_bit((*self as u32) as u128, k)
    }

    open spec fn readable(&self, start: int, len: int) -> bool {
        start + len <= 32
    }

    fn write<S: BitSink>(&self, sink: &mut S, start: usize, len: usize, pos: usize) -> (r: Result<
        usize,
        Error,
    >)
        ensures
            r is Err ==> forall|k: int| #[trigger]
                final(sink).sink_bit(k) == old(sink).sink_bit(k),
            len > 0 && start + len > 32 ==> is_input_error(
                r->Err_0,
                "i32"@,
                start as int,
                start + len - 1,
                0,
                31,
            ),
            len > 0 && start + len <= 32 && r is Err ==> is_output_error(
                r->Err_0,
                old(sink).sink_label(),
                len as int,
                pos as int,
                old(sink).capacity()->0 as int,
            ),
    {
        if len == 0 {
            return Ok(0);
        }
        match check_input_range("i32", start, len, 0, 31) {
            Err(e) => Err(e),
            Ok(_) => {
                let word: u128 = (#[verifier::truncate]
                (*self as u32)) as u128;
                let bytes = word_to_bytes(word, 4);
                sink.write(bytes.as_slice(), start, len, pos, Endianness::LITTLE)
            },
        }
    }

    fn size(&self) -> (r: usize)
    {
        32
    }
}

impl BitSink for i32 {
    open spec fn capacity(&self) -> Option<nat> {
        Some(32nat)
    }

    open spec fn sink_bit(&self, k: int) -> bool {
        0 <= k < 32 && word_bit((*self as u32) as u128, k)
    }

    open spec fn sink_label(&self) -> Seq<char> {
        "i32"@
    }

    fn write(
        &mut self,
        bytes: &[u8],
        start: usize,
        len: usize,
        pos: usize,
        endianness: Endianness,
    ) -> (r: Result<usize, Error>)
        ensures
            r is Err ==> *final(self) == *old(self),
    {
        if len == 0 {
            return Ok(0);
        }
        match check_output_range("i32", pos, len, Some(32)) {
            Err(e) => Err(e),
            Ok(_) => {
                let word: u128 = (#[verifier::truncate]
                (*self as u32)) as u128;
                let mut buffer = word_to_bytes(word, 4);
                let r = write_bits(
                    bytes,
                    start,
                    len,
                    pos,
                    buffer.as_mut_slice(),
                    endianness,
                    Endianness::LITTLE,
                );
                let w: u128 = word_from_bytes(buffer.as_slice());
                proof {
                    assert forall|k: int| 0 <= k < 32 implies #[trigger] word_bit(
                        ((w as i32) as u32) as u128,
                        k,
                    ) == word_bit(w, k) by {
                        lemma_low_bits_i32(w, k as u128);
                    }
                }
                *self = #[verifier::truncate]
                (w as i32);
                r
            },
        }
    }

    fn size(&self) -> (r: Option<usize>)
    {
        Some(32)
    }
}

proof fn lemma_low_bits_i64(w: u128, k: u128)
    by (bit_vector)
    requires
        k < 64,
    ensures
        ((((w as i64) as u64) as u128) >> k) & 1 == (w >> k) & 1,
{
}

proof fn lemma_same_bits_i64(a: i64, b: i64)
    by (bit_vector)
    requires
        a as u64 == b as u64,
    ensures
        a == b,
{
}

/// A `i64` that holds, bit for bit, what another one holds is the same
/// value: what was written in full is read back unchanged.
pub proof fn round_trip_i64(value: i64, sink: i64)
    requires
        forall|k: int| 0 <= k < 64 ==> #[trigger] sink.sink_bit(k) == value.source_bit(k),
    ensures
        sink == value,
{
    let a: u128 = (sink as u64) as u128;
    let b: u128 = (value as u64) as u128;
    assert forall|j: int| 0 <= j < 64 implies word_bit(a, j) == word_bit(b, j) by {
        assert(sink.sink_bit(j) == value.source_bit(j));
    }
    assert((1u128 << 64u128) == 0x10000000000000000u128) by (bit_vector);
    lemma_low_bits_determine(a, b, 64);
    lemma_same_bits_i64(sink, value);
}

impl BitSource for i64 {
    open spec fn bit_count(&self) -> nat {
        64
    }

    open spec fn source_bit(&self, k: int) -> bool {
        0 <= k < 64 && word_bit((*self as u64) as u128, k)
    }

    open spec fn readable(&self, start: int, len: int) -> bool {
        start + len <= 64
    }

    fn write<S: BitSink>(&self, sink: &mut S, start: usize, len: usize, pos: usize) -> (r: Result<
        usize,
        Error,
    >)
        ensures
            r is Err ==> forall|k: int| #[trigger]
                final(sink).sink_bit(k) == old(sink).sink_bit(k),
            len > 0 && start + len > 64 ==> is_input_error(
                r->Err_0,
                "i64"@,
                start as int,
                start + len - 1,
                0,
                63,
            ),
            len > 0 && start + len <= 64 && r is Err ==> is_output_error(
                r->Err_0,
                old(sink).sink_label(),
                len as int,
                pos as int,
                old(sink).capacity()->0 as int,
            ),
    {
        if len == 0 {
            return Ok(0);
        }
        match check_input_range("i64", start, len, 0, 63) {
            Err(e) => Err(e),
            Ok(_) => {
                let word: u128 = (#[verifier::truncate]
                (*self as u64)) as u128;
                let bytes = word_to_bytes(word, 8);
                sink.write(bytes.as_slice(), start, len, pos, Endianness::LITTLE)
            },
        }
    }

    fn size(&self) -> (r: usize)
    {
        64
    }
}

impl BitSink for i64 {
    open spec fn capacity(&self) -> Option<nat> {
        Some(64nat)
    }

    open spec fn sink_bit(&self, k: int) -> bool {
        0 <= k < 64 && word_bit((*self as u64) as u128, k)
    }

    open spec fn sink_label(&self) -> Seq<char> {
        "i64"@
    }

    fn write(
        &mut self,
        bytes: &[u8],
        start: usize,
        len: usize,
        pos: usize,
        endianness: Endianness,
    ) -> (r: Result<usize, Error>)
        ensures
            r is Err ==> *final(self) == *old(self),
    {
        if len == 0 {
            return Ok(0);
        }
        match check_output_range("i64", pos, len, Some(64)) {
            Err(e) => Err(e),
            Ok(_) => {
                let word: u128 = (#[verifier::truncate]
                (*self as u64)) as u128;
                let mut buffer = word_to_bytes(word, 8);
                let r = write_bits(
                    bytes,
                    start,
                    len,
                    pos,
                    buffer.as_mut_slice(),
                    endianness,
                    Endianness::LITTLE,
                );
                let w: u128 = word_from_bytes(buffer.as_slice());
                proof {
                    assert forall|k: int| 0 <= k < 64 implies #[trigger] word_bit(
                        ((w as i64) as u64) as u128,
                        k,
                    ) == word_bit(w, k) by {
                        lemma_low_bits_i64(w, k as u128);
                    }
                }
                *self = #[verifier::truncate]
                (w as i64);
                r
            },
        }
    }

    fn size(&self) -> (r: Option<usize>)
    {
        Some(64)
    }
}

proof fn lemma_low_bits_i128(w: u128, k: u128)
    by (bit_vector)
    requires
        k < 128,
    ensures
        ((((w as i128) as u128) as u128) >> k) & 1 == (w >> k) & 1,
{
}

proof fn lemma_same_bits_i128(a: i128, b: i128)
    by (bit_vector)
    requires
        a as u128 == b as u128,
    ensures
        a == b,
{
}

/// A `i128` that holds, bit for bit, what another one holds is the same
/// value: what was written in full is read back unchanged.
pub proof fn round_trip_i128(value: i128, sink: i128)
    requires
        forall|k: int| 0 <= k < 128 ==> #[trigger] sink.sink_bit(k) == value.source_bit(k),
    ensures
        sink == value,
{
    let a: u128 = (sink as u128) as u128;
    let b: u128 = (value as u128) as u128;
    assert forall|j: int| 0 <= j < 128 implies word_bit(a, j) == word_bit(b, j) by {
        assert(sink.sink_bit(j) == value.source_bit(j));
    }
    lemma_word_extensional(a, b);
    lemma_same_bits_i128(sink, value);
}

impl BitSource for i128 {
    open spec fn bit_count(&self) -> nat {
        128
    }

    open spec fn source_bit(&self, k: int) -> bool {
        0 <= k < 128 && word_bit((*self as u128) as u128, k)
    }

    open spec fn readable(&self, start: int, len: int) -> bool {
        start + len <= 128
    }

    fn write<S: BitSink>(&self, sink: &mut S, start: usize, len: usize, pos: usize) -> (r: Result<
        usize,
        Error,
    >)
        ensures
            r is Err ==> forall|k: int| #[trigger]
                final(sink).sink_bit(k) == old(sink).sink_bit(k),
            len > 0 && start + len > 128 ==> is_input_error(
                r->Err_0,
                "i128"@,
                start as int,
                start + len - 1,
                0,
                127,
            ),
            len > 0 && start + len <= 128 && r is Err ==> is_output_error(
                r->Err_0,
                old(sink).sink_label(),
                len as int,
                pos as int,
                old(sink).capacity()->0 as int,
            ),
    {
        if len == 0 {
            return Ok(0);
        }
        match check_input_range("i128", start, len, 0, 127) {
            Err(e) => Err(e),
            Ok(_) => {
                let word: u128 = (#[verifier::truncate]
                (*self as u128)) as u128;
                let bytes = word_to_bytes(word, 16);
                sink.write(bytes.as_slice(), start, len, pos, Endianness::LITTLE)
            },
        }
    }

    fn size(&self) -> (r: usize)
    {
        128
    }
}

impl BitSink for i128 {
    open spec fn capacity(&self) -> Option<nat> {
        Some(128nat)
    }

    open spec fn sink_bit(&self, k: int) -> bool {
        0 <= k < 128 && word_bit((*self as u128) as u128, k)
    }

    open spec fn sink_label(&self) -> Seq<char> {
        "i128"@
    }

    fn write(
        &mut self,
        bytes: &[u8],
        start: usize,
        len: usize,
        pos: usize,
        endianness: Endianness,
    ) -> (r: Result<usize, Error>)
        ensures
            r is Err ==> *final(self) == *old(self),
    {
        if len == 0 {
            return Ok(0);
        }
        match check_output_range("i128", pos, len, Some(128)) {
            Err(e) => Err(e),
            Ok(_) => {
                let word: u128 = (#[verifier::truncate]
                (*self as u128)) as u128;
                let mut buffer = word_to_bytes(word, 16);
                let r = write_bits(
                    bytes,
                    start,
                    len,
                    pos,
                    buffer.as_mut_slice(),
                    endianness,
                    Endianness::LITTLE,
                );
                let w: u128 = word_from_bytes(buffer.as_slice());
                proof {
                    assert forall|k: int| 0 <= k < 128 implies #[trigger] word_bit(
                        ((w as i128) as u128) as u128,
                        k,
                    ) == word_bit(w, k) by {
                        lemma_low_bits_i128(w, k as u128);
                    }
                }
                *self = #[verifier::truncate]
                (w as i128);
                r
            },
        }
    }

    fn size(&self) -> (r: Option<usize>)
    {
        Some(128)
    }
}

} // verus!
