use decree::{
    check_input_range, check_output_range, mask, next_chunk_be, next_chunk_le, write_bits,
    write_chunk, write_chunk_be_helper, write_chunk_le_helper, BigEndian, BitChunk, BitSink,
    BitSource, Endianness, Error, LittleEndian, Packed,
};

#[test]
fn mask_of_each_length() {
    let expected = [0u8, 1, 3, 7, 15, 31, 63, 127, 255];
    for len in 0..9usize {
        assert_eq!(mask(len), expected[len]);
    }
    assert_eq!(mask(9), 255);
    assert_eq!(mask(usize::MAX), 255);
}

#[test]
fn chunk_accessors() {
    let chunk = BitChunk { byte: 0b101, bits: 3 };
    assert_eq!(chunk.byte(), 0b101);
    assert_eq!(chunk.bits(), 3);
    assert!(!chunk.is_empty());
    assert!(BitChunk { byte: 0, bits: 0 }.is_empty());
}

#[test]
fn next_chunk_stops_at_the_source_byte_boundary() {
    let bytes = [0b1010_0110u8, 0b0101_1100];
    assert_eq!(next_chunk_le(&bytes, 0, 0), BitChunk { byte: 0, bits: 0 });
    assert_eq!(next_chunk_le(&bytes, 0, 16), BitChunk { byte: 0b1010_0110, bits: 8 });
    assert_eq!(next_chunk_le(&bytes, 3, 16), BitChunk { byte: 0b10100, bits: 5 });
    assert_eq!(next_chunk_le(&bytes, 3, 2), BitChunk { byte: 0b00, bits: 2 });
    assert_eq!(next_chunk_le(&bytes, 10, 3), BitChunk { byte: 0b111, bits: 3 });
    assert_eq!(next_chunk_be(&bytes, 0, 16), BitChunk { byte: 0b0101_1100, bits: 8 });
    assert_eq!(next_chunk_be(&bytes, 10, 3), BitChunk { byte: 0b001, bits: 3 });
    assert_eq!(next_chunk_be(&bytes, 13, 9), BitChunk { byte: 0b101, bits: 3 });
}

#[test]
fn chunk_helper_fills_one_byte_and_returns_the_rest() {
    let mut bytes = [0xffu8, 0x00];
    let rest = write_chunk_le_helper(BitChunk { byte: 0b0100_1010, bits: 7 }, &mut bytes, 5);
    assert_eq!(bytes, [0b0101_1111, 0x00]);
    assert_eq!(rest, BitChunk { byte: 0b1001, bits: 4 });
    let rest = write_chunk_le_helper(rest, &mut bytes, 8);
    assert_eq!(bytes, [0b0101_1111, 0b1001]);
    assert_eq!(rest, BitChunk { byte: 0, bits: 0 });

    let mut bytes = [0x00u8, 0xff];
    let rest = write_chunk_be_helper(BitChunk { byte: 0b0100_1010, bits: 7 }, &mut bytes, 5);
    assert_eq!(bytes, [0x00, 0b0101_1111]);
    assert_eq!(rest, BitChunk { byte: 0b1001, bits: 4 });

    let mut bytes = [0x0fu8];
    let rest = write_chunk_le_helper(BitChunk { byte: 0xa5, bits: 8 }, &mut bytes, 0);
    assert_eq!(bytes, [0xa5]);
    assert_eq!(rest, BitChunk { byte: 0, bits: 0 });
    let untouched = write_chunk_le_helper(BitChunk { byte: 0, bits: 0 }, &mut bytes, 800);
    assert_eq!(untouched, BitChunk { byte: 0, bits: 0 });
    assert_eq!(bytes, [0xa5]);
}

#[test]
fn write_chunk_crosses_a_sink_byte_boundary() {
    let mut bytes = [0u8, 0];
    let written =
        write_chunk(BitChunk { byte: 0b1011_0101, bits: 8 }, &mut bytes, 6, Endianness::LITTLE);
    assert_eq!(written, 8);
    assert_eq!(bytes, [0b0100_0000, 0b0010_1101]);
    let mut bytes = [0xffu8, 0xff];
    let written = write_chunk(BitChunk { byte: 0, bits: 5 }, &mut bytes, 6, Endianness::BIG);
    assert_eq!(written, 5);
    assert_eq!(bytes, [0b1111_1000, 0b0011_1111]);
}

#[test]
fn write_bits_between_addressing_modes() {
    let source = [0x12u8, 0x34, 0x56];
    let mut sink = [0u8; 2];
    assert_eq!(
        write_bits(&source, 4, 12, 0, &mut sink, Endianness::BIG, Endianness::LITTLE),
        Ok(12)
    );
    assert_eq!(sink, [0x45, 0x03]);
    let mut sink = [0u8; 2];
    assert_eq!(
        write_bits(&source, 4, 12, 0, &mut sink, Endianness::BIG, Endianness::BIG),
        Ok(12)
    );
    assert_eq!(sink, [0x03, 0x45]);
    let mut sink = [0xffu8; 2];
    assert_eq!(
        write_bits(&source, 4, 12, 3, &mut sink, Endianness::LITTLE, Endianness::LITTLE),
        Ok(12)
    );
    // bits 4..16 of 0x563412 are 0x341
    assert_eq!(sink, [0x0f, 0x9a]);
    let mut sink = [0xa5u8];
    assert_eq!(
        write_bits(&source, 9, 0, 3, &mut sink, Endianness::LITTLE, Endianness::BIG),
        Ok(0)
    );
    assert_eq!(sink, [0xa5]);
}

#[test]
fn every_offset_length_and_position() {
    let source: u32 = 0xc3a5_96f1;
    for start in 0..32usize {
        for len in 0..(32 - start + 1) {
            for pos in [0usize, 1, 7, 8, 13] {
                if pos + len > 48 {
                    continue;
                }
                let mut sink = LittleEndian::with_bits(vec![0xffu8; 6], 48).unwrap();
                assert_eq!(source.write(&mut sink, start, len, pos), Ok(len));
                let mut found = [0u8; 8];
                found[..6].copy_from_slice(sink.bytes());
                let found = u64::from_le_bytes(found);
                let mask = if len == 0 { 0 } else { (1u64 << len) - 1 };
                let bits = ((source as u64) >> start) & mask;
                let expected = (0xffff_ffff_ffffu64 & !(mask << pos)) | (bits << pos);
                assert_eq!(found, expected);
            }
        }
    }
}

#[test]
fn range_checks() {
    assert_eq!(check_input_range("u8", 0, 8, 0, 7), Ok(()));
    assert_eq!(check_input_range("u8", 7, 1, 0, 7), Ok(()));
    assert_eq!(check_input_range("u8", 3, 0, 0, 7), Ok(()));
    assert_eq!(
        check_input_range("u8", 1, 8, 0, 7),
        Err(Error::input_bits_out_of_range("u8", 1, 8, 0, 7))
    );
    assert_eq!(
        check_input_range("part", 1, 2, 2, 7),
        Err(Error::input_bits_out_of_range("part", 1, 2, 2, 7))
    );
    assert_eq!(
        check_input_range("u8", 9, 0, 0, 7),
        Err(Error::input_bits_out_of_range("u8", 9, 9, 0, 7))
    );
    assert_eq!(check_output_range("u8", 3, 5, Some(8)), Ok(()));
    assert_eq!(check_output_range("grows", usize::MAX, usize::MAX, None), Ok(()));
    assert_eq!(
        check_output_range("u8", 3, 6, Some(8)),
        Err(Error::output_bits_out_of_range("u8", 6, 3, 8))
    );
    assert_eq!(
        check_output_range("u8", 9, 1, Some(8)),
        Err(Error::output_bits_out_of_range("u8", 1, 9, 8))
    );
    assert_eq!(
        check_output_range("u8", usize::MAX, usize::MAX, Some(8)),
        Err(Error::output_bits_out_of_range("u8", usize::MAX, usize::MAX, 8))
    );
}

#[test]
fn error_constructors_fill_their_fields() {
    assert_eq!(
        Error::input_bits_out_of_range("src", 1, 2, 3, 4),
        Error::InputBitsOutOfRange {
            src: "src".to_string(),
            message: String::new(),
            start: 1,
            end: 2,
            input_start: 3,
            input_end: 4,
        }
    );
    assert_eq!(
        Error::output_bits_out_of_range("dst", 1, 2, 3),
        Error::OutputBitsOutOfRange {
            sink: "dst".to_string(),
            message: String::new(),
            len: 1,
            output_start: 2,
            output_len: 3,
        }
    );
    assert_eq!(
        Error::output_bits_out_of_range("dst", 1, 2, 3).write_failed("T", 4, 5, 6, None),
        Error::WriteFailed {
            source: "T".to_string(),
            start: 4,
            end: 5,
            pos: 6,
            capacity: None,
            cause: Box::new(Error::output_bits_out_of_range("dst", 1, 2, 3)),
        }
    );
}

#[test]
fn out_of_range_requests_leave_the_sink_alone() {
    let mut sink = 0x5au8;
    assert_eq!(
        0xffffu16.write(&mut sink, 10, 7, 0),
        Err(Error::input_bits_out_of_range("u16", 10, 16, 0, 15))
    );
    assert_eq!(sink, 0x5a);
    assert_eq!(
        0xffffu16.write(&mut sink, 0, 7, 2),
        Err(Error::output_bits_out_of_range("u8", 7, 2, 8))
    );
    assert_eq!(sink, 0x5a);
    assert_eq!(
        (-1i128).write(&mut sink, 0, 129, 0),
        Err(Error::input_bits_out_of_range("i128", 0, 128, 0, 127))
    );
    let mut wide = 0i128;
    assert_eq!(
        7u8.write(&mut wide, 0, 8, 121),
        Err(Error::output_bits_out_of_range("i128", 8, 121, 128))
    );
    assert_eq!(wide, 0);
    let mut window = LittleEndian::with_bits(vec![0u8; 2], 11).unwrap();
    assert_eq!(
        0xffu8.write(&mut window, 0, 4, 8),
        Err(Error::output_bits_out_of_range("LittleEndian", 4, 8, 11))
    );
    assert_eq!(window.bytes(), &[0u8, 0]);
    let source = BigEndian::with_bits(vec![0xffu8; 2], 11).unwrap();
    assert_eq!(
        source.write(&mut sink, 8, 4, 0),
        Err(Error::input_bits_out_of_range("BigEndian", 8, 11, 0, 10))
    );
    assert_eq!(sink, 0x5a);
    let empty = LittleEndian::new(Vec::new());
    assert_eq!(
        empty.write(&mut sink, 0, 1, 0),
        Err(Error::input_bits_out_of_range("LittleEndian", 0, 0, 0, 0))
    );
}

#[test]
fn window_sizes() {
    let window = LittleEndian::new(vec![0u8; 3]);
    assert_eq!(BitSource::size(&window), 24);
    assert_eq!(BitSink::size(&window), Some(24));
    let window = BigEndian::with_bits(vec![0u8; 3], 17).unwrap();
    assert_eq!(BitSource::size(&window), 17);
    assert_eq!(BitSink::size(&window), Some(17));
    assert_eq!(
        LittleEndian::with_bits(vec![0u8; 3], 25).err(),
        Some(Error::input_bits_out_of_range("LittleEndian", 0, 25, 0, 24))
    );
    assert_eq!(
        BigEndian::with_bits(vec![0u8; 3], 25).err(),
        Some(Error::input_bits_out_of_range("BigEndian", 0, 25, 0, 24))
    );
    assert_eq!(BigEndian::new(vec![1u8, 2]).into_bytes(), vec![1u8, 2]);
}

#[test]
fn integer_sizes() {
    assert_eq!(BitSource::size(&0u8), 8);
    assert_eq!(BitSource::size(&0i16), 16);
    assert_eq!(BitSource::size(&0u32), 32);
    assert_eq!(BitSource::size(&0i64), 64);
    assert_eq!(BitSource::size(&0u128), 128);
    assert_eq!(BitSink::size(&0i8), Some(8));
    assert_eq!(BitSink::size(&0u16), Some(16));
    assert_eq!(BitSink::size(&0i32), Some(32));
    assert_eq!(BitSink::size(&0u64), Some(64));
    assert_eq!(BitSink::size(&0i128), Some(128));
}

#[test]
fn full_write_reads_back_unchanged() {
    let value: i64 = -0x1234_5678_9abc_def1;
    let copy: i64 = value.bits_into().unwrap();
    assert_eq!(copy, value);
    let value: u128 = 0xfedc_ba98_7654_3210_0123_4567_89ab_cdef;
    let copy: u128 = value.bits_into().unwrap();
    assert_eq!(copy, value);
    let value: i8 = -83;
    let mut sink: i8 = 0x55;
    assert_eq!(value.write_to(&mut sink, 0), Ok(8));
    assert_eq!(sink, value);

    let source = BigEndian::new(vec![0x12u8, 0x34, 0x56]);
    let mut sink = BigEndian::new(vec![0xffu8; 3]);
    assert_eq!(source.write_to(&mut sink, 0), Ok(24));
    assert_eq!(sink.bytes(), source.bytes());
    let mut back = BigEndian::new(vec![0u8; 3]);
    assert_eq!(sink.write_to(&mut back, 0), Ok(24));
    assert_eq!(back.bytes(), &[0x12u8, 0x34, 0x56]);

    let source = LittleEndian::new(vec![0x12u8, 0x34, 0x56]);
    let mut sink = LittleEndian::new(vec![0xffu8; 3]);
    assert_eq!(source.write_to(&mut sink, 0), Ok(24));
    assert_eq!(sink.into_bytes(), vec![0x12u8, 0x34, 0x56]);
}

#[test]
fn big_endian_mirrors_little_endian() {
    let bytes = vec![0x12u8, 0x34, 0x56, 0x78];
    let mut reversed = bytes.clone();
    reversed.reverse();
    let big = BigEndian::new(bytes.clone());
    let little = LittleEndian::new(reversed);
    let from_big: u32 = big.bits_into().unwrap();
    let from_little: u32 = little.bits_into().unwrap();
    assert_eq!(from_big, 0x1234_5678);
    assert_eq!(from_big, from_little);
    for k in 0..32usize {
        let mut one_big = 0u8;
        let mut one_little = 0u8;
        assert_eq!(big.write(&mut one_big, k, 1, 0), Ok(1));
        assert_eq!(little.write(&mut one_little, k, 1, 0), Ok(1));
        assert_eq!(one_big, one_little);
        assert_eq!(one_big, (bytes[3 - k / 8] >> (k % 8)) & 1);
    }
    let mut sink_big = BigEndian::new(vec![0u8; 4]);
    let mut sink_little = LittleEndian::new(vec![0u8; 4]);
    assert_eq!(0x1234_5678u32.write_to(&mut sink_big, 0), Ok(32));
    assert_eq!(0x1234_5678u32.write_to(&mut sink_little, 0), Ok(32));
    assert_eq!(sink_big.bytes(), &[0x12u8, 0x34, 0x56, 0x78]);
    assert_eq!(sink_little.bytes(), &[0x78u8, 0x56, 0x34, 0x12]);
}

#[test]
fn sub_range_into_a_window_of_27_bits() {
    let packed = Packed::from_pattern(
        "111[x:1]111[x:3]11[x:4]11[y:4-9]1[z:12], z = y",
        vec![Some("x".to_string()), Some("y".to_string())],
        vec![LittleEndian::new(vec![0u8]), LittleEndian::new(vec![0u8; 8])],
        "Instr",
    )
    .unwrap();
    assert_eq!(packed.size(), 21);
    let mut sink = LittleEndian::with_bits(vec![0xffu8, 0xff, 0xfd, 0x07], 27).unwrap();
    assert_eq!(packed.write(&mut sink, 1, 10, 6), Ok(10));
    assert_eq!(sink.bytes(), &[0x7fu8, 0x60, 0xfd, 0x07]);
    let mut sink = LittleEndian::with_bits(vec![0xffu8, 0xff, 0xfd, 0x07], 27).unwrap();
    match packed.write(&mut sink, 1, 10, 18) {
        Err(Error::WriteFailed { source, start, end, pos, capacity, cause }) => {
            assert_eq!(source, "Instr");
            assert_eq!((start, end, pos, capacity), (1, 10, 18, Some(27)));
            assert_eq!(*cause, Error::output_bits_out_of_range("LittleEndian", 1, 27, 27));
        }
        other => panic!("unexpected {:?}", other),
    }
    // the entries before the one that failed stay written
    assert_eq!(sink.bytes(), &[0xffu8, 0xff, 0x05, 0x06]);
}

#[test]
fn literal_pattern_into_sixteen_and_eight_bits() {
    let packed: Packed<LittleEndian> =
        Packed::from_pattern("1001110011000", vec![], vec![], "Foo").unwrap();
    let mut sink = 0u16;
    assert_eq!(packed.write_to(&mut sink, 0), Ok(13));
    assert_eq!(sink, 0b0001001110011000);
    let mut sink = 0u8;
    match packed.write_to(&mut sink, 0) {
        Err(e) => match e {
            Error::WriteFailed { cause, .. } => {
                assert!(matches!(*cause, Error::OutputBitsOutOfRange { .. }))
            }
            other => panic!("unexpected {:?}", other),
        },
        Ok(n) => panic!("wrote {} bits", n),
    }
}

#[test]
fn bits_as_text_most_significant_first() {
    assert_eq!(0b101u8.display_bits().to_string(), "00000101");
    assert_eq!((-2i16).display_bits().to_string(), "1111111111111110");
    let window = LittleEndian::with_bits(vec![0b1010_0110u8, 0b0101_1101], 11).unwrap();
    assert_eq!(window.display_bits().to_string(), "10110100110");
    let window = BigEndian::with_bits(vec![0b1010_0110u8, 0b0101_1101], 11).unwrap();
    assert_eq!(window.display_bits().to_string(), "11001011101");
    let empty = LittleEndian::new(Vec::new());
    assert_eq!(empty.display_bits().to_string(), "");
    let packed: Packed<LittleEndian> =
        Packed::from_pattern("1001110011000", vec![], vec![], "Foo").unwrap();
    assert_eq!(packed.display_bits().to_string(), "1001110011000");
    assert!(window.get(0));
    assert!(!window.get(1));
    assert!(window.get(10));
    assert!(!window.get(8));
}

#[test]
fn chunk_as_text() {
    assert_eq!(BitChunk { byte: 0, bits: 0 }.to_string(), "<empty>");
    assert_eq!(BitChunk { byte: 0b1, bits: 1 }.to_string(), "1");
    assert_eq!(BitChunk { byte: 0b101, bits: 3 }.to_string(), "101");
    assert_eq!(BitChunk { byte: 0b101, bits: 6 }.to_string(), "000101");
    assert_eq!(BitChunk { byte: 0xa5, bits: 8 }.to_string(), "10100101");
    assert_eq!(BitChunk { byte: 0b11111, bits: 3 }.to_string(), "11111");
    assert_eq!(BitChunk { byte: 0x80, bits: 1 }.to_string(), "10000000");
}
