use decree::{BigEndian, BitSink, BitSource, Endianness, Error, LittleEndian};
use std::fmt::{Binary, Debug};

fn compare_arrays(found: &[u8], expected: &[u8]) {
    if found != expected {
        panic!("Expected {}, found {}", print_array(&expected), print_array(&found));
    }
}

fn print_array(bytes: &[u8]) -> String {
    let mut result = String::new();
    result.push('[');
    let mut first = true;
    for byte in bytes {
        if first {
            first = false;
        } else {
            result.push_str(", ");
        }
        result.push_str(&format!("{:08b}", byte));
    }
    result.push(']');
    result
}

fn test_bit_write<S: BitSink + Eq + Debug + Binary>(
    source: impl BitSource,
    sink: S,
    start: usize,
    len: usize,
    pos: usize,
    expected: Result<S, Error>,
) {
    let mut sink = sink;
    let result = match source.write(&mut sink, start, len, pos) {
        Ok(_) => Ok(sink),
        Err(err) => Err(err),
    };

    if result != expected {
        let result_str = match result {
            Ok(value) => format!("{:b}", value),
            Err(error) => format!("Err({:?})", error),
        };
        let expected_str = match expected {
            Ok(value) => format!("{:b}", value),
            Err(error) => format!("Err({:?})", error),
        };
        panic!("Expected {}, but found {}", expected_str, result_str);
    }
}

fn write_big_endian(bytes: &mut [u8], pos: usize, input: impl BitSource) -> Result<(), Error> {
    let mut output = BigEndian::new(bytes.to_vec());
    input.write_to(&mut output, pos)?;
    bytes.copy_from_slice(output.bytes());
    Ok(())
}

fn write_big_endian_len(
    bytes: &mut [u8],
    pos: usize,
    len: usize,
    input: impl BitSource,
) -> Result<(), Error> {
    let mut output = BigEndian::new(bytes.to_vec());
    input.write(&mut output, 0, len, pos)?;
    bytes.copy_from_slice(output.bytes());
    Ok(())
}

#[test]
fn test_bit_writing() {
    test_bit_write(0b11110001u8, 0b11111111u8, 1, 3, 2, Ok(0b11100011));
    test_bit_write(0b11110001u8, 0b11111111u8, 0, 8, 0, Ok(0b11110001));

    test_bit_write(
        0b00000000_00011111_10000000_00000000u32,
        00000000u8,
        14,
        5,
        0,
        Ok(0b11110u8),
    );

    test_bit_write(
        0b00000000_00011111_10000000_00000000u32,
        0b00000000_00000001_11111110_00000000u32,
        14,
        5,
        15,
        Ok(0b00000000_00001111_01111110_00000000u32),
    );

    test_bit_write(
        0b11110001u64,
        0b11111111u8,
        0,
        64,
        0,
        Err(Error::output_bits_out_of_range("u8", 64, 0, 8)),
    );
    test_bit_write(
        0b11110001u64,
        0b11111111u8,
        7,
        50,
        3,
        Err(Error::output_bits_out_of_range("u8", 50, 3, 8)),
    );
}

#[test]
fn test_big_endian() -> Result<(), Error> {
    let mut output = BigEndian::new(vec![0u8; 3]);
    let input = 0b011110001110101010101u128;
    input.write(&mut output, 0, 11, 1)?;
    let expected_output = [0b00000000u8, 0b00001010, 0b10101010];
    compare_arrays(output.bytes(), &expected_output);

    {
        let input = 0b111_11111111_11111111;
        {
            let pos = 0;
            let mut output = [0u8; 8];
            write_big_endian(&mut output, pos, input)?;
            compare_arrays(&output, &[0, 0, 0, 0, 0, 0b00000111, 0b11111111, 0b11111111]);
        }
        {
            let pos = 1;
            let mut output = [0u8; 8];
            write_big_endian(&mut output, pos, input)?;
            compare_arrays(&output, &[0, 0, 0, 0, 0, 0b00001111, 0b11111111, 0b11111110]);
        }
        {
            let pos = 2;
            let mut output = [0u8; 8];
            write_big_endian(&mut output, pos, input)?;
            compare_arrays(&output, &[0, 0, 0, 0, 0, 0b00011111, 0b11111111, 0b11111100]);
        }
        {
            let pos = 3;
            let mut output = [0u8; 8];
            write_big_endian(&mut output, pos, input)?;
            compare_arrays(&output, &[0, 0, 0, 0, 0, 0b00111111, 0b11111111, 0b11111000]);
        }
        {
            let pos = 4;
            let mut output = [0u8; 8];
            write_big_endian(&mut output, pos, input)?;
            compare_arrays(&output, &[0, 0, 0, 0, 0, 0b01111111, 0b11111111, 0b11110000]);
        }
        {
            let pos = 5;
            let mut output = [0u8; 8];
            write_big_endian(&mut output, pos, input)?;
            compare_arrays(&output, &[0, 0, 0, 0, 0, 0b11111111, 0b11111111, 0b11100000]);
        }
        {
            let pos = 6;
            let mut output = [0u8; 8];
            write_big_endian(&mut output, pos, input)?;
            compare_arrays(&output, &[0, 0, 0, 0, 0b00000001, 0b11111111, 0b11111111, 0b11000000]);
        }
        {
            let pos = 7;
            let mut output = [0u8; 8];
            write_big_endian(&mut output, pos, input)?;
            compare_arrays(&output, &[0, 0, 0, 0, 0b00000011, 0b11111111, 0b11111111, 0b10000000]);
        }
        {
            let pos = 8;
            let mut output = [0u8; 8];
            write_big_endian(&mut output, pos, input)?;
            compare_arrays(&output, &[0, 0, 0, 0, 0b00000111, 0b11111111, 0b11111111, 0]);
        }
        {
            let pos = 9;
            let mut output = [0u8; 8];
            write_big_endian(&mut output, pos, input)?;
            compare_arrays(&output, &[0, 0, 0, 0, 0b00001111, 0b11111111, 0b11111110, 0]);
        }
        {
            let pos = 10;
            let mut output = [0u8; 8];
            write_big_endian(&mut output, pos, input)?;
            compare_arrays(&output, &[0, 0, 0, 0, 0b00011111, 0b11111111, 0b11111100, 0]);
        }
        {
            let pos = 11;
            let mut output = [0u8; 8];
            write_big_endian(&mut output, pos, input)?;
            compare_arrays(&output, &[0, 0, 0, 0, 0b00111111, 0b11111111, 0b11111000, 0]);
        }
        {
            let pos = 12;
            let mut output = [0u8; 8];
            write_big_endian(&mut output, pos, input)?;
            compare_arrays(&output, &[0, 0, 0, 0, 0b01111111, 0b11111111, 0b11110000, 0]);
        }
        {
            let pos = 13;
            let mut output = [0u8; 8];
            write_big_endian(&mut output, pos, input)?;
            compare_arrays(&output, &[0, 0, 0, 0, 0b11111111, 0b11111111, 0b11100000, 0]);
        }
        {
            let pos = 14;
            let mut output = [0u8; 8];
            write_big_endian(&mut output, pos, input)?;
            compare_arrays(&output, &[0, 0, 0, 0b00000001, 0b11111111, 0b11111111, 0b11000000, 0]);
        }
        {
            let pos = 15;
            let mut output = [0u8; 8];
            write_big_endian(&mut output, pos, input)?;
            compare_arrays(&output, &[0, 0, 0, 0b00000011, 0b11111111, 0b11111111, 0b10000000, 0]);
        }
        {
            let pos = 16;
            let mut output = [0u8; 8];
            write_big_endian(&mut output, pos, input)?;
            compare_arrays(&output, &[0, 0, 0, 0b00000111, 0b11111111, 0b11111111, 0, 0]);
        }
        {
            let pos = 17;
            let mut output = [0u8; 8];
            write_big_endian(&mut output, pos, input)?;
            compare_arrays(&output, &[0, 0, 0, 0b00001111, 0b11111111, 0b11111110, 0, 0]);
        }
        {
            let pos = 18;
            let mut output = [0u8; 8];
            write_big_endian(&mut output, pos, input)?;
            compare_arrays(&output, &[0, 0, 0, 0b00011111, 0b11111111, 0b11111100, 0, 0]);
        }
        {
            let pos = 19;
            let mut output = [0u8; 8];
            write_big_endian(&mut output, pos, input)?;
            compare_arrays(&output, &[0, 0, 0, 0b00111111, 0b11111111, 0b11111000, 0, 0]);
        }
        {
            let pos = 20;
            let mut output = [0u8; 8];
            write_big_endian(&mut output, pos, input)?;
            compare_arrays(&output, &[0, 0, 0, 0b01111111, 0b11111111, 0b11110000, 0, 0]);
        }
        {
            let pos = 21;
            let mut output = [0u8; 8];
            write_big_endian(&mut output, pos, input)?;
            compare_arrays(&output, &[0, 0, 0, 0b11111111, 0b11111111, 0b11100000, 0, 0]);
        }
        {
            let pos = 22;
            let mut output = [0u8; 8];
            write_big_endian(&mut output, pos, input)?;
            compare_arrays(&output, &[0, 0, 0b00000001, 0b11111111, 0b11111111, 0b11000000, 0, 0]);
        }
        {
            let pos = 23;
            let mut output = [0u8; 8];
            write_big_endian(&mut output, pos, input)?;
            compare_arrays(&output, &[0, 0, 0b00000011, 0b11111111, 0b11111111, 0b10000000, 0, 0]);
        }
        {
            let pos = 24;
            let mut output = [0u8; 8];
            write_big_endian(&mut output, pos, input)?;
            compare_arrays(&output, &[0, 0, 0b00000111, 0b11111111, 0b11111111, 0, 0, 0]);
        }
        {
            let pos = 25;
            let mut output = [0u8; 8];
            write_big_endian(&mut output, pos, input)?;
            compare_arrays(&output, &[0, 0, 0b00001111, 0b11111111, 0b11111110, 0, 0, 0]);
        }
        {
            let pos = 26;
            let mut output = [0u8; 8];
            write_big_endian(&mut output, pos, input)?;
            compare_arrays(&output, &[0, 0, 0b00011111, 0b11111111, 0b11111100, 0, 0, 0]);
        }
        {
            let pos = 27;
            let mut output = [0u8; 8];
            write_big_endian(&mut output, pos, input)?;
            compare_arrays(&output, &[0, 0, 0b00111111, 0b11111111, 0b11111000, 0, 0, 0]);
        }
        {
            let pos = 28;
            let mut output = [0u8; 8];
            write_big_endian(&mut output, pos, input)?;
            compare_arrays(&output, &[0, 0, 0b01111111, 0b11111111, 0b11110000, 0, 0, 0]);
        }
        {
            let pos = 29;
            let mut output = [0u8; 8];
            write_big_endian(&mut output, pos, input)?;
            compare_arrays(&output, &[0, 0, 0b11111111, 0b11111111, 0b11100000, 0, 0, 0]);
        }
        {
            let pos = 30;
            let mut output = [0u8; 8];
            write_big_endian(&mut output, pos, input)?;
            compare_arrays(&output, &[0, 0b00000001, 0b11111111, 0b11111111, 0b11000000, 0, 0, 0]);
        }
        {
            let pos = 31;
            let mut output = [0u8; 8];
            write_big_endian(&mut output, pos, input)?;
            compare_arrays(&output, &[0, 0b00000011, 0b11111111, 0b11111111, 0b10000000, 0, 0, 0]);
        }
        {
            let pos = 32;
            let mut output = [0u8; 8];
            write_big_endian(&mut output, pos, input)?;
            compare_arrays(&output, &[0, 0b00000111, 0b11111111, 0b11111111, 0, 0, 0, 0]);
        }
        {
            let pos = 33;
            let mut output = [0u8; 8];
            write_big_endian_len(&mut output, pos, 19, input)?;
            compare_arrays(&output, &[0, 0b00001111, 0b11111111, 0b11111110, 0, 0, 0, 0]);
        }
        {
            let pos = 34;
            let mut output = [0u8; 8];
            write_big_endian_len(&mut output, pos, 19, input)?;
            compare_arrays(&output, &[0, 0b00011111, 0b11111111, 0b11111100, 0, 0, 0, 0]);
        }
        {
            let pos = 35;
            let mut output = [0u8; 8];
            write_big_endian_len(&mut output, pos, 19, input)?;
            compare_arrays(&output, &[0, 0b00111111, 0b11111111, 0b11111000, 0, 0, 0, 0]);
        }
        {
            let pos = 36;
            let mut output = [0u8; 8];
            write_big_endian_len(&mut output, pos, 19, input)?;
            compare_arrays(&output, &[0, 0b01111111, 0b11111111, 0b11110000, 0, 0, 0, 0]);
        }
        {
            let pos = 37;
            let mut output = [0u8; 8];
            write_big_endian_len(&mut output, pos, 19, input)?;
            compare_arrays(&output, &[0, 0b11111111, 0b11111111, 0b11100000, 0, 0, 0, 0]);
        }
        {
            let pos = 38;
            let mut output = [0u8; 8];
            write_big_endian_len(&mut output, pos, 19, input)?;
            compare_arrays(&output, &[0b00000001, 0b11111111, 0b11111111, 0b11000000, 0, 0, 0, 0]);
        }
        {
            let pos = 39;
            let mut output = [0u8; 8];
            write_big_endian_len(&mut output, pos, 19, input)?;
            compare_arrays(&output, &[0b00000011, 0b11111111, 0b11111111, 0b10000000, 0, 0, 0, 0]);
        }
        {
            let pos = 40;
            let mut output = [0u8; 8];
            write_big_endian_len(&mut output, pos, 19, input)?;
            compare_arrays(&output, &[0b00000111, 0b11111111, 0b11111111, 0, 0, 0, 0, 0]);
        }
        {
            let pos = 41;
            let mut output = [0u8; 8];
            write_big_endian_len(&mut output, pos, 19, input)?;
            compare_arrays(&output, &[0b00001111, 0b11111111, 0b11111110, 0, 0, 0, 0, 0]);
        }
        {
            let pos = 42;
            let mut output = [0u8; 8];
            write_big_endian_len(&mut output, pos, 19, input)?;
            compare_arrays(&output, &[0b00011111, 0b11111111, 0b11111100, 0, 0, 0, 0, 0]);
        }
        {
            let pos = 43;
            let mut output = [0u8; 8];
            write_big_endian_len(&mut output, pos, 19, input)?;
            compare_arrays(&output, &[0b00111111, 0b11111111, 0b11111000, 0, 0, 0, 0, 0]);
        }
        {
            let pos = 44;
            let mut output = [0u8; 8];
            write_big_endian_len(&mut output, pos, 19, input)?;
            compare_arrays(&output, &[0b01111111, 0b11111111, 0b11110000, 0, 0, 0, 0, 0]);
        }
        {
            let pos = 45;
            let mut output = [0u8; 8];
            write_big_endian_len(&mut output, pos, 19, input)?;
            compare_arrays(&output, &[0b11111111, 0b11111111, 0b11100000, 0, 0, 0, 0, 0]);
        }
        {
            let pos = 46;
            let mut output = [0u8; 8];
            write_big_endian_len(&mut output, pos, 18, input)?;
            compare_arrays(&output, &[0b11111111, 0b11111111, 0b11000000, 0, 0, 0, 0, 0]);
        }
        {
            let pos = 47;
            let mut output = [0u8; 8];
            write_big_endian_len(&mut output, pos, 17, input)?;
            compare_arrays(&output, &[0b11111111, 0b11111111, 0b10000000, 0, 0, 0, 0, 0]);
        }
        {
            let pos = 48;
            let mut output = [0u8; 8];
            write_big_endian_len(&mut output, pos, 16, input)?;
            compare_arrays(&output, &[0b11111111, 0b11111111, 0, 0, 0, 0, 0, 0]);
        }
        {
            let pos = 49;
            let mut output = [0u8; 8];
            write_big_endian_len(&mut output, pos, 15, input)?;
            compare_arrays(&output, &[0b11111111, 0b11111110, 0, 0, 0, 0, 0, 0]);
        }
        {
            let pos = 50;
            let mut output = [0u8; 8];
            write_big_endian_len(&mut output, pos, 14, input)?;
            compare_arrays(&output, &[0b11111111, 0b11111100, 0, 0, 0, 0, 0, 0]);
        }
        {
            let pos = 51;
            let mut output = [0u8; 8];
            write_big_endian_len(&mut output, pos, 13, input)?;
            compare_arrays(&output, &[0b11111111, 0b11111000, 0, 0, 0, 0, 0, 0]);
        }
        {
            let pos = 52;
            let mut output = [0u8; 8];
            write_big_endian_len(&mut output, pos, 12, input)?;
            compare_arrays(&output, &[0b11111111, 0b11110000, 0, 0, 0, 0, 0, 0]);
        }
        {
            let pos = 53;
            let mut output = [0u8; 8];
            write_big_endian_len(&mut output, pos, 11, input)?;
            compare_arrays(&output, &[0b11111111, 0b11100000, 0, 0, 0, 0, 0, 0]);
        }
        {
            let pos = 54;
            let mut output = [0u8; 8];
            write_big_endian_len(&mut output, pos, 10, input)?;
            compare_arrays(&output, &[0b11111111, 0b11000000, 0, 0, 0, 0, 0, 0]);
        }
        {
            let pos = 55;
            let mut output = [0u8; 8];
            write_big_endian_len(&mut output, pos, 9, input)?;
            compare_arrays(&output, &[0b11111111, 0b10000000, 0, 0, 0, 0, 0, 0]);
        }
        {
            let pos = 56;
            let mut output = [0u8; 8];
            write_big_endian_len(&mut output, pos, 8, input)?;
            compare_arrays(&output, &[0b11111111, 0, 0, 0, 0, 0, 0, 0]);
        }
        {
            let pos = 57;
            let mut output = [0u8; 8];
            write_big_endian_len(&mut output, pos, 7, input)?;
            compare_arrays(&output, &[0b11111110, 0, 0, 0, 0, 0, 0, 0]);
        }
        {
            let pos = 58;
            let mut output = [0u8; 8];
            write_big_endian_len(&mut output, pos, 6, input)?;
            compare_arrays(&output, &[0b11111100, 0, 0, 0, 0, 0, 0, 0]);
        }
        {
            let pos = 59;
            let mut output = [0u8; 8];
            write_big_endian_len(&mut output, pos, 5, input)?;
            compare_arrays(&output, &[0b11111000, 0, 0, 0, 0, 0, 0, 0]);
        }
        {
            let pos = 60;
            let mut output = [0u8; 8];
            write_big_endian_len(&mut output, pos, 4, input)?;
            compare_arrays(&output, &[0b11110000, 0, 0, 0, 0, 0, 0, 0]);
        }
        {
            let pos = 61;
            let mut output = [0u8; 8];
            write_big_endian_len(&mut output, pos, 3, input)?;
            compare_arrays(&output, &[0b11100000, 0, 0, 0, 0, 0, 0, 0]);
        }
        {
            let pos = 62;
            let mut output = [0u8; 8];
            write_big_endian_len(&mut output, pos, 2, input)?;
            compare_arrays(&output, &[0b11000000, 0, 0, 0, 0, 0, 0, 0]);
        }
        {
            let pos = 63;
            let mut output = [0u8; 8];
            write_big_endian_len(&mut output, pos, 1, input)?;
            compare_arrays(&output, &[0b10000000, 0, 0, 0, 0, 0, 0, 0]);
        }
        {
            let pos = 64;
            let mut output = [0u8; 8];
            write_big_endian_len(&mut output, pos, 0, input)?;
            compare_arrays(&output, &[0, 0, 0, 0, 0, 0, 0, 0]);
        }
    }

    Ok(())
}
