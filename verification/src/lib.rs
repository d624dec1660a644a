//! Packing and unpacking of arbitrarily aligned bit fields into byte buffers,
//! driven by textual bit-layout patterns.
//!
//! A pattern such as `111[x:1]11[y:4-9]` lists literal bit runs and ranges of
//! named fields, most significant first. It is parsed, bound to the fields of
//! a host type and compiled to a write plan; the plan is then executed
//! against any sink of bits.

pub mod binding;
pub mod bits;
pub mod chunk;
pub mod display;
pub mod error;
pub mod ints;
pub mod literal;
pub mod packed;
pub mod pattern;
pub mod plan;
pub mod sink;
pub mod text;
pub mod window;

pub use binding::{bind, BindError, Binding};
pub use bits::Endianness;
pub use chunk::{
    mask, next_chunk_be, next_chunk_le, write_bits, write_chunk, write_chunk_be_helper,
    write_chunk_le_helper, BitChunk,
};
pub use display::DisplayBits;
pub use error::Error;
pub use literal::{parse_bits, parse_bits_to_byte, parse_literal, Literal};
pub use packed::{LayoutError, Packed, Variants};
pub use pattern::{
    parse_bit_pattern, parse_range, BitPattern, ParseError, Range, RawMappingValue, Token,
};
pub use plan::{compile, execute, write_value, Payload, PlanEntry, WritePlan};
pub use sink::{check_input_range, check_output_range, BitSink, BitSource};
pub use window::{BigEndian, LittleEndian};
