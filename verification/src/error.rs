//! The error taxonomy of the crate.

use vstd::prelude::*;

verus! {

/// What a bit transfer can fail with.
#[derive(Debug, PartialEq, Eq)]
pub enum Error {
    /// The bit range `[start, end]` was requested of the source `src`, whose
    /// bits are `[input_start, input_end]`.
    InputBitsOutOfRange {
        src: String,
        message: String,
        start: usize,
        end: usize,
        input_start: usize,
        input_end: usize,
    },
    /// `len` bits were to be written at offset `output_start` of the sink
    /// `sink`, which holds `output_len` bits.
    OutputBitsOutOfRange {
        sink: String,
        message: String,
        len: usize,
        output_start: usize,
        output_len: usize,
    },
    /// Writing the bits `[start, end]` of the value `source` at offset `pos`
    /// of a sink with the given capacity (`None`: unbounded) failed with
    /// `cause`.
    WriteFailed {
        source: String,
        start: usize,
        end: usize,
        pos: usize,
        capacity: Option<usize>,
        cause: Box<Error>,
    },
}

/// `e` reports that `[start, end]` was requested of the source `src`, whose
/// bits are `[input_start, input_end]`.
pub open spec fn is_input_error(
    e: Error,
    src: Seq<char>,
    start: int,
    end: int,
    input_start: int,
    input_end: int,
) -> bool {
    match e {
        Error::InputBitsOutOfRange { src: s, message, start: a, end: b, input_start: c, input_end: d } => {
            &&& s@ == src
            &&& message@ == Seq::<char>::empty()
            &&& a == start
            &&& b == end
            &&& c == input_start
            &&& d == input_end
        },
        _ => false,
    }
}

/// `e` reports that `len` bits were to be written at offset `output_start` of
/// the sink `sink`, which holds `output_len` bits.
pub open spec fn is_output_error(
    e: Error,
    sink: Seq<char>,
    len: int,
    output_start: int,
    output_len: int,
) -> bool {
    match e {
        Error::OutputBitsOutOfRange { sink: s, message, len: a, output_start: b, output_len: c } => {
            &&& s@ == sink
            &&& message@ == Seq::<char>::empty()
            &&& a == len
            &&& b == output_start
            &&& c == output_len
        },
        _ => false,
    }
}

/// `e` wraps `cause` with the request that failed: the bits `[start, end]` of
/// the value `source`, to be written at offset `pos` of a sink with the given
/// capacity.
pub open spec fn is_write_failure(
    e: Error,
    source: Seq<char>,
    start: int,
    end: int,
    pos: int,
    capacity: Option<usize>,
    cause: Error,
) -> bool {
    match e {
        Error::WriteFailed { source: s, start: a, end: b, pos: c, capacity: d, cause: inner } => {
            &&& s@ == source
            &&& a == start
            &&& b == end
            &&& c == pos
            &&& d == capacity
            &&& *inner == cause
        },
        _ => false,
    }
}

/// The error that a `WriteFailed` wraps; of another error, itself.
pub open spec fn cause_of(e: Error) -> Error {
    match e {
        Error::WriteFailed { cause, .. } => *cause,
        _ => e,
    }
}

/// The error at the bottom of a chain of `WriteFailed` wrappers.
pub open spec fn root_cause(e: Error) -> Error
    decreases e,
{
    match e {
        Error::WriteFailed { cause, .. } => root_cause(*cause),
        _ => e,
    }
}

impl Error {
    pub fn input_bits_out_of_range(
        source: &str,
        start: usize,
        end: usize,
        input_start: usize,
        input_end: usize,
    ) -> (e: Error)
        ensures
            is_input_error(e, source@, start as int, end as int, input_start as int, input_end as int),
    {
        Error::InputBitsOutOfRange {
            src: source.to_owned(),
            message: String::new(),
            start,
            end,
            input_start,
            input_end,
        }
    }

    pub fn output_bits_out_of_range(
        sink: &str,
        len: usize,
        output_start: usize,
        output_len: usize,
    ) -> (e: Error)
        ensures
            is_output_error(e, sink@, len as int, output_start as int, output_len as int),
    {
        Error::OutputBitsOutOfRange {
            sink: sink.to_owned(),
            message: String::new(),
            len,
            output_start,
            output_len,
        }
    }

    pub fn write_failed(
        self,
        source: &str,
        start: usize,
        end: usize,
        pos: usize,
        capacity: Option<usize>,
    ) -> (e: Error)
        ensures
            is_write_failure(e, source@, start as int, end as int, pos as int, capacity, self),
            cause_of(e) == self,
            root_cause(e) == root_cause(self),
    {
        Error::WriteFailed { source: source.to_owned(), start, end, pos, capacity, cause: Box::new(self) }
    }
}

} // verus!
