//! Scanning of pattern text: character classes, maximal runs, decimal
//! numbers and names.

use vstd::prelude::*;
use vstd::string::StringSliceAdditionalSpecFns;
use vstd::utf8::encode_utf8;

verus! {

pub const ZERO: u8 = 0x30;

pub const ONE: u8 = 0x31;

pub const NINE: u8 = 0x39;

pub const OPEN: u8 = 0x5b;

pub const CLOSE: u8 = 0x5d;

pub const COLON: u8 = 0x3a;

pub const HYPHEN: u8 = 0x2d;

pub const COMMA: u8 = 0x2c;

pub const EQUALS: u8 = 0x3d;

pub const SPACE: u8 = 0x20;

pub const UNDERSCORE: u8 = 0x5f;

/// Taken on trust from the documentation of std's `String::push`: the call
/// appends the given character to the end of the string, and changes
/// nothing else of it.
pub assume_specification[ String::push ](s: &mut String, c: char)
    ensures
        final(s)@ == old(s)@.push(c),
;

/// The classes of characters that pattern text is made of.
#[derive(Debug, Clone, Copy, PartialEq, Eq, Structural)]
pub enum CharClass {
    /// `0` or `1`.
    Bit,
    /// A letter, a digit or `_`.
    Name,
    /// A decimal digit.
    Digit,
    /// A space.
    Space,
}

/// Whether the byte `b` belongs to the class `c`.
pub open spec fn in_class(c: CharClass, b: u8) -> bool {
    match c {
        CharClass::Bit => b == ZERO || b == ONE,
        CharClass::Digit => ZERO <= b <= NINE,
        CharClass::Name => (ZERO <= b <= NINE) || (0x41 <= b <= 0x5a) || (0x61 <= b <= 0x7a) || b
            == UNDERSCORE,
        CharClass::Space => b == SPACE,
    }
}

pub fn is_in_class(c: CharClass, b: u8) -> (r: bool)
    ensures
        r == in_class(c, b),
{
    match c {
        CharClass::Bit => b == ZERO || b == ONE,
        CharClass::Digit => ZERO <= b && b <= NINE,
        CharClass::Name => (ZERO <= b && b <= NINE) || (0x41 <= b && b <= 0x5a) || (0x61 <= b && b
            <= 0x7a) || b == UNDERSCORE,
        CharClass::Space => b == SPACE,
    }
}

/// The end of the longest run of characters of class `c` that starts at `i`.
pub open spec fn run_end(s: Seq<u8>, i: int, c: CharClass) -> int
    decreases s.len() - i,
{
    if 0 <= i < s.len() && in_class(c, s[i]) {
        run_end(s, i + 1, c)
    } else {
        i
    }
}

/// Finds the end of the longest run of characters of class `c` from `i` on.
pub fn scan(text: &[u8], i: usize, c: CharClass) -> (end: usize)
    requires
        i <= text@.len(),
    ensures
        end == run_end(text@, i as int, c),
        i <= end <= text@.len(),
        forall|j: int| i <= j < end ==> in_class(c, #[trigger] text@[j]),
{
    let mut j: usize = i;
    while j < text.len() && is_in_class(c, text[j])
        invariant
            i <= j <= text@.len(),
            run_end(text@, i as int, c) == run_end(text@, j as int, c),
            forall|m: int| i <= m < j ==> in_class(c, #[trigger] text@[m]),
        decreases text@.len() - j,
    {
        j = j + 1;
    }
    j
}

/// The number that the decimal digits `s` spell.
pub open spec fn decimal(s: Seq<u8>) -> nat
    decreases s.len(),
{
    if s.len() == 0 {
        0
    } else {
        decimal(s.drop_last()) * 10 + (s.last() - ZERO) as nat
    }
}

/// Reads the decimal number that starts at `i`: the end of its digits, and
/// its value where that fits the machine word.
pub fn scan_number(text: &[u8], i: usize) -> (r: (usize, Option<usize>))
    requires
        i <= text@.len(),
    ensures
        r.0 == run_end(text@, i as int, CharClass::Digit),
        i <= r.0 <= text@.len(),
        match r.1 {
            Some(n) => n == decimal(text@.subrange(i as int, r.0 as int)),
            None => decimal(text@.subrange(i as int, r.0 as int)) > usize::MAX,
        },
{
    let mut j: usize = i;
    let mut value: Option<usize> = Some(0);
    while j < text.len() && is_in_class(CharClass::Digit, text[j])
        invariant
            i <= j <= text@.len(),
            run_end(text@, i as int, CharClass::Digit) == run_end(text@, j as int, CharClass::Digit),
            match value {
                Some(n) => n == decimal(text@.subrange(i as int, j as int)),
                None => decimal(text@.subrange(i as int, j as int)) > usize::MAX,
            },
        decreases text@.len() - j,
    {
        let d: usize = (text[j] - ZERO) as usize;
        proof {
            let longer = text@.subrange(i as int, j + 1);
            assert(longer.drop_last() =~= text@.subrange(i as int, j as int));
            assert(longer.last() == text@[j as int]);
        }
        value = match value {
            Some(n) => {
                if n > (usize::MAX - d) / 10 {
                    None
                } else {
                    Some(n * 10 + d)
                }
            },
            None => None,
        };
        j = j + 1;
    }
    (j, value)
}

/// The value of a name that is a decimal number: of one or more digits and
/// nothing else, and within the machine word.
pub open spec fn digits_value(s: Seq<u8>) -> Option<nat> {
    if s.len() > 0 && run_end(s, 0, CharClass::Digit) == s.len() && decimal(s) <= usize::MAX {
        Some(decimal(s))
    } else {
        None
    }
}

/// The position that a name stands for, where the name is a decimal number.
pub open spec fn name_index(name: Seq<char>) -> Option<nat> {
    digits_value(encode_utf8(name))
}

/// Reads a name as a position, where it is a decimal number.
pub fn parse_index(name: &str) -> (r: Option<usize>)
    ensures
        match r {
            Some(n) => name_index(name@) == Some(n as nat),
            None => name_index(name@) is None,
        },
{
    let text = name.as_bytes();
    if text.len() == 0 {
        return None;
    }
    let (end, value) = scan_number(text, 0);
    proof {
        assert(text@.subrange(0, text@.len() as int) =~= text@);
    }
    if end == text.len() {
        value
    } else {
        None
    }
}

/// The characters that the bytes `s` stand for, one for one.
pub open spec fn ascii_chars(s: Seq<u8>) -> Seq<char> {
    Seq::new(s.len(), |i: int| s[i] as char)
}

/// The text `text[from..to]` as a string, one character for each byte.
pub fn to_name(text: &[u8], from: usize, to: usize) -> (name: String)
    requires
        from <= to <= text@.len(),
    ensures
        name@ == ascii_chars(text@.subrange(from as int, to as int)),
{
    let mut name = String::new();
    let mut i: usize = from;
    while i < to
        invariant
            from <= i <= to <= text@.len(),
            name@ == ascii_chars(text@.subrange(from as int, i as int)),
        decreases to - i,
    {
        name.push(text[i] as char);
        proof {
            assert(name@ =~= ascii_chars(text@.subrange(from as int, i + 1)));
        }
        i = i + 1;
    }
    proof {
        assert(name@ =~= ascii_chars(text@.subrange(from as int, to as int)));
    }
    name
}

/// A copy of `text[from..to]`.
pub fn copy_range(text: &[u8], from: usize, to: usize) -> (v: Vec<u8>)
    requires
        from <= to <= text@.len(),
    ensures
        v@ == text@.subrange(from as int, to as int),
{
    let mut v: Vec<u8> = Vec::new();
    let mut i: usize = from;
    while i < to
        invariant
            from <= i <= to <= text@.len(),
            v@ == text@.subrange(from as int, i as int),
        decreases to - i,
    {
        v.push(text[i]);
        proof {
            assert(v@ =~= text@.subrange(from as int, i + 1));
        }
        i = i + 1;
    }
    v
}

} // verus!
