//! The bit-pattern language: literal bit runs and named ranges, written most
//! significant first, with an optional list of renames behind them.

use vstd::prelude::*;
use vstd::string::StringSliceAdditionalSpecFns;
use crate::literal::{Literal, literal_bytes};
use crate::text::{
    CLOSE, COLON, COMMA, CharClass, EQUALS, HYPHEN, OPEN, ascii_chars, copy_range, decimal,
    digits_value, in_class, is_in_class, name_index, parse_index, run_end, scan, scan_number,
    to_name,
};

verus! {

/// A reference to `len` bits of a field, from bit `start` of the field on.
/// The field is given by `name`: a position where that is a decimal number,
/// else a symbolic name.
#[derive(Debug, PartialEq, Eq)]
pub struct Range {
    pub name: String,
    pub start: usize,
    pub len: usize,
}

/// One unit of a pattern.
#[derive(Debug, PartialEq, Eq)]
pub enum Token {
    Bits(Literal),
    Range(Range),
}

/// The identity of a field: its position, or its name.
#[derive(Debug, PartialEq, Eq, Clone, Hash)]
pub enum RawMappingValue {
    Index(usize),
    Name(String),
}

/// The identity of a field as a mathematical value.
pub enum FieldRef {
    Index(nat),
    Name(Seq<char>),
}

impl View for RawMappingValue {
    type V = FieldRef;

    open spec fn view(&self) -> FieldRef {
        match self {
            RawMappingValue::Index(i) => FieldRef::Index(*i as nat),
            RawMappingValue::Name(n) => FieldRef::Name(n@),
        }
    }
}

impl RawMappingValue {
    /// A copy of the value.
    pub fn duplicate(&self) -> (r: RawMappingValue)
        ensures
            r@ == self@,
    {
        match self {
            RawMappingValue::Index(i) => RawMappingValue::Index(*i),
            RawMappingValue::Name(n) => RawMappingValue::Name(n.clone()),
        }
    }

    /// Whether two values name the same field identity.
    pub fn same(&self, other: &RawMappingValue) -> (r: bool)
        ensures
            r == (self@ == other@),
    {
        match (self, other) {
            (RawMappingValue::Index(a), RawMappingValue::Index(b)) => *a == *b,
            (RawMappingValue::Name(a), RawMappingValue::Name(b)) => *a == *b,
            _ => false,
        }
    }
}

/// The field identity that a range's name stands for by itself: a position
/// where the name is a decimal number, else the name.
pub open spec fn key_of(name: Seq<char>) -> FieldRef {
    match name_index(name) {
        Some(n) => FieldRef::Index(n),
        None => FieldRef::Name(name),
    }
}

/// Reads a range's name as a field identity.
pub fn key_for(name: &String) -> (r: RawMappingValue)
    ensures
        r@ == key_of(name@),
{
    match parse_index(name.as_str()) {
        Some(n) => RawMappingValue::Index(n),
        None => RawMappingValue::Name(name.clone()),
    }
}

/// What a token says, as a mathematical value: the text of a literal, or a
/// range.
pub enum TokenView {
    Bits { text: Seq<u8> },
    Range { name: Seq<char>, start: nat, len: nat },
}

/// The number of bits that a token stands for.
pub open spec fn width_of(t: Token) -> nat {
    match t {
        Token::Bits(l) => l.bits as nat,
        Token::Range(r) => r.len as nat,
    }
}

pub open spec fn view_width(t: TokenView) -> nat {
    match t {
        TokenView::Bits { text } => text.len(),
        TokenView::Range { len, .. } => len,
    }
}

/// The token `t` says `v`.
pub open spec fn token_is(t: Token, v: TokenView) -> bool {
    match (t, v) {
        (Token::Bits(l), TokenView::Bits { text }) => l.holds(text),
        (Token::Range(r), TokenView::Range { name, start, len }) => r.name@ == name && r.start
            == start && r.len == len,
        _ => false,
    }
}

/// A token as the lexer makes it: a literal of at least one bit with a byte
/// array of the right length, or a range of at least one bit that ends
/// within the machine word.
pub open spec fn token_well_formed(t: Token) -> bool {
    match t {
        Token::Bits(l) => l.bits >= 1 && l.well_formed(),
        Token::Range(r) => r.len >= 1 && r.start + r.len <= usize::MAX,
    }
}

/// The number of bits of the tokens from position `i` on.
pub open spec fn suffix_width(tokens: Seq<Token>, i: int) -> nat
    decreases tokens.len() - i,
{
    if 0 <= i < tokens.len() {
        width_of(tokens[i]) + suffix_width(tokens, i + 1)
    } else {
        0
    }
}

pub proof fn lemma_suffix_width_push(tokens: Seq<Token>, t: Token, i: int)
    requires
        0 <= i <= tokens.len(),
    ensures
        suffix_width(tokens.push(t), i) == suffix_width(tokens, i) + width_of(t),
    decreases tokens.len() - i,
{
    if i < tokens.len() {
        lemma_suffix_width_push(tokens, t, i + 1);
        assert(tokens.push(t)[i] == tokens[i]);
    } else {
        assert(suffix_width(tokens.push(t), i + 1) == 0);
    }
}

/// What the lexer finds at a position: a token and where it ends, or no
/// token, and where the text stopped matching.
pub enum Lexed {
    Token { token: TokenView, end: int },
    Bad { stop: int },
}

/// The range that starts at position `i` of `s`, where an opening bracket
/// stands: `[name:a]`, one bit, or `[name:a-b]` with `a <= b`, the bits from
/// `a` up to and with `b`.
pub open spec fn lex_range(s: Seq<u8>, i: int) -> Lexed {
    let n_end = run_end(s, i + 1, CharClass::Name);
    if n_end == i + 1 || n_end >= s.len() || s[n_end] != COLON {
        Lexed::Bad { stop: n_end }
    } else {
        let a_end = run_end(s, n_end + 1, CharClass::Digit);
        let a = decimal(s.subrange(n_end + 1, a_end));
        let name = ascii_chars(s.subrange(i + 1, n_end));
        if a_end == n_end + 1 || a_end >= s.len() || a >= usize::MAX {
            Lexed::Bad { stop: a_end }
        } else if s[a_end] == CLOSE {
            Lexed::Token { token: TokenView::Range { name, start: a, len: 1 }, end: a_end + 1 }
        } else if s[a_end] == HYPHEN {
            let b_end = run_end(s, a_end + 1, CharClass::Digit);
            let b = decimal(s.subrange(a_end + 1, b_end));
            if b_end == a_end + 1 || b_end >= s.len() || s[b_end] != CLOSE || b >= usize::MAX || b
                < a {
                Lexed::Bad { stop: b_end }
            } else {
                Lexed::Token {
                    token: TokenView::Range { name, start: a, len: (b - a + 1) as nat },
                    end: b_end + 1,
                }
            }
        } else {
            Lexed::Bad { stop: a_end }
        }
    }
}

/// The token that starts at position `i` of `s`: the longest run of `0` and
/// `1`, or a range in brackets.
pub open spec fn lex_token(s: Seq<u8>, i: int) -> Lexed {
    if in_class(CharClass::Bit, s[i]) {
        let end = run_end(s, i, CharClass::Bit);
        Lexed::Token { token: TokenView::Bits { text: s.subrange(i, end) }, end }
    } else if s[i] == OPEN {
        lex_range(s, i)
    } else {
        Lexed::Bad { stop: i }
    }
}

/// Reads the range whose opening bracket stands at position `i`: the range
/// and its end, or the position at which the text stopped matching.
pub fn parse_range(text: &[u8], i: usize) -> (r: Result<(Range, usize), usize>)
    requires
        i < text@.len(),
        text@[i as int] == OPEN,
    ensures
        match r {
            Ok((range, end)) => lex_range(text@, i as int) matches Lexed::Token { token, end: e }
                && e == end && token_is(Token::Range(range), token) && token_well_formed(
                Token::Range(range),
            ) && i < end <= text@.len(),
            Err(stop) => lex_range(text@, i as int) matches Lexed::Bad { stop: s } && s == stop
                && i <= stop <= text@.len(),
        },
{
    let total: usize = text.len();
    let n_end = scan(text, i + 1, CharClass::Name);
    if n_end == i + 1 || n_end >= total || text[n_end] != COLON {
        return Err(n_end);
    }
    let (a_end, a) = scan_number(text, n_end + 1);
    if a_end == n_end + 1 || a_end >= total {
        return Err(a_end);
    }
    let start: usize = match a {
        Some(n) => n,
        None => {
            return Err(a_end);
        },
    };
    if start == usize::MAX {
        return Err(a_end);
    }
    if text[a_end] == CLOSE {
        let name = to_name(text, i + 1, n_end);
        return Ok((Range { name, start, len: 1 }, a_end + 1));
    }
    if text[a_end] != HYPHEN {
        return Err(a_end);
    }
    let (b_end, b) = scan_number(text, a_end + 1);
    if b_end == a_end + 1 || b_end >= total || text[b_end] != CLOSE {
        return Err(b_end);
    }
    let last: usize = match b {
        Some(n) => n,
        None => {
            return Err(b_end);
        },
    };
    if last == usize::MAX || last < start {
        return Err(b_end);
    }
    let name = to_name(text, i + 1, n_end);
    Ok((Range { name, start, len: last - start + 1 }, b_end + 1))
}

/// Reads the token that starts at position `i`: the token and its end, or
/// the position at which the text stopped matching.
pub fn read_token(text: &[u8], i: usize) -> (r: Result<(Token, usize), usize>)
    requires
        i < text@.len(),
    ensures
        match r {
            Ok((t, end)) => lex_token(text@, i as int) matches Lexed::Token { token, end: e }
                && e == end && token_is(t, token) && token_well_formed(t) && i < end
                <= text@.len() && width_of(t) == view_width(token),
            Err(stop) => lex_token(text@, i as int) matches Lexed::Bad { stop: s } && s == stop
                && i <= stop <= text@.len(),
        },
{
    if is_in_class(CharClass::Bit, text[i]) {
        let end = scan(text, i + 1, CharClass::Bit);
        let literal = Literal { bytes: literal_bytes(text, i, end), bits: end - i };
        return Ok((Token::Bits(literal), end));
    }
    if text[i] != OPEN {
        return Err(i);
    }
    match parse_range(text, i) {
        Ok((range, end)) => Ok((Token::Range(range), end)),
        Err(stop) => Err(stop),
    }
}

/// What the lexer makes of a whole text: the tokens and where they end, or
/// the position of the token that failed and where it stopped matching.
pub enum LexOutcome {
    Done { tokens: Seq<TokenView>, end: int },
    Failed { offset: int, stop: int },
}

/// The tokens of `s` from position `i` on, behind the tokens `acc` of
/// `width` bits in all. The tokens end with the text or, where
/// `stop_at_comma` holds, before the first comma; their total width stays
/// within the machine word.
pub open spec fn lex_tokens(
    s: Seq<u8>,
    i: int,
    acc: Seq<TokenView>,
    width: nat,
    stop_at_comma: bool,
) -> LexOutcome
    decreases s.len() - i,
{
    if i < 0 || i >= s.len() {
        LexOutcome::Done { tokens: acc, end: i }
    } else if stop_at_comma && s[i] == COMMA {
        LexOutcome::Done { tokens: acc, end: i }
    } else {
        match lex_token(s, i) {
            Lexed::Bad { stop } => LexOutcome::Failed { offset: i, stop },
            Lexed::Token { token, end } => {
                if end <= i || end > s.len() || width + view_width(token) > usize::MAX {
                    LexOutcome::Failed { offset: i, stop: end - 1 }
                } else {
                    lex_tokens(s, end, acc.push(token), width + view_width(token), stop_at_comma)
                }
            },
        }
    }
}

/// A malformed pattern: the byte offset of the token that failed, and the
/// text from there up to and with the character that did not match.
#[derive(Debug, PartialEq, Eq)]
pub struct ParseError {
    pub offset: usize,
    pub slice: Vec<u8>,
}

/// The error for a failure at `offset` that stopped matching at `stop`.
pub open spec fn is_parse_error(e: ParseError, s: Seq<u8>, offset: int, stop: int) -> bool {
    &&& e.offset == offset
    &&& e.slice@ == s.subrange(
        offset,
        if stop + 1 <= s.len() {
            stop + 1
        } else {
            s.len() as int
        },
    )
}

fn parse_error(text: &[u8], offset: usize, stop: usize) -> (e: ParseError)
    requires
        offset <= stop <= text@.len(),
    ensures
        is_parse_error(e, text@, offset as int, stop as int),
{
    let end: usize = if stop < text.len() {
        stop + 1
    } else {
        text.len()
    };
    ParseError { offset, slice: copy_range(text, offset, end) }
}

/// The tokens say, one for one, what `views` lists.
pub open spec fn tokens_are(tokens: Seq<Token>, views: Seq<TokenView>) -> bool {
    &&& tokens.len() == views.len()
    &&& forall|j: int| 0 <= j < tokens.len() ==> token_is(#[trigger] tokens[j], views[j])
}

/// Every token is well formed, and their total width is within the machine
/// word.
pub open spec fn tokens_well_formed(tokens: Seq<Token>) -> bool {
    &&& forall|j: int| 0 <= j < tokens.len() ==> token_well_formed(#[trigger] tokens[j])
    &&& suffix_width(tokens, 0) <= usize::MAX
}

/// Reads the tokens of `text` from its start on.
pub fn read_tokens(text: &[u8], stop_at_comma: bool) -> (r: Result<(Vec<Token>, usize), ParseError>)
    ensures
        match r {
            Ok((tokens, end)) => lex_tokens(text@, 0, Seq::empty(), 0, stop_at_comma)
                matches LexOutcome::Done { tokens: views, end: e } && e == end && tokens_are(
                tokens@,
                views,
            ) && tokens_well_formed(tokens@) && end <= text@.len() && (end < text@.len()
                ==> stop_at_comma && text@[end as int] == COMMA),
            Err(e) => lex_tokens(text@, 0, Seq::empty(), 0, stop_at_comma)
                matches LexOutcome::Failed { offset, stop } && is_parse_error(
                e,
                text@,
                offset,
                stop,
            ),
        },
{
    let mut tokens: Vec<Token> = Vec::new();
    let ghost mut views: Seq<TokenView> = Seq::empty();
    let mut width: usize = 0;
    let mut i: usize = 0;
    while i < text.len() && !(stop_at_comma && text[i] == COMMA)
        invariant
            i <= text@.len(),
            lex_tokens(text@, 0, Seq::empty(), 0, stop_at_comma) == lex_tokens(
                text@,
                i as int,
                views,
                width as nat,
                stop_at_comma,
            ),
            tokens_are(tokens@, views),
            forall|j: int| 0 <= j < tokens@.len() ==> token_well_formed(#[trigger] tokens@[j]),
            suffix_width(tokens@, 0) == width,
        decreases text@.len() - i,
    {
        match read_token(text, i) {
            Err(stop) => {
                return Err(parse_error(text, i, stop));
            },
            Ok((token, end)) => {
                let w: usize = match &token {
                    Token::Bits(l) => l.bits,
                    Token::Range(r) => r.len,
                };
                if w > usize::MAX - width {
                    return Err(parse_error(text, i, end - 1));
                }
                proof {
                    lemma_suffix_width_push(tokens@, token, 0);
                    views = views.push(lex_token(text@, i as int)->token);
                }
                tokens.push(token);
                width = width + w;
                i = end;
            },
        }
    }
    Ok((tokens, i))
}

/// What the renames behind the tokens come to: the list of them, or the
/// position of the clause that failed and where it stopped matching.
pub enum RenameOutcome {
    Done { renames: Seq<(Seq<char>, FieldRef)> },
    Failed { offset: int, stop: int },
}

/// The rename clauses of `s` from position `i` on, behind the clauses `acc`.
/// A clause is a comma, a new name that does not start with a digit, `=`,
/// and a field: a position or a name. Spaces may stand around each part.
pub open spec fn lex_renames(s: Seq<u8>, i: int, acc: Seq<(Seq<char>, FieldRef)>) -> RenameOutcome
    decreases s.len() - i,
{
    if i < 0 || i >= s.len() {
        RenameOutcome::Done { renames: acc }
    } else if s[i] != COMMA {
        RenameOutcome::Failed { offset: i, stop: i }
    } else {
        let n0 = run_end(s, i + 1, CharClass::Space);
        let n1 = run_end(s, n0, CharClass::Name);
        let e0 = run_end(s, n1, CharClass::Space);
        let v0 = run_end(s, e0 + 1, CharClass::Space);
        let v1 = run_end(s, v0, CharClass::Name);
        let d1 = run_end(s, v0, CharClass::Digit);
        let next = run_end(s, v1, CharClass::Space);
        let word = s.subrange(v0, v1);
        if n1 == n0 || in_class(CharClass::Digit, s[n0]) {
            RenameOutcome::Failed { offset: i, stop: n1 }
        } else if e0 >= s.len() || s[e0] != EQUALS {
            RenameOutcome::Failed { offset: i, stop: e0 }
        } else if v1 == v0 || (in_class(CharClass::Digit, s[v0]) && (d1 != v1 || decimal(word)
            > usize::MAX)) {
            RenameOutcome::Failed { offset: i, stop: v1 }
        } else if next <= i || next > s.len() || (next < s.len() && s[next] != COMMA) {
            RenameOutcome::Failed { offset: i, stop: next }
        } else {
            lex_renames(
                s,
                next,
                acc.push(
                    (
                        ascii_chars(s.subrange(n0, n1)),
                        if in_class(CharClass::Digit, s[v0]) {
                            FieldRef::Index(decimal(word))
                        } else {
                            FieldRef::Name(ascii_chars(word))
                        },
                    ),
                ),
            )
        }
    }
}

/// The renames say, one for one, what `views` lists.
pub open spec fn renames_are(
    renames: Seq<(String, RawMappingValue)>,
    views: Seq<(Seq<char>, FieldRef)>,
) -> bool {
    &&& renames.len() == views.len()
    &&& forall|j: int|
        0 <= j < renames.len() ==> (#[trigger] renames[j]).0@ == views[j].0 && renames[j].1@
            == views[j].1
}

/// Reads the rename clauses of `text` from position `i` on.
pub fn read_renames(text: &[u8], i: usize) -> (r: Result<Vec<(String, RawMappingValue)>, ParseError>)
    requires
        i <= text@.len(),
    ensures
        match r {
            Ok(renames) => lex_renames(text@, i as int, Seq::empty())
                matches RenameOutcome::Done { renames: views } && renames_are(renames@, views),
            Err(e) => lex_renames(text@, i as int, Seq::empty())
                matches RenameOutcome::Failed { offset, stop } && is_parse_error(
                e,
                text@,
                offset,
                stop,
            ),
        },
{
    let mut renames: Vec<(String, RawMappingValue)> = Vec::new();
    let ghost mut views: Seq<(Seq<char>, FieldRef)> = Seq::empty();
    let mut at: usize = i;
    while at < text.len()
        invariant
            at <= text@.len(),
            lex_renames(text@, i as int, Seq::empty()) == lex_renames(text@, at as int, views),
            renames_are(renames@, views),
        decreases text@.len() - at,
    {
        if text[at] != COMMA {
            return Err(parse_error(text, at, at));
        }
        let n0 = scan(text, at + 1, CharClass::Space);
        let n1 = scan(text, n0, CharClass::Name);
        if n1 == n0 || is_in_class(CharClass::Digit, text[n0]) {
            return Err(parse_error(text, at, n1));
        }
        let e0 = scan(text, n1, CharClass::Space);
        if e0 >= text.len() || text[e0] != EQUALS {
            return Err(parse_error(text, at, e0));
        }
        let v0 = scan(text, e0 + 1, CharClass::Space);
        let v1 = scan(text, v0, CharClass::Name);
        if v1 == v0 {
            return Err(parse_error(text, at, v1));
        }
        let target = if is_in_class(CharClass::Digit, text[v0]) {
            let (d1, value) = scan_number(text, v0);
            if d1 != v1 {
                return Err(parse_error(text, at, v1));
            }
            match value {
                Some(n) => RawMappingValue::Index(n),
                None => {
                    return Err(parse_error(text, at, v1));
                },
            }
        } else {
            RawMappingValue::Name(to_name(text, v0, v1))
        };
        let next = scan(text, v1, CharClass::Space);
        if next < text.len() && text[next] != COMMA {
            return Err(parse_error(text, at, next));
        }
        let name = to_name(text, n0, n1);
        proof {
            views = views.push((name@, target@));
        }
        renames.push((name, target));
        at = next;
    }
    Ok(renames)
}

/// A parsed pattern: its tokens in the order of the text, the leftmost one
/// standing for the most significant bits, and its renames, each a new name
/// with the field that it stands for.
#[derive(Debug)]
pub struct BitPattern {
    pub tokens: Vec<Token>,
    pub renames: Vec<(String, RawMappingValue)>,
}

/// What parsing the text `s` comes to, with rename clauses behind the tokens
/// or without them.
pub open spec fn parse_outcome(r: Result<BitPattern, ParseError>, s: Seq<u8>, with_renames: bool) -> bool {
    match lex_tokens(s, 0, Seq::empty(), 0, with_renames) {
        LexOutcome::Failed { offset, stop } => r is Err && is_parse_error(
            r->Err_0,
            s,
            offset,
            stop,
        ),
        LexOutcome::Done { tokens, end } => match (if with_renames {
            lex_renames(s, end, Seq::empty())
        } else {
            RenameOutcome::Done { renames: Seq::empty() }
        }) {
            RenameOutcome::Failed { offset, stop } => r is Err && is_parse_error(
                r->Err_0,
                s,
                offset,
                stop,
            ),
            RenameOutcome::Done { renames } => {
                &&& r is Ok
                &&& tokens_are(r->Ok_0.tokens@, tokens)
                &&& renames_are(r->Ok_0.renames@, renames)
                &&& r->Ok_0.well_formed()
            },
        },
    }
}

/// The field that the last rename of `name` gives, if there is one.
pub open spec fn renamed(renames: Seq<(String, RawMappingValue)>, name: Seq<char>) -> Option<
    FieldRef,
>
    decreases renames.len(),
{
    if renames.len() == 0 {
        None
    } else if renames.last().0@ == name {
        Some(renames.last().1@)
    } else {
        renamed(renames.drop_last(), name)
    }
}

/// The field that a range named `name` refers to: a position where the name
/// is a decimal number, else what the name is renamed to, else the name.
pub open spec fn target(renames: Seq<(String, RawMappingValue)>, name: Seq<char>) -> FieldRef {
    match name_index(name) {
        Some(n) => FieldRef::Index(n),
        None => match renamed(renames, name) {
            Some(v) => v,
            None => FieldRef::Name(name),
        },
    }
}

/// The field that the token at position `t` refers to, where it is a range.
pub open spec fn range_target(
    tokens: Seq<Token>,
    renames: Seq<(String, RawMappingValue)>,
    t: int,
) -> Option<FieldRef> {
    match tokens[t] {
        Token::Range(r) => Some(target(renames, r.name@)),
        Token::Bits(_) => None,
    }
}

/// One of the first `upto` tokens is a range that refers to `v`.
pub open spec fn refers(
    tokens: Seq<Token>,
    renames: Seq<(String, RawMappingValue)>,
    v: FieldRef,
    upto: int,
) -> bool {
    exists|t: int| 0 <= t < upto && #[trigger] range_target(tokens, renames, t) == Some(v)
}

/// The list holds `v`.
pub open spec fn listed(values: Seq<RawMappingValue>, v: FieldRef) -> bool {
    exists|j: int| 0 <= j < values.len() && (#[trigger] values[j])@ == v
}

/// No field identity occurs twice in the list.
pub open spec fn distinct(values: Seq<RawMappingValue>) -> bool {
    forall|a: int, b: int|
        0 <= a < b < values.len() ==> (#[trigger] values[a])@ != (#[trigger] values[b])@
}

impl BitPattern {
    /// The tokens are well formed and their total width is within the machine
    /// word.
    pub open spec fn well_formed(&self) -> bool {
        tokens_well_formed(self.tokens@)
    }

    /// The total width of the pattern in bits.
    pub open spec fn width(&self) -> nat {
        suffix_width(self.tokens@, 0)
    }

    /// Parses pattern text: the tokens and, behind them, the rename clauses.
    pub fn parse(text: &str) -> (r: Result<BitPattern, ParseError>)
        ensures
            parse_outcome(r, text.spec_bytes(), true),
    {
        let bytes = text.as_bytes();
        match read_tokens(bytes, true) {
            Err(e) => Err(e),
            Ok((tokens, end)) => match read_renames(bytes, end) {
                Err(e) => Err(e),
                Ok(renames) => Ok(BitPattern { tokens, renames }),
            },
        }
    }

    /// The total width of the pattern in bits.
    pub fn bits(&self) -> (r: usize)
        requires
            self.well_formed(),
        ensures
            r == self.width(),
    {
        let mut bits: usize = 0;
        let mut i: usize = 0;
        while i < self.tokens.len()
            invariant
                i <= self.tokens@.len(),
                self.well_formed(),
                bits + suffix_width(self.tokens@, i as int) == suffix_width(self.tokens@, 0),
            decreases self.tokens@.len() - i,
        {
            let w: usize = match &self.tokens[i] {
                Token::Bits(literal) => literal.bits,
                Token::Range(range) => range.len,
            };
            bits = bits + w;
            i = i + 1;
        }
        bits
    }

    /// The field that the last rename of `name` gives, if there is one.
    pub fn rename_of(&self, name: &String) -> (r: Option<RawMappingValue>)
        ensures
            match r {
                Some(v) => renamed(self.renames@, name@) == Some(v@),
                None => renamed(self.renames@, name@) is None,
            },
    {
        let mut i: usize = self.renames.len();
        proof {
            assert(self.renames@.take(i as int) =~= self.renames@);
        }
        while i > 0
            invariant
                i <= self.renames@.len(),
                renamed(self.renames@, name@) == renamed(self.renames@.take(i as int), name@),
            decreases i,
        {
            proof {
                assert(self.renames@.take(i as int).drop_last() =~= self.renames@.take(i - 1));
                assert(self.renames@.take(i as int).last() == self.renames@[i - 1]);
            }
            if self.renames[i - 1].0 == *name {
                return Some(self.renames[i - 1].1.duplicate());
            }
            i = i - 1;
        }
        None
    }

    /// The field that a range named `name` refers to.
    pub fn target_of(&self, name: &String) -> (r: RawMappingValue)
        ensures
            r@ == target(self.renames@, name@),
    {
        match parse_index(name.as_str()) {
            Some(n) => RawMappingValue::Index(n),
            None => match self.rename_of(name) {
                Some(v) => v,
                None => RawMappingValue::Name(name.clone()),
            },
        }
    }

    /// The fields that the ranges of the pattern refer to, renames followed,
    /// each listed once.
    pub fn referenced_values(&self) -> (values: Vec<RawMappingValue>)
        ensures
            distinct(values@),
            forall|v: FieldRef|
                #[trigger] listed(values@, v) <==> refers(
                    self.tokens@,
                    self.renames@,
                    v,
                    self.tokens@.len() as int,
                ),
    {
        let mut values: Vec<RawMappingValue> = Vec::new();
        let mut i: usize = 0;
        while i < self.tokens.len()
            invariant
                i <= self.tokens@.len(),
                distinct(values@),
                forall|v: FieldRef|
                    #[trigger] listed(values@, v) <==> refers(
                        self.tokens@,
                        self.renames@,
                        v,
                        i as int,
                    ),
            decreases self.tokens@.len() - i,
        {
            let ghost before = values@;
            match &self.tokens[i] {
                Token::Range(range) => {
                    let value = self.target_of(&range.name);
                    let mut found = false;
                    let mut j: usize = 0;
                    while j < values.len()
                        invariant
                            j <= values@.len(),
                            values@ == before,
                            found <==> exists|m: int| 0 <= m < j && (#[trigger] values@[m])@ == value@,
                        decreases values@.len() - j,
                    {
                        if values[j].same(&value) {
                            found = true;
                        }
                        j = j + 1;
                    }
                    if !found {
                        values.push(value);
                    }
                    proof {
                        let tv = value@;
                        assert(range_target(self.tokens@, self.renames@, i as int) == Some(tv));
                        assert forall|v: FieldRef| #[trigger]
                            listed(values@, v) <==> refers(
                                self.tokens@,
                                self.renames@,
                                v,
                                i + 1,
                            ) by {
                            if listed(values@, v) {
                                let m = choose|m: int|
                                    0 <= m < values@.len() && (#[trigger] values@[m])@ == v;
                                if m < before.len() {
                                    assert(before[m]@ == v);
                                    assert(listed(before, v));
                                    let t = choose|t: int|
                                        0 <= t < i && #[trigger] range_target(
                                            self.tokens@,
                                            self.renames@,
                                            t,
                                        ) == Some(v);
                                    assert(0 <= t < i + 1);
                                } else {
                                    assert(v == tv);
                                }
                            }
                            if refers(self.tokens@, self.renames@, v, i + 1) {
                                let t = choose|t: int|
                                    0 <= t < i + 1 && #[trigger] range_target(
                                        self.tokens@,
                                        self.renames@,
                                        t,
                                    ) == Some(v);
                                if t < i {
                                    assert(refers(self.tokens@, self.renames@, v, i as int));
                                    assert(listed(before, v));
                                    let m = choose|m: int|
                                        0 <= m < before.len() && (#[trigger] before[m])@ == v;
                                    assert(values@[m]@ == v);
                                } else {
                                    assert(v == tv);
                                    if found {
                                        let m = choose|m: int|
                                            0 <= m < before.len() && (#[trigger] before[m])@
                                                == tv;
                                        assert(values@[m]@ == v);
                                    } else {
                                        assert(values@[before.len() as int]@ == v);
                                    }
                                }
                            }
                        }
                    }
                },
                Token::Bits(_) => {
                    proof {
                        assert(range_target(self.tokens@, self.renames@, i as int) is None);
                        assert forall|v: FieldRef| #[trigger]
                            listed(values@, v) <==> refers(
                                self.tokens@,
                                self.renames@,
                                v,
                                i + 1,
                            ) by {
                            if refers(self.tokens@, self.renames@, v, i + 1) {
                                let t = choose|t: int|
                                    0 <= t < i + 1 && #[trigger] range_target(
                                        self.tokens@,
                                        self.renames@,
                                        t,
                                    ) == Some(v);
                                assert(t < i);
                                assert(refers(self.tokens@, self.renames@, v, i as int));
                            }
                            if refers(self.tokens@, self.renames@, v, i as int) {
                                let t = choose|t: int|
                                    0 <= t < i && #[trigger] range_target(
                                        self.tokens@,
                                        self.renames@,
                                        t,
                                    ) == Some(v);
                                assert(0 <= t < i + 1);
                            }
                        }
                    }
                },
            }
            i = i + 1;
        }
        values
    }
}

/// Parses the tokens of a pattern; the text holds tokens and nothing else.
pub fn parse_bit_pattern(pattern: &str) -> (r: Result<BitPattern, ParseError>)
    ensures
        parse_outcome(r, pattern.spec_bytes(), false),
{
    let bytes = pattern.as_bytes();
    match read_tokens(bytes, false) {
        Err(e) => Err(e),
        Ok((tokens, _)) => Ok(BitPattern { tokens, renames: Vec::new() }),
    }
}

} // verus!
