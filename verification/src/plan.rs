//! The write plan of a bound pattern, and the interpreter that executes a
//! requested range of it against a sink.

use vstd::prelude::*;
use vstd::pervasive::unreached;
use crate::binding::{Binding, asked, bind_outcome, rename_resolution};
use crate::bits::{Endianness, bit_at};
use crate::error::{Error, cause_of, is_input_error, is_output_error, root_cause};
use crate::literal::bytes_for;
use crate::pattern::{
    BitPattern, Range, Token, key_for, key_of, suffix_width, token_well_formed, width_of,
};
use crate::sink::{BitSink, BitSource, fits};
use crate::text::{copy_range, name_index};

verus! {

/// What a plan entry writes: the bits of a literal, or the bits of the field
/// at position `field`, from bit `offset` of the field on.
#[derive(Debug, PartialEq, Eq)]
pub enum Payload {
    Literal(Vec<u8>),
    Field { field: usize, offset: usize },
}

/// One step of a plan: the `len` bits of the whole value from bit `start` on
/// come from `payload`.
#[derive(Debug, PartialEq, Eq)]
pub struct PlanEntry {
    pub start: usize,
    pub len: usize,
    pub payload: Payload,
}

/// The compiled form of a bound pattern: its entries in the order of their
/// bits, the least significant first, and the number of bits of the whole.
#[derive(Debug, PartialEq, Eq)]
pub struct WritePlan {
    pub entries: Vec<PlanEntry>,
    pub bits: usize,
}

/// An entry covers at least one bit, ends within the machine word, and holds
/// a literal of the right length or a range of a field that ends within the
/// machine word.
pub open spec fn entry_well_formed(e: PlanEntry) -> bool {
    &&& e.len >= 1
    &&& e.start + e.len <= usize::MAX
    &&& match e.payload {
        Payload::Literal(bytes) => bytes@.len() == bytes_for(e.len as int),
        Payload::Field { field, offset } => offset + e.len <= usize::MAX,
    }
}

/// Where the entry at position `i` starts; the number of bits of the whole
/// behind the last entry.
pub open spec fn start_of(entries: Seq<PlanEntry>, bits: int, i: int) -> int {
    if 0 <= i < entries.len() {
        entries[i].start as int
    } else {
        bits
    }
}

impl WritePlan {
    /// The entries are well formed and lie end to end from bit 0 up to the
    /// number of bits of the whole.
    pub open spec fn well_formed(&self) -> bool {
        &&& forall|i: int| 0 <= i < self.entries@.len() ==> entry_well_formed(#[trigger] self.entries@[i])
        &&& start_of(self.entries@, self.bits as int, 0) == 0
        &&& forall|i: int|
            0 <= i < self.entries@.len() ==> (#[trigger] self.entries@[i]).start
                + self.entries@[i].len == start_of(self.entries@, self.bits as int, i + 1)
    }

    /// Every field that the plan reads is one of the first `count` fields.
    pub open spec fn fields_within(&self, count: int) -> bool {
        forall|i: int|
            0 <= i < self.entries@.len() ==> ((#[trigger] self.entries@[i]).payload
                matches Payload::Field { field, .. } ==> field < count)
    }

    /// The number of bits of the whole value.
    pub fn size(&self) -> (r: usize)
        ensures
            r == self.bits,
    {
        self.bits
    }
}

/// The entry `e` is the one that the token `t` compiles to at bit `start`
/// under `binding`.
pub open spec fn entry_for(e: PlanEntry, t: Token, binding: &Binding, start: int) -> bool {
    &&& e.start == start
    &&& e.len == width_of(t)
    &&& match t {
        Token::Bits(l) => e.payload matches Payload::Literal(bytes) && bytes@ == l.bytes@,
        Token::Range(r) => e.payload matches Payload::Field { field, offset } && binding.get(
            key_of(r.name@),
        ) == Some(field as nat) && offset == r.start,
    }
}

/// `plan` is what `pattern` compiles to under `binding`: one entry for each
/// token, in the reverse of their order; each entry starts where the bits of
/// the tokens behind its own end, and the whole has the width of the
/// pattern.
pub open spec fn compiled(plan: WritePlan, pattern: &BitPattern, binding: &Binding) -> bool {
    &&& plan.well_formed()
    &&& plan.fields_within(binding.fields@.len() as int)
    &&& plan.bits == pattern.width()
    &&& plan.entries@.len() == pattern.tokens@.len()
    &&& forall|m: int|
        0 <= m < plan.entries@.len() ==> entry_for(
            #[trigger] plan.entries@[m],
            pattern.tokens@[pattern.tokens@.len() - 1 - m],
            binding,
            suffix_width(pattern.tokens@, pattern.tokens@.len() - m) as int,
        )
}

pub proof fn lemma_suffix_width_bound(tokens: Seq<Token>, i: int)
    requires
        0 <= i,
    ensures
        suffix_width(tokens, i) <= suffix_width(tokens, 0),
    decreases i,
{
    if i > 0 {
        lemma_suffix_width_bound(tokens, i - 1);
    }
}

/// Compiles a bound pattern to its plan: the tokens are walked from the last
/// one to the first one, and each takes the bits behind those of the tokens
/// that follow it in the text.
pub fn compile(pattern: &BitPattern, binding: &Binding) -> (plan: WritePlan)
    requires
        pattern.well_formed(),
        binding.well_formed(),
        binding.covers(pattern),
    ensures
        compiled(plan, pattern, binding),
{
    let ghost tokens = pattern.tokens@;
    let count: usize = pattern.tokens.len();
    let mut entries: Vec<PlanEntry> = Vec::new();
    let mut cursor: usize = 0;
    let mut i: usize = count;
    while i > 0
        invariant
            i <= count,
            count == tokens.len(),
            tokens == pattern.tokens@,
            pattern.well_formed(),
            binding.well_formed(),
            binding.covers(pattern),
            cursor == suffix_width(tokens, i as int),
            entries@.len() == count - i,
            forall|m: int|
                0 <= m < entries@.len() ==> entry_for(
                    #[trigger] entries@[m],
                    tokens[count - 1 - m],
                    binding,
                    suffix_width(tokens, count - m) as int,
                ),
            forall|m: int| 0 <= m < entries@.len() ==> entry_well_formed(#[trigger] entries@[m]),
            forall|m: int|
                0 <= m < entries@.len() ==> ((#[trigger] entries@[m]).payload
                    matches Payload::Field { field, .. } ==> field < binding.fields@.len()),
        decreases i,
    {
        proof {
            lemma_suffix_width_bound(tokens, i - 1);
            assert(token_well_formed(tokens[i - 1]));
        }
        let (len, payload) = match &pattern.tokens[i - 1] {
            Token::Bits(literal) => (
                literal.bits,
                Payload::Literal(copy_range(literal.bytes.as_slice(), 0, literal.bytes.len())),
            ),
            Token::Range(range) => {
                let key = key_for(&range.name);
                assert(asked(tokens, i - 1) == Some(key@));
                let field: usize = match binding.resolve(&key) {
                    Some(p) => p,
                    None => unreached(),
                };
                (range.len, Payload::Field { field, offset: range.start })
            },
        };
        proof {
            if let Token::Bits(l) = tokens[i - 1] {
                assert(l.bytes@.subrange(0, l.bytes@.len() as int) =~= l.bytes@);
            }
        }
        entries.push(PlanEntry { start: cursor, len, payload });
        cursor = cursor + len;
        i = i - 1;
    }
    WritePlan { entries, bits: cursor }
}

/// The first entry from position `i` on that ends behind bit `g`.
pub open spec fn entry_index(entries: Seq<PlanEntry>, g: int, i: int) -> int
    decreases entries.len() - i,
{
    if 0 <= i < entries.len() && entries[i].start + entries[i].len <= g {
        entry_index(entries, g, i + 1)
    } else {
        i
    }
}

/// Bit `j` of what the entry `e` writes.
pub open spec fn entry_bit<F: BitSource>(e: PlanEntry, fields: Seq<F>, j: int) -> bool {
    match e.payload {
        Payload::Literal(bytes) => bit_at(bytes@, Endianness::LITTLE, j),
        Payload::Field { field, offset } => fields[field as int].source_bit(offset + j),
    }
}

/// Bit `g` of the whole value that a plan stands for, given its fields.
#[verifier::opaque]
pub open spec fn value_bit<F: BitSource>(entries: Seq<PlanEntry>, fields: Seq<F>, g: int) -> bool {
    let i = entry_index(entries, g, 0);
    entry_bit(entries[i], fields, g - entries[i].start)
}

/// Where the part of a request from bit `start` on that falls to the entry
/// `e` starts.
pub open spec fn part_start(e: PlanEntry, start: int) -> int {
    if start > e.start {
        start
    } else {
        e.start as int
    }
}

/// Where the part of a request of `len` bits from bit `start` on that falls
/// to the entry `e` ends.
pub open spec fn part_end(e: PlanEntry, start: int, len: int) -> int {
    if start + len < e.start + e.len {
        start + len
    } else {
        e.start + e.len
    }
}

/// Whether the fields can hand out what the entry at position `i` needs for
/// the request of `len` bits from bit `start` on: all of it where the entry
/// is a literal or lies outside the request, else the part of the field's
/// range that the request covers.
pub open spec fn overlap_readable<F: BitSource>(
    entries: Seq<PlanEntry>,
    fields: Seq<F>,
    i: int,
    start: int,
    len: int,
) -> bool {
    let e = entries[i];
    let from = part_start(e, start);
    let to = part_end(e, start, len);
    from < to ==> entry_readable(e, fields, from - e.start, to - from)
}

/// Whether the entry at position `i` can write its part of the request to a
/// sink of the given capacity, the request going to the offsets from `pos`
/// on: the fields can hand the part out, and it fits in the sink.
pub open spec fn part_writable<F: BitSource>(
    entries: Seq<PlanEntry>,
    fields: Seq<F>,
    capacity: Option<nat>,
    i: int,
    start: int,
    len: int,
    pos: int,
) -> bool {
    let e = entries[i];
    let from = part_start(e, start);
    let to = part_end(e, start, len);
    from < to ==> entry_readable(e, fields, from - e.start, to - from) && fits(
        capacity,
        pos + (from - start),
        to - from,
    )
}

/// The walk failed at the entry at position `i` with `cause`: that entry is
/// the first that could not write its part; the parts of the entries before
/// it are written, and no bit behind its own part has changed. Where the
/// entry is a literal, the cause is the sink's range error.
pub open spec fn failed_at<F: BitSource, S: BitSink>(
    entries: Seq<PlanEntry>,
    fields: Seq<F>,
    pre: S,
    post: S,
    i: int,
    start: int,
    len: int,
    pos: int,
    cause: Error,
) -> bool {
    let e = entries[i];
    let from = part_start(e, start);
    let to = part_end(e, start, len);
    &&& 0 <= i < entries.len()
    &&& from < to
    &&& !part_writable(entries, fields, pre.capacity(), i, start, len, pos)
    &&& forall|j: int|
        0 <= j < i ==> #[trigger] part_writable(entries, fields, pre.capacity(), j, start, len, pos)
    &&& forall|k: int|
        pos <= k < pos + (from - start) ==> #[trigger] post.sink_bit(k) == value_bit(
            entries,
            fields,
            start + (k - pos),
        )
    &&& forall|k: int|
        !(pos <= k < pos + (to - start)) ==> #[trigger] post.sink_bit(k) == pre.sink_bit(k)
    &&& e.payload is Literal ==> is_output_error(
        cause,
        pre.sink_label(),
        to - from,
        pos + (from - start),
        pre.capacity()->0 as int,
    )
}

/// Whether the fields can hand out every bit that the request asks of them.
pub open spec fn request_readable<F: BitSource>(
    entries: Seq<PlanEntry>,
    fields: Seq<F>,
    start: int,
    len: int,
) -> bool {
    forall|i: int|
        0 <= i < entries.len() ==> #[trigger] overlap_readable(entries, fields, i, start, len)
}

proof fn lemma_entries_ordered(plan: &WritePlan, i: int, j: int)
    requires
        plan.well_formed(),
        0 <= i <= j <= plan.entries@.len(),
    ensures
        start_of(plan.entries@, plan.bits as int, i) <= start_of(plan.entries@, plan.bits as int, j),
    decreases j - i,
{
    if i < j {
        assert(entry_well_formed(plan.entries@[i]));
        lemma_entries_ordered(plan, i + 1, j);
    }
}

proof fn lemma_entry_index(plan: &WritePlan, i: int, g: int, from: int)
    requires
        plan.well_formed(),
        0 <= from <= i < plan.entries@.len(),
        plan.entries@[i].start <= g < plan.entries@[i].start + plan.entries@[i].len,
    ensures
        entry_index(plan.entries@, g, from) == i,
    decreases i - from,
{
    if from < i {
        lemma_entries_ordered(plan, from + 1, i);
        lemma_entry_index(plan, i, g, from + 1);
    }
}

/// Whether the fields can hand out the `n` bits of the entry `e` from its
/// bit `local` on.
pub open spec fn entry_readable<F: BitSource>(e: PlanEntry, fields: Seq<F>, local: int, n: int) -> bool {
    match e.payload {
        Payload::Literal(_) => true,
        Payload::Field { field, offset } => fields[field as int].readable(offset + local, n),
    }
}

/// Writes the `n` bits of one entry from its bit `local` on to the offsets
/// of `sink` from `at` on.
pub fn write_entry<F: BitSource, S: BitSink>(
    entry: &PlanEntry,
    fields: &Vec<F>,
    sink: &mut S,
    local: usize,
    n: usize,
    at: usize,
) -> (r: Result<usize, Error>)
    requires
        entry_well_formed(*entry),
        entry.payload matches Payload::Field { field, .. } ==> field < fields@.len(),
        n >= 1,
        local + n <= entry.len,
        at + n <= usize::MAX,
    ensures
        final(sink).capacity() == old(sink).capacity(),
        final(sink).sink_label() == old(sink).sink_label(),
        r is Ok <==> entry_readable(*entry, fields@, local as int, n as int) && fits(
            old(sink).capacity(),
            at as int,
            n as int,
        ),
        r is Ok ==> r == Ok::<usize, Error>(n),
        r is Err && entry_readable(*entry, fields@, local as int, n as int) ==> root_cause(
            r->Err_0,
        ) is OutputBitsOutOfRange,
        r is Err && entry.payload is Literal ==> is_output_error(
            r->Err_0,
            old(sink).sink_label(),
            n as int,
            at as int,
            old(sink).capacity()->0 as int,
        ),
        forall|k: int|
            !(at <= k < at + n) ==> #[trigger] final(sink).sink_bit(k) == old(sink).sink_bit(k),
        r is Ok ==> forall|k: int|
            at <= k < at + n ==> #[trigger] final(sink).sink_bit(k) == entry_bit(
                *entry,
                fields@,
                local + (k - at),
            ),
{
    match &entry.payload {
        Payload::Literal(bytes) => sink.write(bytes.as_slice(), local, n, at, Endianness::LITTLE),
        Payload::Field { field, offset } => fields[*field].write(sink, *offset + local, n, at),
    }
}

/// Within an entry, a bit of the whole value is the entry's bit.
pub proof fn lemma_value_bit<F: BitSource>(plan: &WritePlan, fields: Seq<F>, i: int, g: int)
    requires
        plan.well_formed(),
        0 <= i < plan.entries@.len(),
        plan.entries@[i].start <= g < plan.entries@[i].start + plan.entries@[i].len,
    ensures
        value_bit(plan.entries@, fields, g) == entry_bit(
            plan.entries@[i],
            fields,
            g - plan.entries@[i].start,
        ),
{
    reveal(value_bit);
    lemma_entry_index(plan, i, g, 0);
}

/// The part of a request that falls to the entry at position `i`, seen from
/// the walk: the walk stands at bit `cur`, at the start of the request or of
/// the entry, and `n` bits are left of the entry or of the request.
proof fn lemma_part(entries: Seq<PlanEntry>, i: int, start: int, len: int, cur: int, n: int)
    requires
        0 <= i < entries.len(),
        start <= cur < start + len,
        entries[i].start <= cur < entries[i].start + entries[i].len,
        cur == start || cur == entries[i].start,
        n == (if start + len - cur < entries[i].start + entries[i].len - cur {
            start + len - cur
        } else {
            entries[i].start + entries[i].len - cur
        }),
    ensures
        part_start(entries[i], start) == cur,
        part_end(entries[i], start, len) == cur + n,
{
}

/// `e` reports that writing the bits `[start, end]` of the value `source` at
/// offset `pos` of a sink of the given capacity failed.
pub open spec fn is_failed_write(
    e: Error,
    source: Seq<char>,
    start: int,
    end: int,
    pos: int,
    capacity: Option<nat>,
) -> bool {
    match e {
        Error::WriteFailed { source: s, start: a, end: b, pos: c, capacity: d, .. } => {
            &&& s@ == source
            &&& a == start
            &&& b == end
            &&& c == pos
            &&& match d {
                Some(n) => capacity == Some(n as nat),
                None => capacity is None,
            }
        },
        _ => false,
    }
}

/// Writes the `len` bits of the planned value from bit `start` on to the
/// offsets of `sink` from `pos` on: each entry that the request overlaps
/// writes its part, in the order of the plan. The first failure ends the
/// walk; what earlier entries wrote stays written.
pub fn execute<F: BitSource, S: BitSink>(
    plan: &WritePlan,
    fields: &Vec<F>,
    label: &str,
    sink: &mut S,
    start: usize,
    len: usize,
    pos: usize,
) -> (r: Result<usize, Error>)
    requires
        plan.well_formed(),
        plan.fields_within(fields@.len() as int),
        start + len <= plan.bits,
        pos + len <= usize::MAX,
    ensures
        final(sink).capacity() == old(sink).capacity(),
        final(sink).sink_label() == old(sink).sink_label(),
        r is Ok <==> len == 0 || (request_readable(plan.entries@, fields@, start as int, len as int)
            && fits(old(sink).capacity(), pos as int, len as int)),
        r is Ok ==> r == Ok::<usize, Error>(len),
        r is Err ==> is_failed_write(
            r->Err_0,
            label@,
            start as int,
            start + len - 1,
            pos as int,
            old(sink).capacity(),
        ),
        r is Err && request_readable(plan.entries@, fields@, start as int, len as int)
            ==> root_cause(r->Err_0) is OutputBitsOutOfRange,
        r is Err ==> exists|i: int| #[trigger]
            failed_at(
                plan.entries@,
                fields@,
                *old(sink),
                *final(sink),
                i,
                start as int,
                len as int,
                pos as int,
                cause_of(r->Err_0),
            ),
        forall|k: int|
            !(pos <= k < pos + len) ==> #[trigger] final(sink).sink_bit(k) == old(sink).sink_bit(k),
        r is Ok ==> forall|k: int|
            pos <= k < pos + len ==> #[trigger] final(sink).sink_bit(k) == value_bit(
                plan.entries@,
                fields@,
                start + (k - pos),
            ),
{
    if len == 0 {
        return Ok(0);
    }
    let ghost entries = plan.entries@;
    let ghost bits = plan.bits as int;
    let mut i: usize = 0;
    let mut cur: usize = start;
    let mut at: usize = pos;
    let mut left: usize = len;
    let mut written: usize = 0;
    while i < plan.entries.len() && left > 0
        invariant
            plan.well_formed(),
            plan.fields_within(fields@.len() as int),
            entries == plan.entries@,
            bits == plan.bits,
            start + len <= bits,
            pos + len <= usize::MAX,
            len > 0,
            i <= entries.len(),
            written + left == len,
            cur == start + written,
            at == pos + written,
            left > 0 ==> cur >= start_of(entries, bits, i as int),
            written > 0 ==> cur <= start_of(entries, bits, i as int),
            written > 0 ==> fits(old(sink).capacity(), pos as int, written as int),
            sink.capacity() == old(sink).capacity(),
            sink.sink_label() == old(sink).sink_label(),
            forall|j: int|
                0 <= j < i ==> #[trigger] part_writable(
                    entries,
                    fields@,
                    old(sink).capacity(),
                    j,
                    start as int,
                    len as int,
                    pos as int,
                ),
            forall|k: int|
                !(pos <= k < pos + written) ==> #[trigger] sink.sink_bit(k) == old(sink).sink_bit(
                    k,
                ),
            forall|k: int|
                pos <= k < pos + written ==> #[trigger] sink.sink_bit(k) == value_bit(
                    entries,
                    fields@,
                    start + (k - pos),
                ),
        decreases entries.len() - i,
    {
        let entry = &plan.entries[i];
        assert(entry_well_formed(entries[i as int]));
        let entry_end: usize = entry.start + entry.len;
        if cur < entry_end {
            let available: usize = entry_end - cur;
            let n: usize = if left < available {
                left
            } else {
                available
            };
            let local: usize = cur - entry.start;
            let ghost before = *sink;
            let outcome = write_entry(entry, fields, sink, local, n, at);
            proof {
                lemma_part(entries, i as int, start as int, len as int, cur as int, n as int);
            }
            match outcome {
                Err(cause) => {
                    let capacity = sink.size();
                    let e = cause.write_failed(label, start, start + len - 1, pos, capacity);
                    proof {
                        assert(!part_writable(
                            entries,
                            fields@,
                            old(sink).capacity(),
                            i as int,
                            start as int,
                            len as int,
                            pos as int,
                        ));
                        assert forall|k: int| !(pos <= k < pos + written + n) implies #[trigger]
                            sink.sink_bit(k) == old(sink).sink_bit(k) by {
                            assert(before.sink_bit(k) == old(sink).sink_bit(k));
                        }
                        assert forall|k: int| pos <= k < pos + written implies #[trigger]
                            sink.sink_bit(k) == value_bit(entries, fields@, start + (k - pos)) by {
                            assert(before.sink_bit(k) == value_bit(
                                entries,
                                fields@,
                                start + (k - pos),
                            ));
                        }
                        assert(failed_at(
                            entries,
                            fields@,
                            *old(sink),
                            *sink,
                            i as int,
                            start as int,
                            len as int,
                            pos as int,
                            cause_of(e),
                        ));
                        if request_readable(entries, fields@, start as int, len as int) {
                            assert(overlap_readable(
                                entries,
                                fields@,
                                i as int,
                                start as int,
                                len as int,
                            ));
                        }
                    }
                    return Err(e);
                },
                Ok(_) => {
                    proof {
                        assert(part_writable(
                            entries,
                            fields@,
                            old(sink).capacity(),
                            i as int,
                            start as int,
                            len as int,
                            pos as int,
                        ));
                        assert forall|k: int| pos <= k < pos + written + n implies #[trigger]
                            sink.sink_bit(k) == value_bit(entries, fields@, start + (k - pos)) by {
                            if k >= at {
                                lemma_value_bit(plan, fields@, i as int, start + (k - pos));
                            } else {
                                assert(before.sink_bit(k) == value_bit(
                                    entries,
                                    fields@,
                                    start + (k - pos),
                                ));
                            }
                        }
                        assert forall|k: int| !(pos <= k < pos + written + n) implies #[trigger]
                            sink.sink_bit(k) == old(sink).sink_bit(k) by {
                            assert(before.sink_bit(k) == old(sink).sink_bit(k));
                        }
                    }
                    cur = cur + n;
                    at = at + n;
                    left = left - n;
                    written = written + n;
                },
            }
        }
        i = i + 1;
    }
    proof {
        assert forall|j: int| 0 <= j < entries.len() implies #[trigger] overlap_readable(
            entries,
            fields@,
            j,
            start as int,
            len as int,
        ) by {
            if j >= i {
                lemma_entries_ordered(plan, i as int, j);
            } else {
                assert(part_writable(
                    entries,
                    fields@,
                    old(sink).capacity(),
                    j,
                    start as int,
                    len as int,
                    pos as int,
                ));
            }
        }
    }
    Ok(written)
}

/// What writing the `len` bits of a planned value from bit `start` on to the
/// offsets of a sink from `pos` on comes to. A request for no bits writes
/// nothing and succeeds. A request beyond the end of the value is refused
/// before anything is written. Else the request succeeds where the fields
/// can hand out every bit asked of them and the bits fit in the sink, and
/// the sink then holds them; where not, the walk fails at the first entry
/// that cannot write its part. Bits of the sink outside the requested range
/// never change.
pub open spec fn value_written<F: BitSource, S: BitSink>(
    plan: WritePlan,
    fields: Seq<F>,
    label: Seq<char>,
    pre: S,
    post: S,
    r: Result<usize, Error>,
    start: int,
    len: int,
    pos: int,
) -> bool {
    &&& post.capacity() == pre.capacity()
    &&& post.sink_label() == pre.sink_label()
    &&& forall|k: int| !(pos <= k < pos + len) ==> #[trigger] post.sink_bit(k) == pre.sink_bit(k)
    &&& if len == 0 {
        r == Ok::<usize, Error>(0)
    } else if start + len > plan.bits {
        &&& r is Err
        &&& is_failed_write(r->Err_0, label, start, start + len - 1, pos, pre.capacity())
        &&& is_input_error(
            cause_of(r->Err_0),
            label,
            start,
            start + len - 1,
            0,
            if plan.bits == 0 {
                0int
            } else {
                plan.bits - 1
            },
        )
        &&& forall|k: int| #[trigger] post.sink_bit(k) == pre.sink_bit(k)
    } else if request_readable(plan.entries@, fields, start, len) && fits(
        pre.capacity(),
        pos,
        len,
    ) {
        &&& r == Ok::<usize, Error>(len as usize)
        &&& forall|k: int|
            pos <= k < pos + len ==> #[trigger] post.sink_bit(k) == value_bit(
                plan.entries@,
                fields,
                start + (k - pos),
            )
    } else {
        &&& r is Err
        &&& is_failed_write(r->Err_0, label, start, start + len - 1, pos, pre.capacity())
        &&& request_readable(plan.entries@, fields, start, len) ==> root_cause(
            r->Err_0,
        ) is OutputBitsOutOfRange
        &&& exists|i: int| #[trigger]
            failed_at(plan.entries@, fields, pre, post, i, start, len, pos, cause_of(r->Err_0))
    }
}

/// Writes the `len` bits of a planned value from bit `start` on to the
/// offsets of `sink` from `pos` on, after checking the request against the
/// size of the value.
pub fn write_value<F: BitSource, S: BitSink>(
    plan: &WritePlan,
    fields: &Vec<F>,
    label: &str,
    sink: &mut S,
    start: usize,
    len: usize,
    pos: usize,
) -> (r: Result<usize, Error>)
    requires
        plan.well_formed(),
        plan.fields_within(fields@.len() as int),
        start + len <= usize::MAX,
        pos + len <= usize::MAX,
    ensures
        value_written(
            *plan,
            fields@,
            label@,
            *old(sink),
            *final(sink),
            r,
            start as int,
            len as int,
            pos as int,
        ),
{
    if len == 0 {
        return Ok(0);
    }
    let size: usize = plan.bits;
    if start > size || len > size - start {
        let capacity = sink.size();
        let last: usize = if size == 0 {
            0
        } else {
            size - 1
        };
        let cause = Error::input_bits_out_of_range(label, start, start + len - 1, 0, last);
        return Err(cause.write_failed(label, start, start + len - 1, pos, capacity));
    }
    execute(plan, fields, label, sink, start, len, pos)
}

/// A range that refers to the new name of a rename compiles to the entry
/// that a range of the same bits compiles to which refers to the rename's
/// target directly. The new name is not a decimal number: such a name
/// stands for a position, whatever is renamed to it.
pub proof fn renamed_range_compiles_alike(
    pattern: &BitPattern,
    fields: Seq<Option<String>>,
    binding: Binding,
    j: int,
    renamed: Range,
    direct: Range,
    entry: PlanEntry,
    start: int,
)
    requires
        bind_outcome(Ok(binding), pattern, fields),
        0 <= j < pattern.renames@.len(),
        renamed.name@ == pattern.renames@[j].0@,
        name_index(renamed.name@) is None,
        key_of(direct.name@) == pattern.renames@[j].1@,
        renamed.start == direct.start,
        renamed.len == direct.len,
    ensures
        entry_for(entry, Token::Range(renamed), &binding, start) == entry_for(
            entry,
            Token::Range(direct),
            &binding,
            start,
        ),
{
    rename_resolution(pattern, fields, binding, j);
}

/// The plan of a bound pattern has the width of the pattern, and a write of
/// the whole value succeeds exactly where the fields can hand out every bit
/// asked of them and the value fits in the sink; it then writes as many bits
/// as the pattern is wide.
pub proof fn whole_value_written<F: BitSource, S: BitSink>(
    pattern: &BitPattern,
    binding: &Binding,
    plan: WritePlan,
    fields: Seq<F>,
    label: Seq<char>,
    pre: S,
    post: S,
    r: Result<usize, Error>,
    pos: int,
)
    requires
        compiled(plan, pattern, binding),
        value_written(plan, fields, label, pre, post, r, 0, plan.bits as int, pos),
    ensures
        plan.bits == pattern.width(),
        r is Ok <==> pattern.width() == 0 || (request_readable(
            plan.entries@,
            fields,
            0,
            pattern.width() as int,
        ) && fits(pre.capacity(), pos, pattern.width() as int)),
        r is Ok ==> r == Ok::<usize, Error>(pattern.width() as usize),
{
}

} // verus!
