//! A value laid out by a pattern: a plan with the fields that it reads, as
//! a source of bits.

use vstd::prelude::*;
use vstd::string::StringSliceAdditionalSpecFns;
use crate::binding::{BindError, Binding, bind, bind_outcome};
use crate::error::{Error, cause_of, root_cause};
use crate::pattern::{BitPattern, ParseError, parse_outcome};
use crate::plan::{
    WritePlan, compile, compiled, request_readable, value_bit, value_written, write_value,
};
use crate::sink::{BitSink, BitSource};

verus! {

/// A value of a host type together with the plan of its layout: the fields
/// of the value, in the order of the host type, each as a source of bits.
#[derive(Debug)]
pub struct Packed<F: BitSource> {
    plan: WritePlan,
    fields: Vec<F>,
    label: String,
}

/// Why a layout cannot be made of a pattern text and a list of fields.
#[derive(Debug, PartialEq, Eq)]
pub enum LayoutError {
    /// There are `names` field names for `values` field values.
    FieldCount { names: usize, values: usize },
    /// The pattern text is malformed.
    Parse(ParseError),
    /// The pattern does not fit the fields.
    Bind(BindError),
}

impl<F: BitSource> Packed<F> {
    #[verifier::type_invariant]
    spec fn plan_fits_fields(self) -> bool {
        self.plan.well_formed() && self.plan.fields_within(self.fields@.len() as int)
    }

    /// The plan of the layout.
    pub closed spec fn layout(&self) -> WritePlan {
        self.plan
    }

    /// The fields of the value.
    pub closed spec fn values(&self) -> Seq<F> {
        self.fields@
    }

    /// The name of the host type.
    pub closed spec fn name(&self) -> Seq<char> {
        self.label@
    }

    /// A value with the given plan and fields.
    pub fn new(plan: WritePlan, fields: Vec<F>, label: &str) -> (p: Packed<F>)
        requires
            plan.well_formed(),
            plan.fields_within(fields@.len() as int),
        ensures
            p.layout() == plan,
            p.values() == fields@,
            p.name() == label@,
    {
        Packed { plan, fields, label: label.to_owned() }
    }

    /// Lays a value out by a pattern text: parses the text, binds the pattern
    /// to the names of the fields, compiles the plan and attaches the
    /// fields' values.
    pub fn from_pattern(text: &str, names: Vec<Option<String>>, fields: Vec<F>, label: &str) -> (r:
        Result<Packed<F>, LayoutError>)
        ensures
            match r {
                Err(LayoutError::FieldCount { names: n, values: v }) => n == names@.len() && v
                    == fields@.len() && n != v,
                Err(LayoutError::Parse(e)) => names@.len() == fields@.len() && parse_outcome(
                    Err(e),
                    text.spec_bytes(),
                    true,
                ),
                Err(LayoutError::Bind(e)) => names@.len() == fields@.len() && exists|
                    pattern: BitPattern,
                |
                    parse_outcome(Ok(pattern), text.spec_bytes(), true) && #[trigger] bind_outcome(
                        Err(e),
                        &pattern,
                        names@,
                    ),
                Ok(p) => names@.len() == fields@.len() && p.values() == fields@ && p.name()
                    == label@ && exists|pattern: BitPattern, binding: Binding|
                    parse_outcome(Ok(pattern), text.spec_bytes(), true) && bind_outcome(
                        Ok(binding),
                        &pattern,
                        names@,
                    ) && #[trigger] compiled(p.layout(), &pattern, &binding),
            },
    {
        if names.len() != fields.len() {
            return Err(LayoutError::FieldCount { names: names.len(), values: fields.len() });
        }
        let ghost listed = names@;
        let pattern = match BitPattern::parse(text) {
            Ok(p) => p,
            Err(e) => {
                return Err(LayoutError::Parse(e));
            },
        };
        let binding = match bind(&pattern, names) {
            Ok(b) => b,
            Err(e) => {
                assert(bind_outcome(Err(e), &pattern, listed));
                return Err(LayoutError::Bind(e));
            },
        };
        let plan = compile(&pattern, &binding);
        let packed = Packed { plan, fields, label: label.to_owned() };
        assert(compiled(packed.layout(), &pattern, &binding));
        Ok(packed)
    }

    /// The plan of the layout.
    pub fn plan(&self) -> (plan: &WritePlan)
        ensures
            *plan == self.layout(),
            plan.well_formed(),
            plan.fields_within(self.values().len() as int),
    {
        proof {
            use_type_invariant(self);
        }
        &self.plan
    }
}

impl<F: BitSource> BitSource for Packed<F> {
    open spec fn bit_count(&self) -> nat {
        self.layout().bits as nat
    }

    open spec fn source_bit(&self, k: int) -> bool {
        value_bit(self.layout().entries@, self.values(), k)
    }

    open spec fn readable(&self, start: int, len: int) -> bool {
        start + len <= self.layout().bits && request_readable(
            self.layout().entries@,
            self.values(),
            start,
            len,
        )
    }

    fn write<S: BitSink>(&self, sink: &mut S, start: usize, len: usize, pos: usize) -> (r: Result<
        usize,
        Error,
    >)
        ensures
            value_written(
                self.layout(),
                self.values(),
                self.name(),
                *old(sink),
                *final(sink),
                r,
                start as int,
                len as int,
                pos as int,
            ),
    {
        proof {
            use_type_invariant(self);
        }
        let r = write_value(&self.plan, &self.fields, self.label.as_str(), sink, start, len, pos);
        proof {
            if r is Err {
                assert(root_cause(r->Err_0) == root_cause(cause_of(r->Err_0)));
            }
        }
        r
    }

    fn size(&self) -> (r: usize)
    {
        self.plan.bits
    }
}

/// The layouts of a tagged union: one plan for each variant, in the order
/// of the variants. The variant that a value holds selects the plan that
/// its fields are written by.
#[derive(Debug)]
pub struct Variants {
    pub plans: Vec<WritePlan>,
    pub label: String,
}

impl Variants {
    /// Every plan is well formed.
    pub open spec fn well_formed(&self) -> bool {
        forall|v: int| 0 <= v < self.plans@.len() ==> (#[trigger] self.plans@[v]).well_formed()
    }

    /// The number of bits of a value of the given variant.
    pub fn size(&self, variant: usize) -> (r: usize)
        requires
            variant < self.plans@.len(),
        ensures
            r == self.plans@[variant as int].bits,
    {
        self.plans[variant].bits
    }

    /// Writes the `len` bits from `start` on of a value of the given variant,
    /// whose fields are `fields`, to the offsets of `sink` from `pos` on.
    pub fn write<F: BitSource, S: BitSink>(
        &self,
        variant: usize,
        fields: &Vec<F>,
        sink: &mut S,
        start: usize,
        len: usize,
        pos: usize,
    ) -> (r: Result<usize, Error>)
        requires
            self.well_formed(),
            variant < self.plans@.len(),
            self.plans@[variant as int].fields_within(fields@.len() as int),
            start + len <= usize::MAX,
            pos + len <= usize::MAX,
        ensures
            value_written(
                self.plans@[variant as int],
                fields@,
                self.label@,
                *old(sink),
                *final(sink),
                r,
                start as int,
                len as int,
                pos as int,
            ),
    {
        write_value(&self.plans[variant], fields, self.label.as_str(), sink, start, len, pos)
    }
}

} // verus!
