//! Binding a pattern to the fields of a host type: every field reference of
//! the pattern is resolved to the position of a field.

use vstd::prelude::*;
use vstd::pervasive::unreached;
use crate::pattern::{BitPattern, FieldRef, RawMappingValue, Token, key_for, key_of};

verus! {

/// The position of the last field that is named `name`.
pub open spec fn field_named(fields: Seq<Option<String>>, name: Seq<char>) -> Option<nat>
    decreases fields.len(),
{
    if fields.len() == 0 {
        None
    } else if fields.last() matches Some(n) && n@ == name {
        Some((fields.len() - 1) as nat)
    } else {
        field_named(fields.drop_last(), name)
    }
}

/// The field that a field identity denotes by itself: a position denotes the
/// unnamed field at that position, a name the field of that name.
pub open spec fn base(fields: Seq<Option<String>>, key: FieldRef) -> Option<nat> {
    match key {
        FieldRef::Index(i) => if i < fields.len() && fields[i as int] is None {
            Some(i)
        } else {
            None
        },
        FieldRef::Name(n) => field_named(fields, n),
    }
}

/// The field that `name` denotes once the renames `renames` are merged in, in
/// their order: a field's own name stands, and so does the first rename of a
/// name.
pub open spec fn mapped(
    fields: Seq<Option<String>>,
    renames: Seq<(String, RawMappingValue)>,
    name: Seq<char>,
) -> Option<nat>
    decreases renames.len(),
{
    if renames.len() == 0 {
        base(fields, FieldRef::Name(name))
    } else {
        match mapped(fields, renames.drop_last(), name) {
            Some(p) => Some(p),
            None => if renames.last().0@ == name {
                base(fields, renames.last().1@)
            } else {
                None
            },
        }
    }
}

/// The field that a field identity denotes under the renames.
pub open spec fn bound(
    fields: Seq<Option<String>>,
    renames: Seq<(String, RawMappingValue)>,
    key: FieldRef,
) -> Option<nat> {
    match key {
        FieldRef::Index(_) => base(fields, key),
        FieldRef::Name(n) => mapped(fields, renames, n),
    }
}

/// The rename at position `j` points at an existing field.
pub open spec fn rename_valid(
    fields: Seq<Option<String>>,
    renames: Seq<(String, RawMappingValue)>,
    j: int,
) -> bool {
    base(fields, renames[j].1@) is Some
}

/// The rename at position `j` gives its name to the field that the name
/// already denotes, if it denotes one.
pub open spec fn rename_agrees(
    fields: Seq<Option<String>>,
    renames: Seq<(String, RawMappingValue)>,
    j: int,
) -> bool {
    mapped(fields, renames.take(j), renames[j].0@) is Some ==> mapped(
        fields,
        renames.take(j),
        renames[j].0@,
    ) == base(fields, renames[j].1@)
}

/// The field identity that the token at position `t` asks for, where the
/// token is a range.
pub open spec fn asked(tokens: Seq<Token>, t: int) -> Option<FieldRef> {
    match tokens[t] {
        Token::Range(r) => Some(key_of(r.name@)),
        Token::Bits(_) => None,
    }
}

/// The token at position `t` is a literal, or a range whose field the
/// renames and fields resolve.
pub open spec fn token_resolved(
    fields: Seq<Option<String>>,
    renames: Seq<(String, RawMappingValue)>,
    tokens: Seq<Token>,
    t: int,
) -> bool {
    asked(tokens, t) matches Some(key) ==> bound(fields, renames, key) is Some
}

/// Why a pattern cannot be bound to a list of fields.
#[derive(Debug, PartialEq, Eq)]
pub enum BindError {
    /// The rename `new_name = field` points at no field.
    NotAField { new_name: String, field: RawMappingValue },
    /// The name `new_name` already denotes the field at `position`, and the
    /// rename gives it to another.
    AlreadyMapped { new_name: String, position: usize },
    /// A range of the pattern refers to `field`, which nothing resolves.
    Unresolved { field: RawMappingValue },
}

/// The resolved association of field identities with field positions: the
/// fields of the host type, and the names that renames have added.
#[derive(Debug)]
pub struct Binding {
    pub fields: Vec<Option<String>>,
    pub aliases: Vec<(String, usize)>,
}

/// The field that the last alias of `name` gives.
pub open spec fn alias_of(aliases: Seq<(String, usize)>, name: Seq<char>) -> Option<nat>
    decreases aliases.len(),
{
    if aliases.len() == 0 {
        None
    } else if aliases.last().0@ == name {
        Some(aliases.last().1 as nat)
    } else {
        alias_of(aliases.drop_last(), name)
    }
}

/// Finds the last field that is named `name`.
pub fn find_field(fields: &Vec<Option<String>>, name: &String) -> (r: Option<usize>)
    ensures
        match r {
            Some(p) => field_named(fields@, name@) == Some(p as nat) && p < fields@.len(),
            None => field_named(fields@, name@) is None,
        },
{
    let mut i: usize = fields.len();
    proof {
        assert(fields@.take(i as int) =~= fields@);
    }
    while i > 0
        invariant
            i <= fields@.len(),
            field_named(fields@, name@) == field_named(fields@.take(i as int), name@),
        decreases i,
    {
        proof {
            assert(fields@.take(i as int).drop_last() =~= fields@.take(i - 1));
            assert(fields@.take(i as int).last() == fields@[i - 1]);
        }
        let hit = match &fields[i - 1] {
            Some(n) => *n == *name,
            None => false,
        };
        if hit {
            return Some(i - 1);
        }
        i = i - 1;
    }
    None
}

/// Finds the field that a field identity denotes by itself.
pub fn find_base(fields: &Vec<Option<String>>, key: &RawMappingValue) -> (r: Option<usize>)
    ensures
        match r {
            Some(p) => base(fields@, key@) == Some(p as nat) && p < fields@.len(),
            None => base(fields@, key@) is None,
        },
{
    match key {
        RawMappingValue::Index(i) => {
            if *i < fields.len() && fields[*i].is_none() {
                Some(*i)
            } else {
                None
            }
        },
        RawMappingValue::Name(n) => find_field(fields, n),
    }
}

/// The field that `key` denotes: by itself, or through an alias.
pub open spec fn lookup(
    fields: Seq<Option<String>>,
    aliases: Seq<(String, usize)>,
    key: FieldRef,
) -> Option<nat> {
    match base(fields, key) {
        Some(p) => Some(p),
        None => match key {
            FieldRef::Name(n) => alias_of(aliases, n),
            FieldRef::Index(_) => None,
        },
    }
}

/// Every alias points at a field.
pub open spec fn aliases_within(aliases: Seq<(String, usize)>, count: int) -> bool {
    forall|j: int| 0 <= j < aliases.len() ==> (#[trigger] aliases[j]).1 < count
}

/// Finds the last alias of `name`.
pub fn find_alias(aliases: &Vec<(String, usize)>, name: &String) -> (r: Option<usize>)
    ensures
        match r {
            Some(p) => alias_of(aliases@, name@) == Some(p as nat) && exists|j: int|
                0 <= j < aliases@.len() && (#[trigger] aliases@[j]).1 == p,
            None => alias_of(aliases@, name@) is None,
        },
{
    let mut i: usize = aliases.len();
    proof {
        assert(aliases@.take(i as int) =~= aliases@);
    }
    while i > 0
        invariant
            i <= aliases@.len(),
            alias_of(aliases@, name@) == alias_of(aliases@.take(i as int), name@),
        decreases i,
    {
        proof {
            assert(aliases@.take(i as int).drop_last() =~= aliases@.take(i - 1));
            assert(aliases@.take(i as int).last() == aliases@[i - 1]);
        }
        if aliases[i - 1].0 == *name {
            let position: usize = aliases[i - 1].1;
            assert(aliases@[i - 1].1 == position);
            return Some(position);
        }
        i = i - 1;
    }
    None
}

/// Finds the field that `key` denotes: by itself, or through an alias.
pub fn find(fields: &Vec<Option<String>>, aliases: &Vec<(String, usize)>, key: &RawMappingValue) -> (r:
    Option<usize>)
    requires
        aliases_within(aliases@, fields@.len() as int),
    ensures
        match r {
            Some(p) => lookup(fields@, aliases@, key@) == Some(p as nat) && p < fields@.len(),
            None => lookup(fields@, aliases@, key@) is None,
        },
{
    match find_base(fields, key) {
        Some(p) => Some(p),
        None => match key {
            RawMappingValue::Index(_) => None,
            RawMappingValue::Name(n) => find_alias(aliases, n),
        },
    }
}

impl Binding {
    /// Every alias points at a field.
    pub open spec fn well_formed(&self) -> bool {
        aliases_within(self.aliases@, self.fields@.len() as int)
    }

    /// The field that `key` is bound to.
    pub open spec fn get(&self, key: FieldRef) -> Option<nat> {
        lookup(self.fields@, self.aliases@, key)
    }

    /// Every range of the pattern refers to a field that is bound.
    pub open spec fn covers(&self, pattern: &BitPattern) -> bool {
        forall|t: int|
            0 <= t < pattern.tokens@.len() ==> (#[trigger] asked(pattern.tokens@, t)
                matches Some(key) ==> self.get(key) is Some)
    }

    /// The field that `key` is bound to.
    pub fn resolve(&self, key: &RawMappingValue) -> (r: Option<usize>)
        requires
            self.well_formed(),
        ensures
            match r {
                Some(p) => self.get(key@) == Some(p as nat) && p < self.fields@.len(),
                None => self.get(key@) is None,
            },
    {
        find(&self.fields, &self.aliases, key)
    }
}

/// What binding `pattern` to `fields` comes to. The renames are checked
/// first, each against the fields; then merged, in their order; then every
/// range of the pattern is resolved. The first failure is the one reported.
pub open spec fn bind_outcome(
    r: Result<Binding, BindError>,
    pattern: &BitPattern,
    fields: Seq<Option<String>>,
) -> bool {
    let renames = pattern.renames@;
    let tokens = pattern.tokens@;
    match r {
        Err(BindError::NotAField { new_name, field }) => exists|j: int|
            {
                &&& 0 <= j < renames.len()
                &&& !#[trigger] rename_valid(fields, renames, j)
                &&& forall|i: int| 0 <= i < j ==> #[trigger] rename_valid(fields, renames, i)
                &&& new_name@ == renames[j].0@
                &&& field@ == renames[j].1@
            },
        Err(BindError::AlreadyMapped { new_name, position }) => {
            &&& forall|i: int| 0 <= i < renames.len() ==> #[trigger] rename_valid(fields, renames, i)
            &&& exists|j: int|
                {
                    &&& 0 <= j < renames.len()
                    &&& !#[trigger] rename_agrees(fields, renames, j)
                    &&& forall|i: int| 0 <= i < j ==> #[trigger] rename_agrees(fields, renames, i)
                    &&& new_name@ == renames[j].0@
                    &&& mapped(fields, renames.take(j), renames[j].0@) == Some(position as nat)
                }
        },
        Err(BindError::Unresolved { field }) => {
            &&& forall|i: int| 0 <= i < renames.len() ==> #[trigger] rename_valid(fields, renames, i)
            &&& forall|i: int| 0 <= i < renames.len() ==> #[trigger] rename_agrees(fields, renames, i)
            &&& exists|t: int|
                {
                    &&& 0 <= t < tokens.len()
                    &&& !#[trigger] token_resolved(fields, renames, tokens, t)
                    &&& forall|i: int|
                        0 <= i < t ==> #[trigger] token_resolved(fields, renames, tokens, i)
                    &&& asked(tokens, t) == Some(field@)
                }
        },
        Ok(binding) => {
            &&& forall|i: int| 0 <= i < renames.len() ==> #[trigger] rename_valid(fields, renames, i)
            &&& forall|i: int| 0 <= i < renames.len() ==> #[trigger] rename_agrees(fields, renames, i)
            &&& forall|i: int|
                0 <= i < tokens.len() ==> #[trigger] token_resolved(fields, renames, tokens, i)
            &&& binding.fields@ == fields
            &&& binding.well_formed()
            &&& binding.covers(pattern)
            &&& forall|key: FieldRef| #[trigger] binding.get(key) == bound(fields, renames, key)
        },
    }
}

/// Binds a pattern to the fields of a host type, given in their order, each
/// with its name if it has one.
pub fn bind(pattern: &BitPattern, fields: Vec<Option<String>>) -> (r: Result<Binding, BindError>)
    ensures
        bind_outcome(r, pattern, fields@),
{
    let ghost renames = pattern.renames@;
    let ghost tokens = pattern.tokens@;
    let mut i: usize = 0;
    while i < pattern.renames.len()
        invariant
            i <= renames.len(),
            renames == pattern.renames@,
            forall|j: int| 0 <= j < i ==> #[trigger] rename_valid(fields@, renames, j),
        decreases renames.len() - i,
    {
        match find_base(&fields, &pattern.renames[i].1) {
            Some(_) => {},
            None => {
                let e = BindError::NotAField {
                    new_name: pattern.renames[i].0.clone(),
                    field: pattern.renames[i].1.duplicate(),
                };
                proof {
                    assert(!rename_valid(fields@, renames, i as int));
                }
                return Err(e);
            },
        }
        i = i + 1;
    }
    let ghost names = fields@;
    let mut aliases: Vec<(String, usize)> = Vec::new();
    proof {
        assert(renames.take(0) =~= Seq::empty());
    }
    let mut i: usize = 0;
    while i < pattern.renames.len()
        invariant
            i <= renames.len(),
            renames == pattern.renames@,
            names == fields@,
            aliases_within(aliases@, names.len() as int),
            forall|j: int| 0 <= j < renames.len() ==> #[trigger] rename_valid(names, renames, j),
            forall|j: int| 0 <= j < i ==> #[trigger] rename_agrees(names, renames, j),
            forall|n: Seq<char>| #[trigger]
                lookup(names, aliases@, FieldRef::Name(n)) == mapped(
                    names,
                    renames.take(i as int),
                    n,
                ),
        decreases renames.len() - i,
    {
        let key = RawMappingValue::Name(pattern.renames[i].0.clone());
        let ghost new_name = renames[i as int].0@;
        assert(rename_valid(names, renames, i as int));
        let position: usize = match find_base(&fields, &pattern.renames[i].1) {
            Some(p) => p,
            None => unreached(),
        };
        proof {
            assert(renames.take(i + 1).drop_last() =~= renames.take(i as int));
            assert(renames.take(i + 1).last() == renames[i as int]);
            assert(lookup(names, aliases@, FieldRef::Name(new_name)) == mapped(
                names,
                renames.take(i as int),
                new_name,
            ));
        }
        match find(&fields, &aliases, &key) {
            None => {
                let ghost before = aliases@;
                aliases.push((pattern.renames[i].0.clone(), position));
                proof {
                    assert(aliases@.drop_last() =~= before);
                    assert forall|n: Seq<char>| #[trigger]
                        lookup(names, aliases@, FieldRef::Name(n)) == mapped(
                            names,
                            renames.take(i + 1),
                            n,
                        ) by {
                        assert(lookup(names, before, FieldRef::Name(n)) == mapped(
                            names,
                            renames.take(i as int),
                            n,
                        ));
                    }
                }
            },
            Some(existing) => {
                if existing != position {
                    let e = BindError::AlreadyMapped {
                        new_name: pattern.renames[i].0.clone(),
                        position: existing,
                    };
                    proof {
                        assert(key@ == FieldRef::Name(new_name));
                        assert(mapped(names, renames.take(i as int), new_name) == Some(
                            existing as nat,
                        ));
                        assert(base(names, renames[i as int].1@) == Some(position as nat));
                        assert(!rename_agrees(names, renames, i as int));
                    }
                    return Err(e);
                }
                proof {
                    assert forall|n: Seq<char>| #[trigger]
                        lookup(names, aliases@, FieldRef::Name(n)) == mapped(
                            names,
                            renames.take(i + 1),
                            n,
                        ) by {
                        assert(lookup(names, aliases@, FieldRef::Name(n)) == mapped(
                            names,
                            renames.take(i as int),
                            n,
                        ));
                    }
                }
            },
        }
        i = i + 1;
    }
    proof {
        assert(renames.take(renames.len() as int) =~= renames);
        assert forall|key: FieldRef| #[trigger]
            lookup(names, aliases@, key) == bound(names, renames, key) by {
            match key {
                FieldRef::Index(_) => {},
                FieldRef::Name(n) => {
                    assert(lookup(names, aliases@, FieldRef::Name(n)) == mapped(names, renames, n));
                },
            }
        }
    }
    let mut t: usize = 0;
    while t < pattern.tokens.len()
        invariant
            t <= tokens.len(),
            tokens == pattern.tokens@,
            renames == pattern.renames@,
            names == fields@,
            aliases_within(aliases@, names.len() as int),
            forall|j: int| 0 <= j < renames.len() ==> #[trigger] rename_valid(names, renames, j),
            forall|j: int| 0 <= j < renames.len() ==> #[trigger] rename_agrees(names, renames, j),
            forall|key: FieldRef| #[trigger]
                lookup(names, aliases@, key) == bound(names, renames, key),
            forall|j: int| 0 <= j < t ==> #[trigger] token_resolved(names, renames, tokens, j),
        decreases tokens.len() - t,
    {
        match &pattern.tokens[t] {
            Token::Range(range) => {
                let key = key_for(&range.name);
                assert(asked(tokens, t as int) == Some(key@));
                match find(&fields, &aliases, &key) {
                    Some(_) => {},
                    None => {
                        proof {
                            assert(lookup(names, aliases@, key@) == bound(names, renames, key@));
                            assert(!token_resolved(names, renames, tokens, t as int));
                        }
                        return Err(BindError::Unresolved { field: key });
                    },
                }
            },
            Token::Bits(_) => {
                assert(asked(tokens, t as int) is None);
            },
        }
        t = t + 1;
    }
    let binding = Binding { fields, aliases };
    proof {
        assert forall|j: int| 0 <= j < tokens.len() implies (#[trigger] asked(tokens, j)
            matches Some(key) ==> binding.get(key) is Some) by {
            assert(token_resolved(names, renames, tokens, j));
        }
    }
    Ok(binding)
}

/// Once a name denotes a field, later renames leave it with that field.
pub proof fn lemma_mapped_stable(
    fields: Seq<Option<String>>,
    renames: Seq<(String, RawMappingValue)>,
    j: int,
    name: Seq<char>,
)
    requires
        0 <= j <= renames.len(),
        mapped(fields, renames.take(j), name) is Some,
    ensures
        mapped(fields, renames, name) == mapped(fields, renames.take(j), name),
    decreases renames.len() - j,
{
    if j < renames.len() {
        assert(renames.take(j + 1).drop_last() =~= renames.take(j));
        lemma_mapped_stable(fields, renames, j + 1, name);
    } else {
        assert(renames.take(j) =~= renames);
    }
}

/// In a binding, the new name of every rename denotes the field that the
/// rename points at: a range that refers to the new name is bound to the
/// same field as one that refers to the target directly.
pub proof fn rename_resolution(
    pattern: &BitPattern,
    fields: Seq<Option<String>>,
    binding: Binding,
    j: int,
)
    requires
        bind_outcome(Ok(binding), pattern, fields),
        0 <= j < pattern.renames@.len(),
    ensures
        binding.get(FieldRef::Name(pattern.renames@[j].0@)) is Some,
        binding.get(FieldRef::Name(pattern.renames@[j].0@)) == binding.get(pattern.renames@[j].1@),
{
    let renames = pattern.renames@;
    let name = renames[j].0@;
    let target = renames[j].1@;
    assert(rename_valid(fields, renames, j));
    assert(rename_agrees(fields, renames, j));
    assert(renames.take(j + 1).drop_last() =~= renames.take(j));
    assert(renames.take(j + 1).last() == renames[j]);
    assert(mapped(fields, renames.take(j + 1), name) == base(fields, target));
    lemma_mapped_stable(fields, renames, j + 1, name);
    assert(binding.get(FieldRef::Name(name)) == bound(fields, renames, FieldRef::Name(name)));
    assert(binding.get(target) == bound(fields, renames, target));
    match target {
        FieldRef::Index(_) => {},
        FieldRef::Name(n) => {
            assert(renames.take(0) =~= Seq::empty());
            lemma_mapped_stable(fields, renames, 0, n);
        },
    }
}

} // verus!
