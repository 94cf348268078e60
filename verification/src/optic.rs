//! The optic algebra: composable descriptors of how to reach a value.
//!
//! An optic names a path through an archetype: zero or more field
//! projections down to a column (the storage path), one fetch by id, and
//! zero or more projections or optional filters inside the fetched value
//! (the component path). `id` is a terminal optic that yields the entity id
//! itself. Malformed combinations (two fetches, a filter before the fetch,
//! `id` combined with anything) are authoring errors, rejected before any
//! access happens.

use vstd::prelude::*;

use crate::archetype::Schema;
use crate::archetype::count_leaves;
use crate::archetype::leaf_count;
use crate::archetype::leaf_count_seq;
use crate::archetype::lemma_leaf_count_prefix;
use crate::archetype::lemma_leaf_count_take_succ;
use crate::value::Val;
use crate::value::Value;
use crate::value::lemma_vals_of;
use crate::value::vals_of;

verus! {

/// One token of an accessor path, as handed over by the textual front end:
/// the reserved words become their own tokens, every other identifier is a
/// field projection, interned to the field's declared position.
#[derive(Debug, Clone, Copy, PartialEq, Eq, Structural)]
pub enum Token {
    Ident(usize),
    KwId,
    KwGet,
    KwSome,
}

/// Errors of query authoring: malformed optics and field lists, and paths
/// that do not match the archetype's schema. All are reported before any
/// access code runs.
#[derive(Debug, Clone, Copy, PartialEq, Eq, Structural)]
pub enum OpticError {
    /// `id` must be the only part of its optic.
    IdNotAlone,
    /// A filter may only occur after the fetch.
    FilterBeforeFetch,
    /// There can be only one fetch in an optic.
    TwoFetches,
    /// A storage path names a field its schema group does not have.
    NoSuchField,
    /// A storage path ends on a nested group instead of a column.
    NotAColumn,
    /// The `id` optic cannot be taken mutably.
    IdMutable,
    /// Only `id` may be queried as a plain value; fields need `&` or `&mut`.
    ValueWithoutRef,
    /// A query or get must name at least one field.
    NoFields,
}

/// The storage path: field projections that locate a column.
#[derive(Debug, PartialEq, Eq)]
pub enum OpticStorage {
    Identity,
    Field { name: usize, optic: Box<OpticStorage> },
}

/// The component path: projections and optional filters applied inside a
/// fetched value.
#[derive(Debug, PartialEq, Eq)]
pub enum OpticComponent {
    Identity,
    Field { name: usize, optic: Box<OpticComponent> },
    Filter(Box<OpticComponent>),
}

/// An optic. `Access` carries exactly one fetch, at the boundary between
/// its storage path and its component path; `Lens` and `Prism` are the
/// fetchless intermediates that composition works with.
#[derive(Debug, PartialEq, Eq)]
pub enum Optic {
    /// Yield the queried entity's id itself; terminal.
    GetId,
    /// Pure field projections, no fetch yet.
    Lens(OpticStorage),
    /// A full access: projections to a column, the fetch, then the
    /// component path.
    Access { storage: OpticStorage, component: OpticComponent },
    /// A component path on its own: only meaningful after a fetch.
    Prism(OpticComponent),
}

/// Append one storage path after another.
pub open spec fn storage_concat(a: OpticStorage, b: OpticStorage) -> OpticStorage
    decreases a,
{
    match a {
        OpticStorage::Identity => b,
        OpticStorage::Field { name, optic } => OpticStorage::Field {
            name,
            optic: Box::new(storage_concat(*optic, b)),
        },
    }
}

/// Append one component path after another.
pub open spec fn comp_concat(a: OpticComponent, b: OpticComponent) -> OpticComponent
    decreases a,
{
    match a {
        OpticComponent::Identity => b,
        OpticComponent::Field { name, optic } => OpticComponent::Field {
            name,
            optic: Box::new(comp_concat(*optic, b)),
        },
        OpticComponent::Filter(optic) => OpticComponent::Filter(
            Box::new(comp_concat(*optic, b)),
        ),
    }
}

/// Reread a storage path as a component path (projections are projections).
pub open spec fn storage_as_component(a: OpticStorage) -> OpticComponent
    decreases a,
{
    match a {
        OpticStorage::Identity => OpticComponent::Identity,
        OpticStorage::Field { name, optic } => OpticComponent::Field {
            name,
            optic: Box::new(storage_as_component(*optic)),
        },
    }
}

/// Whether a component path contains an optional filter, which makes its
/// access a prism (it may come back empty) instead of a lens.
pub open spec fn comp_is_prism(c: OpticComponent) -> bool
    decreases c,
{
    match c {
        OpticComponent::Identity => false,
        OpticComponent::Field { optic, .. } => comp_is_prism(*optic),
        OpticComponent::Filter(_) => true,
    }
}

/// Sequential composition of two optics. The identity optic is a left and
/// right unit; `id` composes with nothing else; at most one fetch may occur,
/// and a filter must come after it.
pub open spec fn compose_spec(a: Optic, b: Optic) -> Result<Optic, OpticError> {
    if a == Optic::Lens(OpticStorage::Identity) {
        Ok(b)
    } else if b == Optic::Lens(OpticStorage::Identity) {
        Ok(a)
    } else {
        match (a, b) {
            (Optic::GetId, _) => Err(OpticError::IdNotAlone),
            (_, Optic::GetId) => Err(OpticError::IdNotAlone),
            (Optic::Lens(s1), Optic::Lens(s2)) => Ok(Optic::Lens(storage_concat(s1, s2))),
            (Optic::Lens(s1), Optic::Access { storage, component }) => Ok(
                Optic::Access { storage: storage_concat(s1, storage), component },
            ),
            (Optic::Lens(_), Optic::Prism(_)) => Err(OpticError::FilterBeforeFetch),
            (Optic::Access { .. }, Optic::Access { .. }) => Err(OpticError::TwoFetches),
            (Optic::Access { storage, component }, Optic::Lens(s2)) => Ok(
                Optic::Access {
                    storage,
                    component: comp_concat(component, storage_as_component(s2)),
                },
            ),
            (Optic::Access { storage, component }, Optic::Prism(c2)) => Ok(
                Optic::Access { storage, component: comp_concat(component, c2) },
            ),
            (Optic::Prism(c1), Optic::Lens(s2)) => Ok(
                Optic::Prism(comp_concat(c1, storage_as_component(s2))),
            ),
            (Optic::Prism(c1), Optic::Prism(c2)) => Ok(Optic::Prism(comp_concat(c1, c2))),
            (Optic::Prism(_), Optic::Access { .. }) => Err(OpticError::FilterBeforeFetch),
        }
    }
}

/// The identity optic is the unit of composition, on both sides.
pub proof fn lemma_compose_identity(o: Optic)
    ensures
        compose_spec(Optic::Lens(OpticStorage::Identity), o) == Ok::<Optic, OpticError>(o),
        compose_spec(o, Optic::Lens(OpticStorage::Identity)) == Ok::<Optic, OpticError>(o),
{
}

impl Optic {
    /// The identity optic.
    pub fn identity() -> (r: Optic)
        ensures
            r == Optic::Lens(OpticStorage::Identity),
    {
        Optic::Lens(OpticStorage::Identity)
    }

    /// A single field projection.
    pub fn field(name: usize) -> (r: Optic)
        ensures
            r == Optic::Lens(
                OpticStorage::Field { name, optic: Box::new(OpticStorage::Identity) },
            ),
    {
        Optic::Lens(OpticStorage::Field { name, optic: Box::new(OpticStorage::Identity) })
    }

    /// The storage fetch marker.
    pub fn fetch() -> (r: Optic)
        ensures
            r == (Optic::Access {
                storage: OpticStorage::Identity,
                component: OpticComponent::Identity,
            }),
    {
        Optic::Access { storage: OpticStorage::Identity, component: OpticComponent::Identity }
    }

    /// The optional filter.
    pub fn filter_some() -> (r: Optic)
        ensures
            r == Optic::Prism(OpticComponent::Filter(Box::new(OpticComponent::Identity))),
    {
        Optic::Prism(OpticComponent::Filter(Box::new(OpticComponent::Identity)))
    }

    /// Whether resolving this optic can fail at all: a fetch can find the id
    /// absent, and a filter can find the value empty.
    pub open spec fn spec_is_optional(self) -> bool {
        match self {
            Optic::GetId => false,
            Optic::Lens(_) => false,
            Optic::Access { .. } => true,
            Optic::Prism(c) => comp_is_prism(c),
        }
    }

    /// Whether this optic can fail in two independent ways — the fetch and a
    /// filter — whose failures must be collapsed into one absent result.
    pub open spec fn spec_is_doubly_optional(self) -> bool {
        match self {
            Optic::Access { component, .. } => comp_is_prism(component),
            _ => false,
        }
    }
}

/// Append one storage path after another.
pub fn storage_append(a: OpticStorage, b: OpticStorage) -> (r: OpticStorage)
    ensures
        r == storage_concat(a, b),
    decreases a,
{
    match a {
        OpticStorage::Identity => b,
        OpticStorage::Field { name, optic } => OpticStorage::Field {
            name,
            optic: Box::new(storage_append(*optic, b)),
        },
    }
}

/// Append one component path after another.
pub fn comp_append(a: OpticComponent, b: OpticComponent) -> (r: OpticComponent)
    ensures
        r == comp_concat(a, b),
    decreases a,
{
    match a {
        OpticComponent::Identity => b,
        OpticComponent::Field { name, optic } => OpticComponent::Field {
            name,
            optic: Box::new(comp_append(*optic, b)),
        },
        OpticComponent::Filter(optic) => OpticComponent::Filter(Box::new(comp_append(*optic, b))),
    }
}

/// Reread a storage path as a component path.
pub fn storage_into_component(a: OpticStorage) -> (r: OpticComponent)
    ensures
        r == storage_as_component(a),
    decreases a,
{
    match a {
        OpticStorage::Identity => OpticComponent::Identity,
        OpticStorage::Field { name, optic } => OpticComponent::Field {
            name,
            optic: Box::new(storage_into_component(*optic)),
        },
    }
}

impl Optic {
    /// Sequential composition: the identity is a unit on both sides, `id`
    /// composes with nothing else, two fetches are an error, and a filter
    /// may not come before the fetch.
    pub fn compose(self, other: Optic) -> (r: Result<Optic, OpticError>)
        ensures
            r == compose_spec(self, other),
    {
        if let Optic::Lens(OpticStorage::Identity) = self {
            return Ok(other);
        }
        if let Optic::Lens(OpticStorage::Identity) = other {
            return Ok(self);
        }
        match (self, other) {
            (Optic::GetId, _) => Err(OpticError::IdNotAlone),
            (_, Optic::GetId) => Err(OpticError::IdNotAlone),
            (Optic::Lens(s1), Optic::Lens(s2)) => Ok(Optic::Lens(storage_append(s1, s2))),
            (Optic::Lens(s1), Optic::Access { storage, component }) => Ok(
                Optic::Access { storage: storage_append(s1, storage), component },
            ),
            (Optic::Lens(_), Optic::Prism(_)) => Err(OpticError::FilterBeforeFetch),
            (Optic::Access { .. }, Optic::Access { .. }) => Err(OpticError::TwoFetches),
            (Optic::Access { storage, component }, Optic::Lens(s2)) => Ok(
                Optic::Access {
                    storage,
                    component: comp_append(component, storage_into_component(s2)),
                },
            ),
            (Optic::Access { storage, component }, Optic::Prism(c2)) => Ok(
                Optic::Access { storage, component: comp_append(component, c2) },
            ),
            (Optic::Prism(c1), Optic::Lens(s2)) => Ok(
                Optic::Prism(comp_append(c1, storage_into_component(s2))),
            ),
            (Optic::Prism(c1), Optic::Prism(c2)) => Ok(Optic::Prism(comp_append(c1, c2))),
            (Optic::Prism(_), Optic::Access { .. }) => Err(OpticError::FilterBeforeFetch),
        }
    }

    /// Whether resolving this optic can fail.
    pub fn is_optional(&self) -> (r: bool)
        ensures
            r == self.spec_is_optional(),
    {
        match self {
            Optic::GetId => false,
            Optic::Lens(_) => false,
            Optic::Access { .. } => true,
            Optic::Prism(c) => c.is_prism(),
        }
    }

    /// Whether this optic can fail in two independent ways that must be
    /// collapsed into one absent result.
    pub fn is_doubly_optional(&self) -> (r: bool)
        ensures
            r == self.spec_is_doubly_optional(),
    {
        match self {
            Optic::Access { component, .. } => component.is_prism(),
            _ => false,
        }
    }
}

/// Whether some token is the `id` keyword.
pub open spec fn has_id(ts: Seq<Token>) -> bool {
    exists|i: int| 0 <= i < ts.len() && ts[i] is KwId
}

/// The position of the first fetch token, or the length if there is none.
pub open spec fn first_get(ts: Seq<Token>) -> int
    decreases ts.len(),
{
    if ts.len() == 0 {
        0
    } else if ts[0] is KwGet {
        0
    } else {
        1 + first_get(ts.skip(1))
    }
}

/// `first_get` is the unique position with no fetch token before it and one
/// at it (or the end).
pub proof fn lemma_first_get(ts: Seq<Token>, g: int)
    requires
        0 <= g <= ts.len(),
        g < ts.len() ==> ts[g] is KwGet,
        forall|j: int| 0 <= j < g ==> !((#[trigger] ts[j]) is KwGet),
    ensures
        first_get(ts) == g,
    decreases ts.len(),
{
    if ts.len() > 0 && !(ts[0] is KwGet) {
        let tl = ts.skip(1);
        assert forall|j: int| 0 <= j < g - 1 implies !((#[trigger] tl[j]) is KwGet) by {
            assert(tl[j] == ts[j + 1]);
        }
        assert(g >= 1);
        lemma_first_get(tl, g - 1);
    }
}

/// The storage path named by fetchless, idless tokens.
pub open spec fn storage_of(ts: Seq<Token>) -> OpticStorage
    decreases ts.len(),
{
    if ts.len() == 0 {
        OpticStorage::Identity
    } else {
        match ts[0] {
            Token::Ident(n) => OpticStorage::Field {
                name: n,
                optic: Box::new(storage_of(ts.skip(1))),
            },
            _ => OpticStorage::Identity,
        }
    }
}

/// The component path named by fetchless, idless tokens.
pub open spec fn comp_of(ts: Seq<Token>) -> OpticComponent
    decreases ts.len(),
{
    if ts.len() == 0 {
        OpticComponent::Identity
    } else {
        match ts[0] {
            Token::Ident(n) => OpticComponent::Field {
                name: n,
                optic: Box::new(comp_of(ts.skip(1))),
            },
            Token::KwSome => OpticComponent::Filter(Box::new(comp_of(ts.skip(1)))),
            _ => OpticComponent::Identity,
        }
    }
}

/// The tokens before the first fetch: the storage path.
pub open spec fn storage_tokens(ts: Seq<Token>) -> Seq<Token> {
    ts.take(first_get(ts))
}

/// The tokens after the first fetch: the component path.
pub open spec fn component_tokens(ts: Seq<Token>) -> Seq<Token> {
    if first_get(ts) < ts.len() {
        ts.skip(first_get(ts) + 1)
    } else {
        Seq::<Token>::empty()
    }
}

/// What parsing a tokenized accessor path yields: `id` must stand alone,
/// the storage path may hold field names only, and there is at most one
/// fetch.
pub open spec fn parse_spec(ts: Seq<Token>) -> Result<Optic, OpticError> {
    if has_id(ts) {
        if ts.len() == 1 {
            Ok(Optic::GetId)
        } else {
            Err(OpticError::IdNotAlone)
        }
    } else if exists|j: int|
        0 <= j < storage_tokens(ts).len() && (#[trigger] storage_tokens(ts)[j]) is KwSome {
        Err(OpticError::FilterBeforeFetch)
    } else if exists|j: int|
        0 <= j < component_tokens(ts).len() && (#[trigger] component_tokens(ts)[j]) is KwGet {
        Err(OpticError::TwoFetches)
    } else {
        Ok(
            Optic::Access {
                storage: storage_of(storage_tokens(ts)),
                component: comp_of(component_tokens(ts)),
            },
        )
    }
}

impl Optic {
    /// Turn a tokenized accessor path into an optic.
    ///
    /// `id` must stand alone; the tokens before the first fetch form the
    /// storage path and must all be field names; the tokens after it form
    /// the component path, where a second fetch is an error.
    pub fn parse(tokens: &Vec<Token>) -> (r: Result<Optic, OpticError>)
        ensures
            r == parse_spec(tokens@),
    {
        let ghost ts = tokens@;
        let n = tokens.len();

        // the id optic must stand alone
        let mut i: usize = 0;
        let mut saw_id = false;
        while i < n
            invariant
                ts == tokens@,
                n == ts.len(),
                i <= n,
                saw_id <==> exists|j: int| 0 <= j < i as int && (#[trigger] ts[j]) is KwId,
            decreases n - i,
        {
            match tokens[i] {
                Token::KwId => {
                    saw_id = true;
                }
                _ => {}
            }
            i = i + 1;
        }
        if saw_id {
            if n == 1 {
                return Ok(Optic::GetId);
            }
            return Err(OpticError::IdNotAlone);
        }

        // split at the first fetch token
        let mut g: usize = 0;
        let mut found = false;
        while g < n && !found
            invariant
                ts == tokens@,
                n == ts.len(),
                g <= n,
                forall|j: int| 0 <= j < g as int ==> !((#[trigger] ts[j]) is KwGet),
                found ==> g < n && ts[g as int] is KwGet,
            decreases n - g + (if found {
                0int
            } else {
                1int
            }),
        {
            match tokens[g] {
                Token::KwGet => {
                    found = true;
                }
                _ => {
                    g = g + 1;
                }
            }
        }
        proof {
            lemma_first_get(ts, g as int);
        }
        let ghost sp = ts.take(g as int);
        let ghost cp = if (g as int) < ts.len() {
            ts.skip(g as int + 1)
        } else {
            Seq::<Token>::empty()
        };

        // the storage path: field names only, built from the right
        let mut storage = OpticStorage::Identity;
        let mut idx: usize = g;
        while idx > 0
            invariant
                ts == tokens@,
                n == ts.len(),
                g <= n,
                sp == ts.take(g as int),
                first_get(ts) == g as int,
                idx <= g,
                forall|j: int| 0 <= j < g as int ==> !((#[trigger] ts[j]) is KwGet),
                !has_id(ts),
                forall|j: int| idx as int <= j < g as int ==> (#[trigger] ts[j]) is Ident,
                storage == storage_of(ts.subrange(idx as int, g as int)),
            decreases idx,
        {
            idx = idx - 1;
            match tokens[idx] {
                Token::Ident(name) => {
                    storage = OpticStorage::Field { name, optic: Box::new(storage) };
                    proof {
                        assert(ts.subrange(idx as int, g as int)[0] == ts[idx as int]);
                        assert(ts.subrange(idx as int, g as int).skip(1) =~= ts.subrange(
                            idx as int + 1,
                            g as int,
                        ));
                    }
                }
                Token::KwSome => {
                    proof {
                        assert(sp[idx as int] is KwSome);
                    }
                    return Err(OpticError::FilterBeforeFetch);
                }
                Token::KwGet => {
                    return Err(OpticError::TwoFetches);  // unreachable: before the first fetch
                }
                Token::KwId => {
                    return Err(OpticError::IdNotAlone);  // unreachable: id was handled above
                }
            }
        }
        proof {
            assert(ts.subrange(0, g as int) =~= sp);
            assert forall|j: int| 0 <= j < sp.len() implies !((#[trigger] sp[j]) is KwSome) by {
                assert(sp[j] == ts[j]);
                assert(ts[j] is Ident);
            }
        }

        // the component path, also built from the right
        let mut component = OpticComponent::Identity;
        if g < n {
            let mut idx: usize = n;
            while idx > g + 1
                invariant
                    ts == tokens@,
                    n == ts.len(),
                    g < n,
                    cp == ts.skip(g as int + 1),
                    sp == ts.take(g as int),
                    first_get(ts) == g as int,
                    forall|j: int| 0 <= j < sp.len() ==> !((#[trigger] sp[j]) is KwSome),
                    g + 1 <= idx <= n,
                    !has_id(ts),
                    forall|j: int|
                        idx as int <= j < n as int ==> !((#[trigger] ts[j]) is KwGet) && !(ts[j]
                            is KwId),
                    component == comp_of(ts.subrange(idx as int, n as int)),
                decreases idx,
            {
                idx = idx - 1;
                match tokens[idx] {
                    Token::Ident(name) => {
                        component = OpticComponent::Field { name, optic: Box::new(component) };
                    }
                    Token::KwSome => {
                        component = OpticComponent::Filter(Box::new(component));
                    }
                    Token::KwGet => {
                        proof {
                            assert(cp[idx as int - (g as int + 1)] is KwGet);
                            assert(exists|j: int|
                                0 <= j < cp.len() && (#[trigger] cp[j]) is KwGet);
                            assert(!(exists|j: int|
                                0 <= j < sp.len() && (#[trigger] sp[j]) is KwSome)) by {
                                if exists|j: int| 0 <= j < sp.len() && (#[trigger] sp[j]) is KwSome {
                                    let j = choose|j: int|
                                        0 <= j < sp.len() && (#[trigger] sp[j]) is KwSome;
                                    assert(!(sp[j] is KwSome));
                                }
                            }
                        }
                        return Err(OpticError::TwoFetches);
                    }
                    Token::KwId => {
                        proof {
                            assert(ts[idx as int] is KwId);
                        }
                        return Err(OpticError::IdNotAlone);  // unreachable: id was handled above
                    }
                }
                proof {
                    assert(ts.subrange(idx as int, n as int)[0] == ts[idx as int]);
                    assert(ts.subrange(idx as int, n as int).skip(1) =~= ts.subrange(
                        idx as int + 1,
                        n as int,
                    ));
                }
            }
            proof {
                assert(ts.subrange(g as int + 1, n as int) =~= cp);
                assert forall|j: int| 0 <= j < cp.len() implies !((#[trigger] cp[j]) is KwGet) by {
                    assert(cp[j] == ts[j + g as int + 1]);
                }
            }
        }
        Ok(Optic::Access { storage, component })
    }
}

/// Which column a storage path reaches in a schema, as an offset into the
/// flattened column order; or the authoring error that rules it out.
pub open spec fn resolve_spec(s: Schema, p: OpticStorage) -> Result<int, OpticError>
    decreases p,
{
    match p {
        OpticStorage::Identity => match s {
            Schema::Leaf => Ok(0),
            Schema::Group(_) => Err(OpticError::NotAColumn),
        },
        OpticStorage::Field { name, optic } => match s {
            Schema::Leaf => Err(OpticError::NoSuchField),
            Schema::Group(cs) => if (name as int) < cs@.len() {
                match resolve_spec(cs@[name as int], *optic) {
                    Ok(k) => Ok(leaf_count_seq(cs@.take(name as int)) as int + k),
                    Err(e) => Err(e),
                }
            } else {
                Err(OpticError::NoSuchField)
            },
        },
    }
}

/// A resolved storage path lands inside the schema's column range.
pub proof fn lemma_resolve_bound(s: Schema, p: OpticStorage)
    requires
        resolve_spec(s, p) is Ok,
    ensures
        0 <= resolve_spec(s, p).unwrap() < leaf_count(s),
    decreases p,
{
    match p {
        OpticStorage::Identity => {}
        OpticStorage::Field { name, optic } => {
            match s {
                Schema::Leaf => {}
                Schema::Group(cs) => {
                    lemma_resolve_bound(cs@[name as int], *optic);
                    lemma_leaf_count_take_succ(cs@, name as int);
                    lemma_leaf_count_prefix(cs@, name as int + 1);
                }
            }
        }
    }
}

/// Walk a storage path down a schema to its column index.
pub fn resolve(s: &Schema, p: &OpticStorage) -> (r: Result<usize, OpticError>)
    requires
        leaf_count(*s) <= usize::MAX,
    ensures
        r matches Ok(j) ==> resolve_spec(*s, *p) == Ok::<int, OpticError>(j as int),
        r matches Err(e) ==> resolve_spec(*s, *p) == Err::<int, OpticError>(e),
    decreases p,
{
    match p {
        OpticStorage::Identity => match s {
            Schema::Leaf => Ok(0),
            Schema::Group(_) => Err(OpticError::NotAColumn),
        },
        OpticStorage::Field { name, optic } => match s {
            Schema::Leaf => Err(OpticError::NoSuchField),
            Schema::Group(cs) => {
                if *name >= cs.len() {
                    return Err(OpticError::NoSuchField);
                }
                let mut off: usize = 0;
                let mut i: usize = 0;
                while i < *name
                    invariant
                        *s == Schema::Group(*cs),
                        leaf_count(*s) <= usize::MAX,
                        (*name as int) < cs@.len(),
                        i <= *name,
                        off == leaf_count_seq(cs@.take(i as int)),
                    decreases *name - i,
                {
                    proof {
                        assert(*cs == (*s)->Group_0);
                        assert(decreases_to!(*s => (*s)->Group_0));
                        assert(decreases_to!(*cs => cs@));
                        assert(decreases_to!(cs@ => cs@[i as int]));
                        lemma_leaf_count_take_succ(cs@, i as int);
                        lemma_leaf_count_prefix(cs@, i as int + 1);
                    }
                    let c = count_leaves(&cs[i]);
                    off = off + c;
                    i = i + 1;
                }
                proof {
                    lemma_leaf_count_take_succ(cs@, *name as int);
                    lemma_leaf_count_prefix(cs@, *name as int + 1);
                }
                match resolve(&cs[*name], optic) {
                    Ok(k) => {
                        proof {
                            lemma_resolve_bound(cs@[*name as int], **optic);
                        }
                        Ok(off + k)
                    }
                    Err(e) => Err(e),
                }
            }
        },
    }
}

/// What a component path reads out of a fetched value: `None` when a filter
/// finds the value empty or a projection does not match its shape.
pub open spec fn comp_get_spec(c: OpticComponent, v: Val) -> Option<Val>
    decreases c,
{
    match c {
        OpticComponent::Identity => Some(v),
        OpticComponent::Field { name, optic } => match v {
            Val::Record(fs) => if (name as int) < fs.len() {
                comp_get_spec(*optic, fs[name as int])
            } else {
                None
            },
            _ => None,
        },
        OpticComponent::Filter(optic) => match v {
            Val::Opt(o) => match o {
                Some(b) => comp_get_spec(*optic, *b),
                None => None,
            },
            _ => None,
        },
    }
}

/// Apply a component path to a fetched value, borrowing the target.
pub fn comp_project<'a>(c: &OpticComponent, v: &'a Value) -> (r: Option<&'a Value>)
    ensures
        match r {
            Some(rv) => comp_get_spec(*c, v@) == Some(rv@),
            None => comp_get_spec(*c, v@) is None,
        },
    decreases c,
{
    match c {
        OpticComponent::Identity => Some(v),
        OpticComponent::Field { name, optic } => match v {
            Value::Record(fs) => {
                if *name < fs.len() {
                    proof {
                        lemma_vals_of(fs@);
                    }
                    comp_project(optic, &fs[*name])
                } else {
                    proof {
                        lemma_vals_of(fs@);
                    }
                    None
                }
            }
            _ => None,
        },
        OpticComponent::Filter(optic) => match v {
            Value::Opt(o) => match o {
                Some(b) => comp_project(optic, &**b),
                None => None,
            },
            _ => None,
        },
    }
}

/// What writing through a component path leaves behind: the stored value
/// with the target replaced, or `None` when the path does not reach one.
pub open spec fn comp_set_spec(c: OpticComponent, cur: Val, new: Val) -> Option<Val>
    decreases c,
{
    match c {
        OpticComponent::Identity => Some(new),
        OpticComponent::Field { name, optic } => match cur {
            Val::Record(fs) => if (name as int) < fs.len() {
                match comp_set_spec(*optic, fs[name as int], new) {
                    Some(w) => Some(Val::Record(fs.update(name as int, w))),
                    None => None,
                }
            } else {
                None
            },
            _ => None,
        },
        OpticComponent::Filter(optic) => match cur {
            Val::Opt(o) => match o {
                Some(b) => match comp_set_spec(*optic, *b, new) {
                    Some(w) => Some(Val::Opt(Some(Box::new(w)))),
                    None => None,
                },
                None => None,
            },
            _ => None,
        },
    }
}

/// Write through a component path: on success the returned value is the
/// stored one with the target replaced; on failure it is unchanged.
pub fn comp_assign(c: &OpticComponent, cur: Value, new: Value) -> (r: (bool, Value))
    ensures
        r.0 ==> comp_set_spec(*c, cur@, new@) == Some(r.1@),
        !r.0 ==> r.1@ == cur@ && comp_set_spec(*c, cur@, new@) is None,
    decreases c,
{
    match c {
        OpticComponent::Identity => (true, new),
        OpticComponent::Field { name, optic } => match cur {
            Value::Record(fs) => {
                if *name < fs.len() {
                    let mut fs = fs;
                    let ghost fs0 = fs@;
                    proof {
                        lemma_vals_of(fs0);
                    }
                    let child = fs.remove(*name);
                    let (ok, child2) = comp_assign(optic, child, new);
                    fs.insert(*name, child2);
                    proof {
                        assert(fs@ =~= fs0.update(*name as int, fs@[*name as int]));
                        lemma_vals_of(fs@);
                        assert forall|k: int|
                            0 <= k < fs@.len() implies vals_of(fs@)[k] == vals_of(fs0).update(
                            *name as int,
                            fs@[*name as int]@,
                        )[k] by {
                            assert(vals_of(fs@)[k] == fs@[k]@);
                            if k != *name as int {
                                assert(fs@[k] == fs0[k]);
                                assert(vals_of(fs0)[k] == fs0[k]@);
                            }
                        }
                        assert(vals_of(fs@) =~= vals_of(fs0).update(
                            *name as int,
                            fs@[*name as int]@,
                        ));
                        if !ok {
                            assert(vals_of(fs@) =~= vals_of(fs0));
                        }
                    }
                    (ok, Value::Record(fs))
                } else {
                    proof {
                        lemma_vals_of(fs@);
                    }
                    (false, Value::Record(fs))
                }
            }
            other => (false, other),
        },
        OpticComponent::Filter(optic) => match cur {
            Value::Opt(o) => match o {
                Some(b) => {
                    let (ok, inner) = comp_assign(optic, *b, new);
                    (ok, Value::Opt(Some(Box::new(inner))))
                }
                None => (false, Value::Opt(None)),
            },
            other => (false, other),
        },
    }
}

impl OpticComponent {
    /// Whether this component path is the identity.
    pub fn is_identity(&self) -> (r: bool)
        ensures
            r == (*self == OpticComponent::Identity),
    {
        match self {
            OpticComponent::Identity => true,
            OpticComponent::Field { .. } => false,
            OpticComponent::Filter(_) => false,
        }
    }

    /// Whether this component path contains an optional filter, i.e. whether
    /// its access returns an optional value.
    pub fn is_prism(&self) -> (r: bool)
        ensures
            r == comp_is_prism(*self),
        decreases self,
    {
        match self {
            OpticComponent::Identity => false,
            OpticComponent::Field { optic, .. } => optic.is_prism(),
            OpticComponent::Filter(_) => true,
        }
    }
}

} // verus!
