//! The single-entity accessor compiler ("get").
//!
//! A field list pairs a mutability marker with an optic. Resolution checks
//! the whole list against the archetype's schema before any access; the
//! access itself then yields the requested row only if every field's optic
//! succeeds, and nothing at all as soon as one fails.

use vstd::prelude::*;

use crate::archetype::Schema;
use crate::archetype::StructOf;
use crate::archetype::leaf_count;
use crate::hashstorage::Id;
use crate::optic::Optic;
use crate::optic::OpticComponent;
use crate::optic::OpticError;
use crate::optic::OpticStorage;
use crate::optic::Token;
use crate::optic::compose_spec;
use crate::optic::comp_get_spec;
use crate::optic::comp_project;
use crate::optic::parse_spec;
use crate::optic::resolve;
use crate::optic::resolve_spec;
use crate::optic::lemma_resolve_bound;
use crate::value::Val;
use crate::value::Value;
use crate::value::lemma_vals_of_push;
use crate::value::vals_of;

verus! {

/// One requested field of a get or query: how to reach it, and whether the
/// caller wants to mutate it.
#[derive(Debug, PartialEq, Eq)]
pub struct FieldSpec {
    pub is_mut: bool,
    pub optic: Optic,
}

/// What building one field from its reference marker and its tokenized path
/// yields: `id` cannot be mutable, and only `id` may be taken as a plain
/// value — every other field needs a reference marker.
pub open spec fn field_spec_parse(has_ref: bool, is_mut: bool, ts: Seq<Token>) -> Result<
    FieldSpec,
    OpticError,
> {
    match parse_spec(ts) {
        Err(e) => Err(e),
        Ok(o) => if o == Optic::GetId {
            if is_mut {
                Err(OpticError::IdMutable)
            } else {
                Ok(FieldSpec { is_mut: false, optic: Optic::GetId })
            }
        } else if !has_ref {
            Err(OpticError::ValueWithoutRef)
        } else {
            Ok(FieldSpec { is_mut, optic: o })
        },
    }
}

impl FieldSpec {
    /// A field from an already-built optic.
    pub fn new(is_mut: bool, optic: Optic) -> (r: FieldSpec)
        ensures
            r.is_mut == is_mut,
            r.optic == optic,
    {
        FieldSpec { is_mut, optic }
    }

    /// Build one field from its reference marker and its tokenized path.
    pub fn parse(has_ref: bool, is_mut: bool, tokens: &Vec<Token>) -> (r: Result<
        FieldSpec,
        OpticError,
    >)
        ensures
            r == field_spec_parse(has_ref, is_mut, tokens@),
    {
        match Optic::parse(tokens) {
            Err(e) => Err(e),
            Ok(o) => match o {
                Optic::GetId => {
                    if is_mut {
                        Err(OpticError::IdMutable)
                    } else {
                        Ok(FieldSpec { is_mut: false, optic: Optic::GetId })
                    }
                }
                o => {
                    if !has_ref {
                        Err(OpticError::ValueWithoutRef)
                    } else {
                        Ok(FieldSpec { is_mut, optic: o })
                    }
                }
            },
        }
    }
}

/// The authoring error one field raises against a schema, if any: a field
/// is either `id` or an access whose storage path resolves to a column.
pub open spec fn field_error(sh: Schema, f: FieldSpec) -> Option<OpticError> {
    match f.optic {
        Optic::GetId => None,
        Optic::Access { storage, .. } => match resolve_spec(sh, storage) {
            Ok(_) => None,
            Err(e) => Some(e),
        },
        Optic::Lens(_) => Some(OpticError::NotAColumn),
        Optic::Prism(_) => Some(OpticError::NotAColumn),
    }
}

/// The first authoring error in a field list, if any.
pub open spec fn fields_error(sh: Schema, fs: Seq<FieldSpec>) -> Option<OpticError>
    decreases fs.len(),
{
    if fs.len() == 0 {
        None
    } else {
        match field_error(sh, fs[0]) {
            Some(e) => Some(e),
            None => fields_error(sh, fs.skip(1)),
        }
    }
}

/// A clean prefix does not change the first error.
pub proof fn lemma_fields_error_skip(sh: Schema, fs: Seq<FieldSpec>, k: int)
    requires
        0 <= k <= fs.len(),
        forall|i: int| 0 <= i < k ==> field_error(sh, #[trigger] fs[i]) is None,
    ensures
        fields_error(sh, fs) == fields_error(sh, fs.skip(k)),
    decreases k,
{
    if k == 0 {
        assert(fs.skip(0) =~= fs);
    } else {
        lemma_fields_error_skip(sh, fs, k - 1);
        let tl = fs.skip(k - 1);
        assert(tl[0] == fs[k - 1]);
        assert(tl.skip(1) =~= fs.skip(k));
    }
}

/// A clean field list is clean fieldwise.
pub proof fn lemma_fields_error_clean(sh: Schema, fs: Seq<FieldSpec>, k: int)
    requires
        fields_error(sh, fs) is None,
        0 <= k < fs.len(),
    ensures
        field_error(sh, fs[k]) is None,
    decreases k,
{
    if k > 0 {
        assert(fs.skip(1)[k - 1] == fs[k]);
        lemma_fields_error_clean(sh, fs.skip(1), k - 1);
    }
}

/// What one field yields for one entity: the id itself, or the fetched and
/// filtered column entry; nothing when the fetch or a filter fails.
pub open spec fn field_access_spec(a: StructOf, f: FieldSpec, id: u64) -> Option<Val> {
    match f.optic {
        Optic::GetId => Some(Val::Id(id)),
        Optic::Access { storage, component } => match resolve_spec(a.shape(), storage) {
            Ok(j) => match a.leaf_at(j, id) {
                Some(v) => comp_get_spec(component, v@),
                None => None,
            },
            Err(_) => None,
        },
        _ => None,
    }
}

/// The row a field list yields for one entity: every field's value, or
/// nothing as soon as any field fails.
pub open spec fn row_spec(a: StructOf, fs: Seq<FieldSpec>, id: u64) -> Option<Seq<Val>>
    decreases fs.len(),
{
    if fs.len() == 0 {
        Some(Seq::empty())
    } else {
        match row_spec(a, fs.drop_last(), id) {
            None => None,
            Some(pre) => match field_access_spec(a, fs.last(), id) {
                Some(v) => Some(pre.push(v)),
                None => None,
            },
        }
    }
}

/// Unfold `row_spec` by one more field.
pub proof fn lemma_row_spec_take_succ(a: StructOf, fs: Seq<FieldSpec>, id: u64, k: int)
    requires
        0 <= k < fs.len(),
    ensures
        row_spec(a, fs.take(k + 1), id) == match row_spec(a, fs.take(k), id) {
            None => None,
            Some(pre) => match field_access_spec(a, fs[k], id) {
                Some(v) => Some(pre.push(v)),
                None => None,
            },
        },
{
    assert(fs.take(k + 1).drop_last() =~= fs.take(k));
    assert(fs.take(k + 1).last() == fs[k]);
}

/// Short-circuit: once any field has failed, the whole row is absent,
/// whatever the fields after it would have yielded.
pub proof fn lemma_short_circuit(a: StructOf, fs: Seq<FieldSpec>, id: u64, k: int)
    requires
        0 <= k < fs.len(),
        field_access_spec(a, fs[k], id) is None,
    ensures
        row_spec(a, fs, id) is None,
{
    lemma_row_spec_take_succ(a, fs, id, k);
    lemma_row_spec_none_extends(a, fs, id, k + 1);
}

/// An absent prefix row stays absent for the whole list.
pub proof fn lemma_row_spec_none_extends(a: StructOf, fs: Seq<FieldSpec>, id: u64, k: int)
    requires
        0 <= k <= fs.len(),
        row_spec(a, fs.take(k), id) is None,
    ensures
        row_spec(a, fs, id) is None,
    decreases fs.len() - k,
{
    if k == fs.len() {
        assert(fs.take(k) =~= fs);
    } else {
        lemma_row_spec_take_succ(a, fs, id, k);
        lemma_row_spec_none_extends(a, fs, id, k + 1);
    }
}

/// Optional collapse: an optic built as field → fetch → filter → field
/// composes into a single access — one fetch, with the filter and the
/// trailing projection in its component path. The composite is doubly
/// optional, yet its access yields one single-level optional result: a
/// failed fetch and a failed filter land in the same absent value, for any
/// archetype and id, never an optional inside an optional.
pub proof fn lemma_optional_collapse(a: StructOf, fa: usize, fb: usize, id: u64)
    ensures
        ({
            let field_a = Optic::Lens(
                OpticStorage::Field { name: fa, optic: Box::new(OpticStorage::Identity) },
            );
            let field_b = Optic::Lens(
                OpticStorage::Field { name: fb, optic: Box::new(OpticStorage::Identity) },
            );
            let fetch = Optic::Access {
                storage: OpticStorage::Identity,
                component: OpticComponent::Identity,
            };
            let filt = Optic::Prism(OpticComponent::Filter(Box::new(OpticComponent::Identity)));
            let sp = OpticStorage::Field { name: fa, optic: Box::new(OpticStorage::Identity) };
            let cp = OpticComponent::Filter(
                Box::new(
                    OpticComponent::Field { name: fb, optic: Box::new(OpticComponent::Identity) },
                ),
            );
            let built = Optic::Access { storage: sp, component: cp };
            &&& compose_spec(field_a, fetch) == Ok::<Optic, OpticError>(
                Optic::Access { storage: sp, component: OpticComponent::Identity },
            )
            &&& compose_spec(
                Optic::Access { storage: sp, component: OpticComponent::Identity },
                filt,
            ) == Ok::<Optic, OpticError>(
                Optic::Access {
                    storage: sp,
                    component: OpticComponent::Filter(Box::new(OpticComponent::Identity)),
                },
            )
            &&& compose_spec(
                Optic::Access {
                    storage: sp,
                    component: OpticComponent::Filter(Box::new(OpticComponent::Identity)),
                },
                field_b,
            ) == Ok::<Optic, OpticError>(built)
            &&& built.spec_is_doubly_optional()
            &&& ({
                let f = FieldSpec { is_mut: false, optic: built };
                let acc = field_access_spec(a, f, id);
                match resolve_spec(a.shape(), sp) {
                    Err(_) => acc is None,
                    Ok(j) => match a.leaf_at(j, id) {
                        None => acc is None,
                        Some(v) => {
                            &&& acc == comp_get_spec(cp, v@)
                            &&& (v@ matches Val::Opt(o) ==> match o {
                                None => acc is None,
                                Some(b) => acc == comp_get_spec(
                                    OpticComponent::Field {
                                        name: fb,
                                        optic: Box::new(OpticComponent::Identity),
                                    },
                                    *b,
                                ),
                            })
                        },
                    },
                }
            })
        }),
{
    reveal_with_fuel(crate::optic::storage_concat, 3);
    reveal_with_fuel(crate::optic::comp_concat, 3);
    reveal_with_fuel(crate::optic::storage_as_component, 3);
}

/// Whether a resolved column plan matches one field.
pub open spec fn plan_ok(sh: Schema, f: FieldSpec, j: usize) -> bool {
    match f.optic {
        Optic::GetId => true,
        Optic::Access { storage, .. } => resolve_spec(sh, storage) == Ok::<int, OpticError>(
            j as int,
        ),
        _ => false,
    }
}

/// Resolve a whole field list against a schema, yielding one column index
/// per field (unused for `id` fields), or the first authoring error.
pub(crate) fn resolve_fields(arch: &StructOf, fields: &Vec<FieldSpec>) -> (r: Result<
    Vec<usize>,
    OpticError,
>)
    requires
        arch.wf(),
    ensures
        match r {
            Ok(cols) => {
                &&& fields_error(arch.shape(), fields@) is None
                &&& cols@.len() == fields@.len()
                &&& forall|i: int|
                    0 <= i < fields@.len() ==> plan_ok(
                        arch.shape(),
                        #[trigger] fields@[i],
                        cols@[i],
                    )
            },
            Err(e) => fields_error(arch.shape(), fields@) == Some(e),
        },
{
    proof {
        arch.lemma_wf_facts();
    }
    let w = arch.width();
    let n = fields.len();
    let mut cols: Vec<usize> = Vec::new();
    let mut k: usize = 0;
    while k < n
        invariant
            arch.wf(),
            leaf_count(arch.shape()) == arch.ncols(),
            w as int == arch.ncols(),
            n == fields@.len(),
            k <= n,
            cols@.len() == k as int,
            forall|i: int| 0 <= i < k as int ==> field_error(arch.shape(), #[trigger] fields@[i]) is None,
            forall|i: int|
                0 <= i < k as int ==> plan_ok(arch.shape(), #[trigger] fields@[i], cols@[i]),
        decreases n - k,
    {
        match &fields[k].optic {
            Optic::GetId => {
                cols.push(0);
            }
            Optic::Access { storage, .. } => {
                match resolve(arch.schema_ref(), storage) {
                    Ok(j) => {
                        cols.push(j);
                    }
                    Err(e) => {
                        proof {
                            lemma_fields_error_skip(arch.shape(), fields@, k as int);
                            assert(fields@.skip(k as int)[0] == fields@[k as int]);
                        }
                        return Err(e);
                    }
                }
            }
            Optic::Lens(_) => {
                proof {
                    lemma_fields_error_skip(arch.shape(), fields@, k as int);
                    assert(fields@.skip(k as int)[0] == fields@[k as int]);
                }
                return Err(OpticError::NotAColumn);
            }
            Optic::Prism(_) => {
                proof {
                    lemma_fields_error_skip(arch.shape(), fields@, k as int);
                    assert(fields@.skip(k as int)[0] == fields@[k as int]);
                }
                return Err(OpticError::NotAColumn);
            }
        }
        k = k + 1;
    }
    proof {
        lemma_fields_error_skip(arch.shape(), fields@, n as int);
        assert(fields@.skip(n as int) =~= Seq::<FieldSpec>::empty());
    }
    Ok(cols)
}

/// Get the requested fields of one entity.
///
/// The whole field list is resolved against the schema first; authoring
/// errors are reported without touching any column. The access then yields
/// the row exactly when every field succeeds, and nothing as soon as the
/// fetch or a filter of any field fails.
pub fn get(arch: &StructOf, id: Id, fields: &Vec<FieldSpec>) -> (r: Result<
    Option<Vec<Value>>,
    OpticError,
>)
    requires
        arch.wf(),
    ensures
        fields@.len() == 0 ==> r == Err::<Option<Vec<Value>>, OpticError>(OpticError::NoFields),
        fields@.len() > 0 ==> match fields_error(arch.shape(), fields@) {
            Some(e) => r == Err::<Option<Vec<Value>>, OpticError>(e),
            None => match r {
                Ok(opt) => match opt {
                    Some(row) => row_spec(*arch, fields@, id@) == Some(vals_of(row@)),
                    None => row_spec(*arch, fields@, id@) is None,
                },
                Err(_) => false,
            },
        },
{
    if fields.len() == 0 {
        return Err(OpticError::NoFields);
    }
    let cols = match resolve_fields(arch, fields) {
        Ok(cols) => cols,
        Err(e) => {
            return Err(e);
        }
    };
    proof {
        arch.lemma_wf_facts();
    }
    let n = fields.len();
    let mut row: Vec<Value> = Vec::new();
    let mut k: usize = 0;
    while k < n
        invariant
            arch.wf(),
            leaf_count(arch.shape()) == arch.ncols(),
            fields_error(arch.shape(), fields@) is None,
            n == fields@.len(),
            cols@.len() == n as int,
            k <= n,
            forall|i: int|
                0 <= i < n as int ==> plan_ok(arch.shape(), #[trigger] fields@[i], cols@[i]),
            row_spec(*arch, fields@.take(k as int), id@) == Some(vals_of(row@)),
        decreases n - k,
    {
        let ghost pre_row = row@;
        match &fields[k].optic {
            Optic::GetId => {
                row.push(Value::Id(id.raw()));
                proof {
                    lemma_vals_of_push(pre_row, row@[pre_row.len() as int]);
                    lemma_row_spec_take_succ(*arch, fields@, id@, k as int);
                }
            }
            Optic::Access { storage, component } => {
                let j = cols[k];
                proof {
                    lemma_resolve_bound(arch.shape(), *storage);
                }
                match arch.col_get(j, id) {
                    None => {
                        proof {
                            lemma_row_spec_take_succ(*arch, fields@, id@, k as int);
                            lemma_row_spec_none_extends(*arch, fields@, id@, k as int + 1);
                        }
                        return Ok(None);
                    }
                    Some(v) => {
                        match comp_project(component, v) {
                            None => {
                                proof {
                                    lemma_row_spec_take_succ(*arch, fields@, id@, k as int);
                                    lemma_row_spec_none_extends(*arch, fields@, id@, k as int + 1);
                                }
                                return Ok(None);
                            }
                            Some(rv) => {
                                row.push(rv.duplicate());
                                proof {
                                    lemma_vals_of_push(pre_row, row@[pre_row.len() as int]);
                                    lemma_row_spec_take_succ(*arch, fields@, id@, k as int);
                                }
                            }
                        }
                    }
                }
            }
            Optic::Lens(_) => {
                proof {
                    assert(false);
                }
                return Err(OpticError::NotAColumn);
            }
            Optic::Prism(_) => {
                proof {
                    assert(false);
                }
                return Err(OpticError::NotAColumn);
            }
        }
        k = k + 1;
    }
    proof {
        assert(fields@.take(n as int) =~= fields@);
    }
    Ok(Some(row))
}

} // verus!
