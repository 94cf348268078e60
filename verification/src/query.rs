//! The bulk query compiler ("query").
//!
//! A query walks all live ids of an archetype: one field's storage supplies
//! the canonical id sequence (every column enumerates the same ids, so any
//! will do), mutable fields are fetched in one parallel pass over that
//! whole sequence, immutable fields are read per id, and a row is dropped
//! as soon as any of its fields comes back absent. Chained queries over
//! several archetypes concatenate their rows in the order given.

use vstd::prelude::*;

use crate::archetype::StructOf;
use crate::archetype::leaf_count;
use crate::get::FieldSpec;
use crate::get::field_access_spec;
use crate::get::fields_error;
use crate::get::lemma_row_spec_none_extends;
use crate::get::lemma_row_spec_take_succ;
use crate::get::plan_ok;
use crate::get::resolve_fields;
use crate::get::row_spec;
use crate::hashstorage::Id;
use crate::hashstorage::distinct;
use crate::hashstorage::id_views;
use crate::optic::Optic;
use crate::optic::OpticError;
use crate::optic::comp_project;
use crate::optic::lemma_resolve_bound;
use crate::value::Val;
use crate::value::Value;
use crate::value::lemma_vals_of_push;
use crate::value::vals_of;

verus! {

/// The rows a query yields over an id sequence: for each id, in order, the
/// full row if every field succeeds, and nothing for that id otherwise.
pub open spec fn rows_spec(a: StructOf, fs: Seq<FieldSpec>, ids: Seq<u64>) -> Seq<
    (u64, Seq<Val>),
>
    decreases ids.len(),
{
    if ids.len() == 0 {
        Seq::empty()
    } else {
        rows_spec(a, fs, ids.drop_last()) + (match row_spec(a, fs, ids.last()) {
            Some(row) => seq![(ids.last(), row)],
            None => Seq::empty(),
        })
    }
}

/// Unfold `rows_spec` by one more id.
pub proof fn lemma_rows_spec_take_succ(a: StructOf, fs: Seq<FieldSpec>, ids: Seq<u64>, i: int)
    requires
        0 <= i < ids.len(),
    ensures
        rows_spec(a, fs, ids.take(i + 1)) == rows_spec(a, fs, ids.take(i)) + (match row_spec(
            a,
            fs,
            ids[i],
        ) {
            Some(row) => seq![(ids[i], row)],
            None => Seq::<(u64, Seq<Val>)>::empty(),
        }),
{
    assert(ids.take(i + 1).drop_last() =~= ids.take(i));
    assert(ids.take(i + 1).last() == ids[i]);
}

/// Id synchronization: the ids of a query's rows are exactly the source
/// ids that survive the per-row filtering, in the same order.
pub proof fn lemma_id_synchronization(a: StructOf, fs: Seq<FieldSpec>, ids: Seq<u64>)
    ensures
        rows_spec(a, fs, ids).map_values(|r: (u64, Seq<Val>)| r.0) == ids.filter(
            |id: u64| row_spec(a, fs, id) is Some,
        ),
    decreases ids.len(),
{
    reveal_with_fuel(Seq::filter, 2);
    let f = |r: (u64, Seq<Val>)| r.0;
    let pred = |id: u64| row_spec(a, fs, id) is Some;
    if ids.len() == 0 {
        assert(rows_spec(a, fs, ids).map_values(f) =~= ids.filter(pred));
    } else {
        lemma_id_synchronization(a, fs, ids.drop_last());
        assert(rows_spec(a, fs, ids).map_values(f) =~= ids.filter(pred));
    }
}

/// Whether an executable row list realizes a ghost row list.
pub open spec fn rows_match(rows: Seq<(Id, Vec<Value>)>, spec_rows: Seq<(u64, Seq<Val>)>) -> bool {
    &&& rows.len() == spec_rows.len()
    &&& forall|k: int|
        0 <= k < rows.len() ==> (#[trigger] rows[k]).0@ == spec_rows[k].0 && vals_of(rows[k].1@)
            == spec_rows[k].1
}

/// Whether a cell holds exactly what one field yields for one id.
pub open spec fn cell_match(a: StructOf, f: FieldSpec, id: u64, cell: Option<Value>) -> bool {
    match cell {
        Some(v) => field_access_spec(a, f, id) == Some(v@),
        None => field_access_spec(a, f, id) is None,
    }
}

/// Evaluate one field over the whole id sequence: mutable fields go
/// through one parallel fetch of their column, immutable fields are read
/// per id; either way one cell per id comes back, positionally aligned.
fn eval_field(arch: &StructOf, f: &FieldSpec, col: usize, ids: &Vec<Id>) -> (r: Vec<Option<Value>>)
    requires
        arch.wf(),
        plan_ok(arch.shape(), *f, col),
        !(f.optic is Lens),
        !(f.optic is Prism),
        leaf_count(arch.shape()) == arch.ncols(),
        ids@.len() == arch.live().len(),
        forall|i: int| 0 <= i < ids@.len() ==> #[trigger] ids@[i]@ == arch.live()[i],
    ensures
        r@.len() == ids@.len(),
        forall|i: int| 0 <= i < ids@.len() ==> cell_match(*arch, *f, ids@[i]@, #[trigger] r@[i]),
{
    let n = ids.len();
    let mut out: Vec<Option<Value>> = Vec::new();
    match &f.optic {
        Optic::GetId => {
            let mut i: usize = 0;
            while i < n
                invariant
                    f.optic is GetId,
                    n == ids@.len(),
                    i <= n,
                    out@.len() == i as int,
                    forall|k: int|
                        0 <= k < i as int ==> cell_match(*arch, *f, ids@[k]@, #[trigger] out@[k]),
                decreases n - i,
            {
                out.push(Some(Value::Id(ids[i].raw())));
                i = i + 1;
            }
        }
        Optic::Access { storage, component } => {
            proof {
                lemma_resolve_bound(arch.shape(), *storage);
            }
            if f.is_mut {
                // the parallel mutable fetch: its precondition — distinct,
                // live ids — is discharged by the archetype's own invariant
                proof {
                    arch.lemma_wf_facts();
                    assert(id_views(ids@) =~= arch.live());
                }
                let fetched = arch.col_fetch_many(col, ids);
                let mut i: usize = 0;
                while i < n
                    invariant
                        arch.wf(),
                        f.optic matches Optic::Access { storage: s2, component: c2 } && s2
                            == *storage && c2 == *component,
                        plan_ok(arch.shape(), *f, col),
                        n == ids@.len(),
                        fetched@.len() == n as int,
                        forall|k: int|
                            0 <= k < n as int ==> (arch.leaf_at(
                                col as int,
                                #[trigger] ids@[k]@,
                            ) matches Some(v) && fetched@[k]@ == v@),
                        i <= n,
                        out@.len() == i as int,
                        forall|k: int|
                            0 <= k < i as int ==> cell_match(
                                *arch,
                                *f,
                                ids@[k]@,
                                #[trigger] out@[k],
                            ),
                    decreases n - i,
                {
                    match comp_project(component, &fetched[i]) {
                        Some(rv) => {
                            out.push(Some(rv.duplicate()));
                        }
                        None => {
                            out.push(None);
                        }
                    }
                    i = i + 1;
                }
            } else {
                let mut i: usize = 0;
                while i < n
                    invariant
                        arch.wf(),
                        f.optic matches Optic::Access { storage: s2, component: c2 } && s2
                            == *storage && c2 == *component,
                        plan_ok(arch.shape(), *f, col),
                        (col as int) < arch.ncols(),
                        n == ids@.len(),
                        i <= n,
                        out@.len() == i as int,
                        forall|k: int|
                            0 <= k < i as int ==> cell_match(
                                *arch,
                                *f,
                                ids@[k]@,
                                #[trigger] out@[k],
                            ),
                    decreases n - i,
                {
                    match arch.col_get(col, ids[i]) {
                        None => {
                            out.push(None);
                        }
                        Some(v) => {
                            match comp_project(component, v) {
                                None => {
                                    out.push(None);
                                }
                                Some(rv) => {
                                    out.push(Some(rv.duplicate()));
                                }
                            }
                        }
                    }
                    i = i + 1;
                }
            }
        }
        Optic::Lens(_) => {
            proof {
                assert(false);
            }
        }
        Optic::Prism(_) => {
            proof {
                assert(false);
            }
        }
    }
    out
}

/// Query all live entities of one archetype.
///
/// The field list is resolved first; the id sequence is taken from one
/// field's storage (or the liveness column when every field is `id`); the
/// produced rows are exactly the live ids that survive the filtering, in
/// enumeration order, each paired with its field values.
pub fn query_rows(arch: &StructOf, fields: &Vec<FieldSpec>) -> (r: Result<
    Vec<(Id, Vec<Value>)>,
    OpticError,
>)
    requires
        arch.wf(),
    ensures
        fields@.len() == 0 ==> r == Err::<Vec<(Id, Vec<Value>)>, OpticError>(OpticError::NoFields),
        fields@.len() > 0 ==> match fields_error(arch.shape(), fields@) {
            Some(e) => r == Err::<Vec<(Id, Vec<Value>)>, OpticError>(e),
            None => r matches Ok(rows) && rows_match(rows@, rows_spec(*arch, fields@, arch.live())),
        },
{
    if fields.len() == 0 {
        return Err(OpticError::NoFields);
    }
    let cols = match resolve_fields(arch, fields) {
        Ok(cols) => cols,
        Err(e) => {
            return Err(e);
        }
    };
    proof {
        arch.lemma_wf_facts();
    }
    let n = fields.len();

    // the canonical id sequence: any non-id field's storage, else the
    // liveness column — the well-formedness invariant makes them equal
    let mut src: Option<usize> = None;
    let mut k: usize = 0;
    while k < n
        invariant
            arch.wf(),
            leaf_count(arch.shape()) == arch.ncols(),
            n == fields@.len(),
            cols@.len() == n as int,
            k <= n,
            forall|i: int|
                0 <= i < n as int ==> plan_ok(arch.shape(), #[trigger] fields@[i], cols@[i]),
            match src {
                Some(j) => (j as int) < arch.ncols(),
                None => true,
            },
        decreases n - k,
    {
        match &fields[k].optic {
            Optic::Access { storage, .. } => {
                if src.is_none() {
                    proof {
                        lemma_resolve_bound(arch.shape(), *storage);
                    }
                    src = Some(cols[k]);
                }
            }
            _ => {}
        }
        k = k + 1;
    }
    let ids: Vec<Id> = match src {
        Some(j) => arch.col_ids(j),
        None => arch.ids(),
    };

    // evaluate every field over the whole id sequence
    let mut mat: Vec<Vec<Option<Value>>> = Vec::new();
    let mut k: usize = 0;
    while k < n
        invariant
            arch.wf(),
            leaf_count(arch.shape()) == arch.ncols(),
            fields_error(arch.shape(), fields@) is None,
            n == fields@.len(),
            cols@.len() == n as int,
            forall|i: int|
                0 <= i < n as int ==> plan_ok(arch.shape(), #[trigger] fields@[i], cols@[i]),
            ids@.len() == arch.live().len(),
            forall|i: int| 0 <= i < ids@.len() ==> #[trigger] ids@[i]@ == arch.live()[i],
            k <= n,
            mat@.len() == k as int,
            forall|kk: int, i: int|
                0 <= kk < k as int && 0 <= i < ids@.len() ==> cell_match(
                    *arch,
                    fields@[kk],
                    ids@[i]@,
                    #[trigger] mat@[kk]@[i],
                ),
            forall|kk: int| 0 <= kk < k as int ==> (#[trigger] mat@[kk])@.len() == ids@.len(),
        decreases n - k,
    {
        proof {
            // a field list without errors has no fetchless optics
            crate::get::lemma_fields_error_clean(arch.shape(), fields@, k as int);
        }
        let cell_col = eval_field(arch, &fields[k], cols[k], &ids);
        mat.push(cell_col);
        k = k + 1;
    }

    // zip positionally and drop the rows where any field came back absent
    let m = ids.len();
    let mut out: Vec<(Id, Vec<Value>)> = Vec::new();
    let mut i: usize = 0;
    while i < m
        invariant
            arch.wf(),
            n == fields@.len(),
            m == ids@.len(),
            ids@.len() == arch.live().len(),
            forall|ii: int| 0 <= ii < ids@.len() ==> #[trigger] ids@[ii]@ == arch.live()[ii],
            mat@.len() == n as int,
            forall|kk: int| 0 <= kk < n as int ==> (#[trigger] mat@[kk])@.len() == ids@.len(),
            forall|kk: int, ii: int|
                0 <= kk < n as int && 0 <= ii < ids@.len() ==> cell_match(
                    *arch,
                    fields@[kk],
                    ids@[ii]@,
                    #[trigger] mat@[kk]@[ii],
                ),
            i <= m,
            rows_match(out@, rows_spec(*arch, fields@, arch.live().take(i as int))),
        decreases m - i,
    {
        let mut row: Vec<Value> = Vec::new();
        let mut good = true;
        let mut k: usize = 0;
        while k < n
            invariant
                arch.wf(),
                n == fields@.len(),
                i < m,
                m == ids@.len(),
                ids@.len() == arch.live().len(),
                ids@[i as int]@ == arch.live()[i as int],
                mat@.len() == n as int,
                forall|kk: int| 0 <= kk < n as int ==> (#[trigger] mat@[kk])@.len() == ids@.len(),
                forall|kk: int, ii: int|
                    0 <= kk < n as int && 0 <= ii < ids@.len() ==> cell_match(
                        *arch,
                        fields@[kk],
                        ids@[ii]@,
                        #[trigger] mat@[kk]@[ii],
                    ),
                k <= n,
                good ==> row_spec(*arch, fields@.take(k as int), ids@[i as int]@) == Some(
                    vals_of(row@),
                ),
                !good ==> row_spec(*arch, fields@, ids@[i as int]@) is None,
            decreases n - k,
        {
            if good {
                let ghost pre_row = row@;
                let cell_col = &mat[k];
                match &cell_col[i] {
                    None => {
                        good = false;
                        proof {
                            lemma_row_spec_take_succ(*arch, fields@, ids@[i as int]@, k as int);
                            lemma_row_spec_none_extends(
                                *arch,
                                fields@,
                                ids@[i as int]@,
                                k as int + 1,
                            );
                        }
                    }
                    Some(v) => {
                        row.push(v.duplicate());
                        proof {
                            lemma_vals_of_push(pre_row, row@[pre_row.len() as int]);
                            lemma_row_spec_take_succ(*arch, fields@, ids@[i as int]@, k as int);
                        }
                    }
                }
            }
            k = k + 1;
        }
        proof {
            lemma_rows_spec_take_succ(*arch, fields@, arch.live(), i as int);
            if good {
                assert(fields@.take(n as int) =~= fields@);
            }
        }
        if good {
            out.push((ids[i], row));
            proof {
                let spec_rows = rows_spec(*arch, fields@, arch.live().take(i as int + 1));
                assert forall|kk: int|
                    0 <= kk < out@.len() implies (#[trigger] out@[kk]).0@ == spec_rows[kk].0
                    && vals_of(out@[kk].1@) == spec_rows[kk].1 by {}
            }
        }
        i = i + 1;
    }
    proof {
        assert(arch.live().take(m as int) =~= arch.live());
    }
    Ok(out)
}

/// Whether a field asks for mutation through a column.
pub open spec fn is_write(f: FieldSpec) -> bool {
    f.is_mut && f.optic is Access
}

/// The column a writing field resolves to (meaningful when it resolves).
pub open spec fn write_col(sh: crate::archetype::Schema, f: FieldSpec) -> int {
    match f.optic {
        Optic::Access { storage, .. } => match crate::optic::resolve_spec(sh, storage) {
            Ok(j) => j,
            Err(_) => -1,
        },
        _ => -1,
    }
}

/// The ids of a row list, in order.
pub open spec fn row_ids(rows: Seq<(Id, Vec<Value>)>) -> Seq<u64> {
    rows.map_values(|r: (Id, Vec<Value>)| r.0@)
}

/// The model of a column entry.
pub open spec fn leaf_val(a: StructOf, j: int, id: u64) -> Option<Val> {
    match a.leaf_at(j, id) {
        Some(v) => Some(v@),
        None => None,
    }
}

/// What one write through a component path leaves in a column entry: the
/// entry with the target replaced, or the entry unchanged where the path
/// fails for that entity (its row had been dropped from the query anyway).
pub open spec fn written_leaf(cur: Option<Val>, c: crate::optic::OpticComponent, new: Val) -> Option<
    Val,
> {
    match cur {
        Some(v) => match crate::optic::comp_set_spec(c, v, new) {
            Some(w) => Some(w),
            None => Some(v),
        },
        None => None,
    }
}

/// Write a query's rows back: for every mutable field, the row's value is
/// stored through that field's component path into its column, for every
/// row id at once. Immutable fields and all other columns stay untouched.
///
/// The caller vouches for the aliasing discipline: the row ids are
/// pairwise distinct and live, and no two mutable fields write the same
/// column — exactly what a query over this archetype produces.
pub fn apply_rows(arch: &mut StructOf, fields: &Vec<FieldSpec>, rows: &Vec<(Id, Vec<Value>)>) -> (r:
    Result<(), OpticError>)
    requires
        old(arch).wf(),
        distinct(row_ids(rows@)),
        forall|rr: int| 0 <= rr < rows@.len() ==> old(arch).is_live(#[trigger] rows@[rr].0@),
        forall|rr: int| 0 <= rr < rows@.len() ==> (#[trigger] rows@[rr].1)@.len() == fields@.len(),
        forall|k1: int, k2: int|
            0 <= k1 < k2 < fields@.len() && is_write(#[trigger] fields@[k1]) && is_write(
                #[trigger] fields@[k2],
            ) ==> write_col(old(arch).shape(), fields@[k1]) != write_col(
                old(arch).shape(),
                fields@[k2],
            ),
    ensures
        match r {
            Err(e) => fields_error(old(arch).shape(), fields@) == Some(e) && *final(arch) == *old(
                arch,
            ),
            Ok(_) => {
                &&& fields_error(old(arch).shape(), fields@) is None
                &&& final(arch).wf()
                &&& final(arch).shape() == old(arch).shape()
                &&& final(arch).ncols() == old(arch).ncols()
                &&& final(arch).live() == old(arch).live()
                &&& final(arch).fresh() == old(arch).fresh()
                &&& forall|j: int, u: u64|
                    0 <= j < old(arch).ncols() && !(exists|k: int|
                        0 <= k < fields@.len() && is_write(#[trigger] fields@[k]) && write_col(
                            old(arch).shape(),
                            fields@[k],
                        ) == j) ==> final(arch).leaf_at(j, u) == old(arch).leaf_at(j, u)
                &&& forall|k: int, rr: int|
                    #![trigger fields@[k], rows@[rr]]
                    0 <= k < fields@.len() && is_write(fields@[k]) && 0 <= rr
                        < rows@.len() ==> (fields@[k].optic matches Optic::Access { component, .. }
                        && leaf_val(
                        *final(arch),
                        write_col(old(arch).shape(), fields@[k]),
                        rows@[rr].0@,
                    ) == written_leaf(
                        leaf_val(*old(arch), write_col(old(arch).shape(), fields@[k]), rows@[rr].0@),
                        component,
                        vals_of(rows@[rr].1@)[k],
                    ))
                &&& forall|k: int, u: u64|
                    #![trigger fields@[k], final(arch).leaf_at(write_col(old(arch).shape(), fields@[k]), u)]
                    0 <= k < fields@.len() && is_write(fields@[k]) && !row_ids(
                        rows@,
                    ).contains(u) ==> final(arch).leaf_at(
                        write_col(old(arch).shape(), fields@[k]),
                        u,
                    ) == old(arch).leaf_at(write_col(old(arch).shape(), fields@[k]), u)
            },
        },
{
    let ghost pre = *old(arch);
    let cols = match resolve_fields(arch, fields) {
        Ok(cols) => cols,
        Err(e) => {
            return Err(e);
        }
    };
    let m = rows.len();
    let mut ids: Vec<Id> = Vec::new();
    let mut rr: usize = 0;
    while rr < m
        invariant
            m == rows@.len(),
            rr <= m,
            ids@.len() == rr as int,
            forall|t: int| 0 <= t < rr as int ==> #[trigger] ids@[t] == rows@[t].0,
        decreases m - rr,
    {
        ids.push(rows[rr].0);
        rr = rr + 1;
    }
    proof {
        assert(id_views(ids@) =~= row_ids(rows@));
        arch.lemma_wf_facts();
    }
    let n = fields.len();
    let mut k: usize = 0;
    while k < n
        invariant
            pre == *old(arch),
            arch.wf(),
            arch.shape() == pre.shape(),
            arch.ncols() == pre.ncols(),
            arch.live() == pre.live(),
            arch.fresh() == pre.fresh(),
            leaf_count(arch.shape()) == arch.ncols(),
            n == fields@.len(),
            m == rows@.len(),
            cols@.len() == n as int,
            ids@.len() == m as int,
            forall|t: int| 0 <= t < m as int ==> #[trigger] ids@[t] == rows@[t].0,
            id_views(ids@) == row_ids(rows@),
            distinct(row_ids(rows@)),
            forall|t: int| 0 <= t < rows@.len() ==> pre.is_live(#[trigger] rows@[t].0@),
            forall|t: int| 0 <= t < rows@.len() ==> (#[trigger] rows@[t].1)@.len() == n as int,
            forall|i: int|
                0 <= i < n as int ==> plan_ok(arch.shape(), #[trigger] fields@[i], cols@[i]),
            forall|k1: int, k2: int|
                0 <= k1 < k2 < n as int && is_write(#[trigger] fields@[k1]) && is_write(
                    #[trigger] fields@[k2],
                ) ==> write_col(pre.shape(), fields@[k1]) != write_col(pre.shape(), fields@[k2]),
            k <= n,
            forall|j: int, u: u64|
                0 <= j < pre.ncols() && !(exists|kk: int|
                    0 <= kk < k as int && is_write(#[trigger] fields@[kk]) && write_col(
                        pre.shape(),
                        fields@[kk],
                    ) == j) ==> arch.leaf_at(j, u) == pre.leaf_at(j, u),
            forall|kk: int, t: int|
                #![trigger fields@[kk], rows@[t]]
                0 <= kk < k as int && is_write(fields@[kk]) && 0 <= t < rows@.len()
                    ==> (fields@[kk].optic matches Optic::Access { component, .. } && leaf_val(
                    *arch,
                    write_col(pre.shape(), fields@[kk]),
                    rows@[t].0@,
                ) == written_leaf(
                    leaf_val(pre, write_col(pre.shape(), fields@[kk]), rows@[t].0@),
                    component,
                    vals_of(rows@[t].1@)[kk],
                )),
            forall|kk: int, u: u64|
                #![trigger fields@[kk], arch.leaf_at(write_col(pre.shape(), fields@[kk]), u)]
                0 <= kk < k as int && is_write(fields@[kk]) && !row_ids(
                    rows@,
                ).contains(u) ==> arch.leaf_at(write_col(pre.shape(), fields@[kk]), u)
                == pre.leaf_at(write_col(pre.shape(), fields@[kk]), u),
        decreases n - k,
    {
        let is_mut = fields[k].is_mut;
        if is_mut {
            match &fields[k].optic {
                Optic::Access { storage, component } => {
                    let j = cols[k];
                    let ghost jj = j as int;
                    proof {
                        lemma_resolve_bound(arch.shape(), *storage);
                        assert(write_col(pre.shape(), fields@[k as int]) == jj);
                        // this column has not been written yet
                        assert forall|u: u64| arch.leaf_at(jj, u) == pre.leaf_at(jj, u) by {
                            if exists|kk: int|
                                0 <= kk < k as int && is_write(#[trigger] fields@[kk]) && write_col(
                                    pre.shape(),
                                    fields@[kk],
                                ) == jj {
                                let kk = choose|kk: int|
                                    0 <= kk < k as int && is_write(#[trigger] fields@[kk])
                                        && write_col(pre.shape(), fields@[kk]) == jj;
                                assert(is_write(fields@[k as int]));
                                assert(write_col(pre.shape(), fields@[kk]) != write_col(
                                    pre.shape(),
                                    fields@[k as int],
                                ));
                            }
                        }
                    }
                    let cur = arch.col_fetch_many(j, &ids);
                    let mut cur = cur;
                    let mut newvals: Vec<Value> = Vec::new();
                    let ghost cur0 = cur@;
                    proof {
                        assert forall|tt: int|
                            0 <= tt < m as int implies Some(#[trigger] cur0[tt]@) == leaf_val(
                            pre,
                            jj,
                            rows@[tt].0@,
                        ) by {
                            assert(ids@[tt]@ == rows@[tt].0@);
                            assert(arch.leaf_at(jj, ids@[tt]@) matches Some(v) && cur0[tt]@ == v@);
                        }
                    }
                    let mut t: usize = 0;
                    while t < m
                        invariant
                            m == rows@.len(),
                            n == fields@.len(),
                            k < n,
                            fields@[k as int].optic matches Optic::Access {
                                component: c2,
                                ..
                            } && c2 == *component,
                            forall|tt: int|
                                0 <= tt < rows@.len() ==> (#[trigger] rows@[tt].1)@.len()
                                    == n as int,
                            cur0.len() == m as int,
                            t <= m,
                            cur@ == cur0.skip(t as int),
                            newvals@.len() == t as int,
                            forall|tt: int|
                                0 <= tt < t as int ==> Some(#[trigger] newvals@[tt]@)
                                    == written_leaf(
                                    Some(cur0[tt]@),
                                    *component,
                                    vals_of(rows@[tt].1@)[k as int],
                                ),
                        decreases m - t,
                    {
                        let curv = cur.remove(0);
                        proof {
                            assert(cur@ =~= cur0.skip(t as int + 1));
                            assert(curv == cur0[t as int]);
                            crate::value::lemma_vals_of(rows@[t as int].1@);
                        }
                        let newv = rows[t].1[k].duplicate();
                        let (_ok, nv) = crate::optic::comp_assign(component, curv, newv);
                        newvals.push(nv);
                        t = t + 1;
                    }
                    let ghost before = *arch;
                    arch.col_store_many(j, &ids, newvals);
                    proof {
                        // the just-written column now carries the written
                        // values under the row ids and kept all others
                        assert forall|u: u64|
                            !row_ids(rows@).contains(u) implies arch.leaf_at(jj, u) == pre.leaf_at(
                            jj,
                            u,
                        ) by {
                            assert(!id_views(ids@).contains(u));
                            assert(arch.leaf_at(jj, u) == before.leaf_at(jj, u));
                        }
                        assert forall|t: int|
                            0 <= t < m as int implies leaf_val(*arch, jj, #[trigger] rows@[t].0@)
                            == written_leaf(
                            leaf_val(pre, jj, rows@[t].0@),
                            *component,
                            vals_of(rows@[t].1@)[k as int],
                        ) by {
                            assert(ids@[t]@ == rows@[t].0@);
                            assert(arch.leaf_at(jj, ids@[t]@) == Some(newvals@[t]));
                            assert(Some(newvals@[t]@) == written_leaf(
                                Some(cur0[t]@),
                                *component,
                                vals_of(rows@[t].1@)[k as int],
                            ));
                            assert(Some(cur0[t]@) == leaf_val(pre, jj, rows@[t].0@));
                        }
                        // columns written earlier kept their values
                        assert forall|kk: int, t: int|
                            #![trigger fields@[kk], rows@[t]]
                            0 <= kk < k as int + 1 && is_write(fields@[kk]) && 0 <= t
                                < rows@.len() implies (fields@[kk].optic matches Optic::Access {
                                component: ck,
                                ..
                            } && leaf_val(*arch, write_col(pre.shape(), fields@[kk]), rows@[t].0@)
                                == written_leaf(
                                leaf_val(pre, write_col(pre.shape(), fields@[kk]), rows@[t].0@),
                                ck,
                                vals_of(rows@[t].1@)[kk],
                            )) by {
                            if kk < k as int {
                                assert(is_write(fields@[k as int]));
                                assert(write_col(pre.shape(), fields@[kk]) != jj);
                                assert(plan_ok(pre.shape(), fields@[kk], cols@[kk]));
                                match fields@[kk].optic {
                                    Optic::Access { storage: skk, .. } => {
                                        lemma_resolve_bound(pre.shape(), skk);
                                    }
                                    _ => {}
                                }
                                assert(arch.leaf_at(write_col(pre.shape(), fields@[kk]), rows@[t].0@)
                                    == before.leaf_at(
                                    write_col(pre.shape(), fields@[kk]),
                                    rows@[t].0@,
                                ));
                            }
                        }
                        // untouched ids on every written column, old or new
                        assert forall|kk: int, u: u64|
                            #![trigger fields@[kk], arch.leaf_at(write_col(pre.shape(), fields@[kk]), u)]
                            0 <= kk < k as int + 1 && is_write(fields@[kk]) && !row_ids(
                                rows@,
                            ).contains(u) implies arch.leaf_at(write_col(pre.shape(), fields@[kk]), u)
                            == pre.leaf_at(write_col(pre.shape(), fields@[kk]), u) by {
                            if kk < k as int {
                                assert(is_write(fields@[k as int]));
                                assert(write_col(pre.shape(), fields@[kk]) != jj);
                                assert(plan_ok(pre.shape(), fields@[kk], cols@[kk]));
                                match fields@[kk].optic {
                                    Optic::Access { storage: skk, .. } => {
                                        lemma_resolve_bound(pre.shape(), skk);
                                    }
                                    _ => {}
                                }
                                assert(arch.leaf_at(write_col(pre.shape(), fields@[kk]), u)
                                    == before.leaf_at(write_col(pre.shape(), fields@[kk]), u));
                            } else {
                                assert(!id_views(ids@).contains(u));
                                assert(arch.leaf_at(jj, u) == before.leaf_at(jj, u));
                            }
                        }
                        // columns no write touches are exactly as before
                        assert forall|jx: int, u: u64|
                            0 <= jx < pre.ncols() && !(exists|kk: int|
                                0 <= kk < k as int + 1 && is_write(#[trigger] fields@[kk])
                                    && write_col(pre.shape(), fields@[kk]) == jx) implies arch.leaf_at(
                            jx,
                            u,
                        ) == pre.leaf_at(jx, u) by {
                            assert(is_write(fields@[k as int]));
                            assert(write_col(pre.shape(), fields@[k as int]) == jj);
                            assert(jx != jj);
                            assert(arch.leaf_at(jx, u) == before.leaf_at(jx, u));
                            assert(!(exists|kk: int|
                                0 <= kk < k as int && is_write(#[trigger] fields@[kk]) && write_col(
                                    pre.shape(),
                                    fields@[kk],
                                ) == jx));
                        }
                    }
                }
                _ => {}
            }
        }
        k = k + 1;
    }
    Ok(())
}

/// The rows of a chained query: each archetype's rows in turn, in the
/// order the archetypes were given, with no merging or reordering.
pub open spec fn chain_rows_spec(archs: Seq<StructOf>, fs: Seq<FieldSpec>) -> Seq<(u64, Seq<Val>)>
    decreases archs.len(),
{
    if archs.len() == 0 {
        Seq::empty()
    } else {
        chain_rows_spec(archs.drop_last(), fs) + rows_spec(
            archs.last(),
            fs,
            archs.last().live(),
        )
    }
}

/// The first authoring error a field list raises against a chain of
/// archetypes, in archetype order.
pub open spec fn chain_error(archs: Seq<StructOf>, fs: Seq<FieldSpec>) -> Option<OpticError>
    decreases archs.len(),
{
    if archs.len() == 0 {
        None
    } else {
        match chain_error(archs.drop_last(), fs) {
            Some(e) => Some(e),
            None => fields_error(archs.last().shape(), fs),
        }
    }
}

/// Unfold `chain_error` by one archetype.
proof fn lemma_chain_take_succ(archs: Seq<StructOf>, fs: Seq<FieldSpec>, i: int)
    requires
        0 <= i < archs.len(),
    ensures
        chain_error(archs.take(i + 1), fs) == (match chain_error(archs.take(i), fs) {
            Some(e) => Some(e),
            None => fields_error(archs[i].shape(), fs),
        }),
        chain_error(archs.take(i), fs) is None ==> chain_rows_spec(archs.take(i + 1), fs)
            == chain_rows_spec(archs.take(i), fs) + rows_spec(archs[i], fs, archs[i].live()),
{
    assert(archs.take(i + 1).drop_last() =~= archs.take(i));
    assert(archs.take(i + 1).last() == archs[i]);
}

/// An error in some prefix of the chain is the chain's error.
proof fn lemma_chain_error_extends(archs: Seq<StructOf>, fs: Seq<FieldSpec>, i: int)
    requires
        0 <= i <= archs.len(),
        chain_error(archs.take(i), fs) is Some,
    ensures
        chain_error(archs, fs) == chain_error(archs.take(i), fs),
    decreases archs.len() - i,
{
    if i == archs.len() {
        assert(archs.take(i) =~= archs);
    } else {
        lemma_chain_take_succ(archs, fs, i);
        lemma_chain_error_extends(archs, fs, i + 1);
    }
}

/// Query a chain of archetypes: each one's rows in turn.
pub fn query(archs: &Vec<StructOf>, fields: &Vec<FieldSpec>) -> (r: Result<
    Vec<(Id, Vec<Value>)>,
    OpticError,
>)
    requires
        forall|i: int| 0 <= i < archs@.len() ==> (#[trigger] archs@[i]).wf(),
    ensures
        fields@.len() == 0 ==> r == Err::<Vec<(Id, Vec<Value>)>, OpticError>(OpticError::NoFields),
        fields@.len() > 0 ==> match chain_error(archs@, fields@) {
            Some(e) => r == Err::<Vec<(Id, Vec<Value>)>, OpticError>(e),
            None => r matches Ok(rows) && rows_match(rows@, chain_rows_spec(archs@, fields@)),
        },
{
    if fields.len() == 0 {
        return Err(OpticError::NoFields);
    }
    let n = archs.len();
    let mut out: Vec<(Id, Vec<Value>)> = Vec::new();
    let mut i: usize = 0;
    while i < n
        invariant
            forall|k: int| 0 <= k < archs@.len() ==> (#[trigger] archs@[k]).wf(),
            fields@.len() > 0,
            n == archs@.len(),
            i <= n,
            chain_error(archs@.take(i as int), fields@) is None,
            rows_match(out@, chain_rows_spec(archs@.take(i as int), fields@)),
        decreases n - i,
    {
        match query_rows(&archs[i], fields) {
            Err(e) => {
                proof {
                    lemma_chain_take_succ(archs@, fields@, i as int);
                    lemma_chain_error_extends(archs@, fields@, i as int + 1);
                }
                return Err(e);
            }
            Ok(mut rows) => {
                let ghost out_pre = out@;
                let ghost rows_here = rows@;
                out.append(&mut rows);
                proof {
                    lemma_chain_take_succ(archs@, fields@, i as int);
                    let spec_rows = chain_rows_spec(archs@.take(i as int + 1), fields@);
                    assert forall|k: int|
                        0 <= k < out@.len() implies (#[trigger] out@[k]).0@ == spec_rows[k].0
                        && vals_of(out@[k].1@) == spec_rows[k].1 by {
                        if k < out_pre.len() {
                            assert(out@[k] == out_pre[k]);
                        } else {
                            assert(out@[k] == rows_here[k - out_pre.len()]);
                        }
                    }
                }
            }
        }
        i = i + 1;
    }
    proof {
        assert(archs@.take(n as int) =~= archs@);
    }
    Ok(out)
}

/// What a query draws its rows from: an id enumeration plus a per-id view.
pub trait QueryComponents: Sized {
    /// The components' internal invariant.
    spec fn comp_valid(&self) -> bool;

    /// The ids to walk, in order.
    spec fn comp_ids(&self) -> Seq<u64>;

    /// The row one id yields, if every requested field succeeds.
    spec fn comp_row(&self, id: u64) -> Option<Seq<Val>>;

    /// The ids to walk.
    fn ids(&self) -> (r: Vec<Id>)
        requires
            self.comp_valid(),
        ensures
            r@.len() == self.comp_ids().len(),
            forall|i: int| 0 <= i < r@.len() ==> #[trigger] r@[i]@ == self.comp_ids()[i],
    ;

    /// The row of one id, if every requested field succeeds.
    fn get(&self, id: Id) -> (r: Option<Vec<Value>>)
        requires
            self.comp_valid(),
        ensures
            match r {
                Some(row) => self.comp_row(id@) == Some(vals_of(row@)),
                None => self.comp_row(id@) is None,
            },
    ;
}

impl QueryComponents for (StructOf, Vec<FieldSpec>) {
    open spec fn comp_valid(&self) -> bool {
        &&& self.0.wf()
        &&& self.1@.len() > 0
        &&& fields_error(self.0.shape(), self.1@) is None
    }

    open spec fn comp_ids(&self) -> Seq<u64> {
        self.0.live()
    }

    open spec fn comp_row(&self, id: u64) -> Option<Seq<Val>> {
        row_spec(self.0, self.1@, id)
    }

    fn ids(&self) -> (r: Vec<Id>)
    {
        self.0.ids()
    }

    fn get(&self, id: Id) -> (r: Option<Vec<Value>>)
    {
        match crate::get::get(&self.0, id, &self.1) {
            Ok(row) => row,
            Err(_) => unreached::<Option<Vec<Value>>>(),
        }
    }
}

/// A query over some components: get one entity's row, or iterate all.
pub struct Query<Q: QueryComponents> {
    components: Q,
}

/// The rows the components yield over an id sequence, in order, dropping
/// the ids whose row is absent.
pub open spec fn comp_rows<Q: QueryComponents>(q: Q, ids: Seq<u64>) -> Seq<(u64, Seq<Val>)>
    decreases ids.len(),
{
    if ids.len() == 0 {
        Seq::empty()
    } else {
        comp_rows(q, ids.drop_last()) + (match q.comp_row(ids.last()) {
            Some(row) => seq![(ids.last(), row)],
            None => Seq::empty(),
        })
    }
}

impl<Q: QueryComponents> Query<Q> {
    /// The wrapped components.
    pub closed spec fn comps(&self) -> Q {
        self.components
    }

    /// Wrap components into a query.
    pub fn new(components: Q) -> (r: Query<Q>)
        ensures
            r.comps() == components,
    {
        Query { components }
    }

    /// The row of one entity, if every requested field succeeds.
    pub fn get(&self, id: Id) -> (r: Option<Vec<Value>>)
        requires
            self.comps().comp_valid(),
        ensures
            match r {
                Some(row) => self.comps().comp_row(id@) == Some(vals_of(row@)),
                None => self.comps().comp_row(id@) is None,
            },
    {
        self.components.get(id)
    }

    /// Iterate all entities: the surviving rows, in id order.
    pub fn iter(&self) -> (r: QueryIter)
        requires
            self.comps().comp_valid(),
        ensures
            r.position() == 0,
            rows_match(r.rows(), comp_rows(self.comps(), self.comps().comp_ids())),
    {
        let ids = self.components.ids();
        let mut rows: Vec<(Id, Vec<Value>)> = Vec::new();
        let n = ids.len();
        let mut i: usize = 0;
        while i < n
            invariant
                self.comps().comp_valid(),
                self.comps() == self.components,
                n == ids@.len(),
                ids@.len() == self.comps().comp_ids().len(),
                forall|j: int| 0 <= j < ids@.len() ==> #[trigger] ids@[j]@ == self.comps().comp_ids()[j],
                i <= n,
                rows_match(rows@, comp_rows(self.comps(), self.comps().comp_ids().take(i as int))),
            decreases n - i,
        {
            let ghost spec_ids = self.comps().comp_ids();
            proof {
                assert(spec_ids.take(i as int + 1).drop_last() =~= spec_ids.take(i as int));
                assert(spec_ids.take(i as int + 1).last() == spec_ids[i as int]);
            }
            match self.components.get(ids[i]) {
                Some(row) => {
                    rows.push((ids[i], row));
                }
                None => {}
            }
            i = i + 1;
        }
        proof {
            assert(self.comps().comp_ids().take(n as int) =~= self.comps().comp_ids());
        }
        QueryIter { rows, pos: 0 }
    }
}

/// Iterator over a query's rows: already filtered and id-synchronized,
/// stepped through one row at a time.
pub struct QueryIter {
    rows: Vec<(Id, Vec<Value>)>,
    pos: usize,
}

impl QueryIter {
    /// All rows this iterator walks.
    pub closed spec fn rows(&self) -> Seq<(Id, Vec<Value>)> {
        self.rows@
    }

    /// How many rows were already handed out.
    pub closed spec fn position(&self) -> int {
        self.pos as int
    }

    /// Wrap finished rows into an iterator.
    pub fn new(rows: Vec<(Id, Vec<Value>)>) -> (r: QueryIter)
        ensures
            r.rows() == rows@,
            r.position() == 0,
    {
        QueryIter { rows, pos: 0 }
    }

    /// The next surviving row, in order.
    pub fn next(&mut self) -> (r: Option<&(Id, Vec<Value>)>)
        ensures
            final(self).rows() == old(self).rows(),
            old(self).position() < old(self).rows().len() ==> (r matches Some(row) && *row == old(
                self,
            ).rows()[old(self).position()] && final(self).position() == old(self).position() + 1),
            old(self).position() >= old(self).rows().len() ==> r is None && final(self).position()
                == old(self).position(),
    {
        if self.pos < self.rows.len() {
            let row = &self.rows[self.pos];
            self.pos = self.pos + 1;
            Some(row)
        } else {
            None
        }
    }
}

/// Implemented by record types that can be queried from components.
pub trait StructQuery: Sized {
    /// The components this query draws from.
    type Components: QueryComponents;

    /// Wrap the components into a query.
    fn query(components: Self::Components) -> (r: Query<Self::Components>)
        ensures
            r.comps() == components,
    {
        Query::new(components)
    }
}

impl StructQuery for Value {
    type Components = (StructOf, Vec<FieldSpec>);
}

} // verus!
