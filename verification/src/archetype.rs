//! Archetypes: a fixed set of columns sharing one id space.
//!
//! A [`Schema`] describes the shape of an archetype's records: every leaf is
//! one column, and a nested record's columns are flattened into the owning
//! archetype's column set in declaration order. [`StructOf`] holds those
//! columns next to a liveness column; insert writes every column under one
//! shared id, and remove reassembles the record from all columns at once.

use vstd::prelude::*;

use crate::hashstorage::HashStorage;
use crate::hashstorage::Id;
use crate::hashstorage::key_index;
use crate::hashstorage::keys_of;
use crate::hashstorage::lookup;
use crate::value::Val;
use crate::value::Value;
use crate::value::lemma_vals_of;
use crate::value::lemma_vals_of_push;
use crate::value::lemma_vals_of_skip;
use crate::value::vals_of;

verus! {

broadcast use vstd::std_specs::vec::group_vec_axioms;

/// The shape of an archetype's records: a leaf is stored in one column, a
/// group of nested fields is flattened into one column per leaf.
pub enum Schema {
    Leaf,
    Group(Vec<Schema>),
}

/// How many columns a schema needs.
pub open spec fn leaf_count(s: Schema) -> nat
    decreases s,
    via leaf_count_decreases
{
    match s {
        Schema::Leaf => 1,
        Schema::Group(cs) => leaf_count_seq(cs@),
    }
}

/// How many columns a sequence of field schemas needs in total.
pub open spec fn leaf_count_seq(cs: Seq<Schema>) -> nat
    decreases cs,
    via leaf_count_seq_decreases
{
    if cs.len() == 0 {
        0
    } else {
        leaf_count_seq(cs.drop_last()) + leaf_count(cs.last())
    }
}

#[via_fn]
proof fn leaf_count_decreases(s: Schema) {
    match s {
        Schema::Group(cs) => {
            assert(decreases_to!(s => cs));
            assert(decreases_to!(cs => cs@));
        }
        _ => {}
    }
}

#[via_fn]
proof fn leaf_count_seq_decreases(cs: Seq<Schema>) {
    if cs.len() > 0 {
        assert(decreases_to!(cs => cs.last()));
        vstd::seq::axiom_seq_len_decreases(cs, cs.drop_last());
    }
}

/// One more field adds its own leaf count.
pub proof fn lemma_leaf_count_take_succ(cs: Seq<Schema>, i: int)
    requires
        0 <= i < cs.len(),
    ensures
        leaf_count_seq(cs.take(i + 1)) == leaf_count_seq(cs.take(i)) + leaf_count(cs[i]),
{
    assert(cs.take(i + 1).drop_last() =~= cs.take(i));
    assert(cs.take(i + 1).last() == cs[i]);
}

/// A prefix never needs more columns than the whole.
pub proof fn lemma_leaf_count_prefix(cs: Seq<Schema>, i: int)
    requires
        0 <= i <= cs.len(),
    ensures
        leaf_count_seq(cs.take(i)) <= leaf_count_seq(cs),
    decreases cs.len() - i,
{
    if i == cs.len() {
        assert(cs.take(i) =~= cs);
    } else {
        lemma_leaf_count_take_succ(cs, i);
        lemma_leaf_count_prefix(cs, i + 1);
    }
}

/// Whether a value has the shape a schema asks for.
pub open spec fn shape_fits(s: Schema, v: Val) -> bool
    decreases s,
    via shape_fits_decreases
{
    match s {
        Schema::Leaf => true,
        Schema::Group(cs) => v matches Val::Record(fs) && shape_fits_seq(cs@, fs),
    }
}

/// Whether a record's fields fit a sequence of field schemas, one by one.
pub open spec fn shape_fits_seq(cs: Seq<Schema>, fs: Seq<Val>) -> bool
    decreases cs,
    via shape_fits_seq_decreases
{
    if cs.len() != fs.len() {
        false
    } else if cs.len() == 0 {
        true
    } else {
        shape_fits_seq(cs.drop_last(), fs.drop_last()) && shape_fits(cs.last(), fs.last())
    }
}

#[via_fn]
proof fn shape_fits_decreases(s: Schema, v: Val) {
    match s {
        Schema::Group(cs) => {
            assert(decreases_to!(s => cs));
            assert(decreases_to!(cs => cs@));
        }
        _ => {}
    }
}

#[via_fn]
proof fn shape_fits_seq_decreases(cs: Seq<Schema>, fs: Seq<Val>) {
    if cs.len() == fs.len() && cs.len() > 0 {
        assert(decreases_to!(cs => cs.last()));
        vstd::seq::axiom_seq_len_decreases(cs, cs.drop_last());
    }
}

/// Fitting fields fit pointwise, and there are as many as there are schemas.
pub proof fn lemma_shape_fits_seq_pointwise(cs: Seq<Schema>, fs: Seq<Val>)
    requires
        shape_fits_seq(cs, fs),
    ensures
        cs.len() == fs.len(),
        forall|i: int| 0 <= i < cs.len() ==> shape_fits(cs[i], #[trigger] fs[i]),
    decreases cs.len(),
{
    if cs.len() > 0 {
        lemma_shape_fits_seq_pointwise(cs.drop_last(), fs.drop_last());
        assert forall|i: int| 0 <= i < cs.len() implies shape_fits(cs[i], #[trigger] fs[i]) by {
            if i < cs.len() - 1 {
                assert(cs.drop_last()[i] == cs[i]);
                assert(fs.drop_last()[i] == fs[i]);
                assert(shape_fits(cs.drop_last()[i], fs.drop_last()[i]));
            }
        }
    }
}

/// The column contents of a fitting value, one entry per leaf, in column
/// order (junk on values that do not fit).
pub open spec fn flat(s: Schema, v: Val) -> Seq<Val>
    decreases s,
    via flat_decreases
{
    match s {
        Schema::Leaf => seq![v],
        Schema::Group(cs) => match v {
            Val::Record(fs) => flat_seq(cs@, fs),
            _ => Seq::empty(),
        },
    }
}

/// The concatenated column contents of a record's fields.
pub open spec fn flat_seq(cs: Seq<Schema>, fs: Seq<Val>) -> Seq<Val>
    decreases cs,
    via flat_seq_decreases
{
    if cs.len() == 0 || cs.len() != fs.len() {
        Seq::empty()
    } else {
        flat_seq(cs.drop_last(), fs.drop_last()) + flat(cs.last(), fs.last())
    }
}

#[via_fn]
proof fn flat_decreases(s: Schema, v: Val) {
    match s {
        Schema::Group(cs) => {
            assert(decreases_to!(s => cs));
            assert(decreases_to!(cs => cs@));
        }
        _ => {}
    }
}

#[via_fn]
proof fn flat_seq_decreases(cs: Seq<Schema>, fs: Seq<Val>) {
    if cs.len() > 0 && cs.len() == fs.len() {
        assert(decreases_to!(cs => cs.last()));
        vstd::seq::axiom_seq_len_decreases(cs, cs.drop_last());
    }
}

/// One more field appends its own column contents.
pub proof fn lemma_flat_take_succ(cs: Seq<Schema>, fs: Seq<Val>, i: int)
    requires
        cs.len() == fs.len(),
        0 <= i < cs.len(),
    ensures
        flat_seq(cs.take(i + 1), fs.take(i + 1)) == flat_seq(cs.take(i), fs.take(i)) + flat(
            cs[i],
            fs[i],
        ),
{
    assert(cs.take(i + 1).drop_last() =~= cs.take(i));
    assert(fs.take(i + 1).drop_last() =~= fs.take(i));
    assert(cs.take(i + 1).last() == cs[i]);
    assert(fs.take(i + 1).last() == fs[i]);
}

/// The record rebuilt from column contents (junk on short input).
pub open spec fn unflat(s: Schema, vs: Seq<Val>) -> Val
    decreases s,
    via unflat_decreases
{
    match s {
        Schema::Leaf => vs[0],
        Schema::Group(cs) => Val::Record(unflat_seq(cs@, vs)),
    }
}

/// The record fields rebuilt from concatenated column contents.
pub open spec fn unflat_seq(cs: Seq<Schema>, vs: Seq<Val>) -> Seq<Val>
    decreases cs,
    via unflat_seq_decreases
{
    if cs.len() == 0 {
        Seq::empty()
    } else {
        let split = vs.len() - leaf_count(cs.last());
        unflat_seq(cs.drop_last(), vs.take(split)).push(unflat(cs.last(), vs.skip(split)))
    }
}

#[via_fn]
proof fn unflat_decreases(s: Schema, vs: Seq<Val>) {
    match s {
        Schema::Group(cs) => {
            assert(decreases_to!(s => cs));
            assert(decreases_to!(cs => cs@));
        }
        _ => {}
    }
}

#[via_fn]
proof fn unflat_seq_decreases(cs: Seq<Schema>, vs: Seq<Val>) {
    if cs.len() > 0 {
        assert(decreases_to!(cs => cs.last()));
        vstd::seq::axiom_seq_len_decreases(cs, cs.drop_last());
    }
}

/// One more field consumes its own chunk of column contents.
pub proof fn lemma_unflat_take_succ(cs: Seq<Schema>, vs: Seq<Val>, i: int)
    requires
        0 <= i < cs.len(),
        vs.len() == leaf_count_seq(cs.take(i + 1)),
    ensures
        unflat_seq(cs.take(i + 1), vs) == unflat_seq(cs.take(i), vs.take(
            leaf_count_seq(cs.take(i)) as int,
        )).push(unflat(cs[i], vs.skip(leaf_count_seq(cs.take(i)) as int))),
{
    lemma_leaf_count_take_succ(cs, i);
    let split = vs.len() - leaf_count(cs[i]);
    assert(cs.take(i + 1).drop_last() =~= cs.take(i));
    assert(cs.take(i + 1).last() == cs[i]);
    assert(split == leaf_count_seq(cs.take(i)));
}

/// Round trip of the column split: flattening a fitting value fills exactly
/// one slot per leaf, and rebuilding from those slots gives the value back.
pub proof fn lemma_flat_round_trip(s: Schema, v: Val)
    requires
        shape_fits(s, v),
    ensures
        flat(s, v).len() == leaf_count(s),
        unflat(s, flat(s, v)) == v,
    decreases s,
{
    match s {
        Schema::Leaf => {}
        Schema::Group(cs) => {
            assert(decreases_to!(s => cs));
            assert(decreases_to!(cs => cs@));
            match v {
                Val::Record(fs) => {
                    lemma_flat_round_trip_seq(cs@, fs);
                    assert(unflat_seq(cs@, flat_seq(cs@, fs)) =~= fs);
                }
                _ => {}
            }
        }
    }
}

/// A mutable reference to one element of a vector.
pub(crate) fn vec_index_mut<T>(v: &mut Vec<T>, i: usize) -> (element: &mut T)
    requires
        i < old(v).len(),
    ensures
        *element == old(v)@[i as int],
        final(v)@ == old(v)@.update(i as int, *final(element)),
{
    &mut v[i]
}

/// The number of columns a schema needs.
pub fn count_leaves(s: &Schema) -> (r: usize)
    requires
        leaf_count(*s) <= usize::MAX,
    ensures
        r == leaf_count(*s),
    decreases s,
{
    match s {
        Schema::Leaf => 1,
        Schema::Group(cs) => {
            let mut n: usize = 0;
            let mut i: usize = 0;
            while i < cs.len()
                invariant
                    *s == Schema::Group(*cs),
                    leaf_count(*s) <= usize::MAX,
                    i <= cs@.len(),
                    n == leaf_count_seq(cs@.take(i as int)),
                decreases cs@.len() - i,
            {
                proof {
                    assert(*cs == (*s)->Group_0);
                    assert(decreases_to!(*s => (*s)->Group_0));
                    assert(decreases_to!(*cs => cs@));
                    assert(decreases_to!(cs@ => cs@[i as int]));
                    lemma_leaf_count_take_succ(cs@, i as int);
                    lemma_leaf_count_prefix(cs@, i as int + 1);
                }
                let c = count_leaves(&cs[i]);
                n = n + c;
                i = i + 1;
            }
            proof {
                assert(cs@.take(cs@.len() as int) =~= cs@);
            }
            n
        }
    }
}

/// Split a fitting value into its column contents, appended to `out` in
/// column order.
pub fn flatten_value(s: &Schema, v: Value, out: &mut Vec<Value>)
    requires
        shape_fits(*s, v@),
        old(out)@.len() + leaf_count(*s) <= usize::MAX,
    ensures
        final(out)@.len() == old(out)@.len() + leaf_count(*s),
        vals_of(final(out)@) == vals_of(old(out)@) + flat(*s, v@),
    decreases s,
{
    match s {
        Schema::Leaf => {
            let ghost pre = out@;
            let ghost vv = v@;
            out.push(v);
            proof {
                lemma_vals_of_push(pre, out@[pre.len() as int]);
                assert(vals_of(out@) =~= vals_of(pre) + flat(*s, vv));
            }
        }
        Schema::Group(cs) => {
            match v {
                Value::Record(fs) => {
                    let ghost v0 = Value::Record(fs)@;
                    let ghost fs0 = vals_of(fs@);
                    proof {
                        assert(v0 == Val::Record(fs0));
                        lemma_shape_fits_seq_pointwise(cs@, fs0);
                        lemma_vals_of(fs@);
                    }
                    let mut fs = fs;
                    let ghost pre = out@;
                    let mut i: usize = 0;
                    while i < cs.len()
                        invariant
                            *s == Schema::Group(*cs),
                            shape_fits_seq(cs@, fs0),
                            cs@.len() == fs0.len(),
                            forall|k: int| 0 <= k < cs@.len() ==> shape_fits(cs@[k], #[trigger] fs0[k]),
                            i <= cs@.len(),
                            vals_of(fs@) == fs0.skip(i as int),
                            fs@.len() == fs0.len() - i as int,
                            out@.len() == pre.len() + leaf_count_seq(cs@.take(i as int)),
                            vals_of(out@) == vals_of(pre) + flat_seq(
                                cs@.take(i as int),
                                fs0.take(i as int),
                            ),
                            pre.len() + leaf_count_seq(cs@) <= usize::MAX,
                        decreases cs@.len() - i,
                    {
                        proof {
                            assert(*cs == (*s)->Group_0);
                            assert(decreases_to!(*s => (*s)->Group_0));
                            assert(decreases_to!(*cs => cs@));
                            assert(decreases_to!(cs@ => cs@[i as int]));
                            lemma_leaf_count_take_succ(cs@, i as int);
                            lemma_leaf_count_prefix(cs@, i as int + 1);
                            lemma_vals_of(fs@);
                        }
                        let ghost fs_pre = fs@;
                        let ghost out_pre = out@;
                        let child = fs.remove(0);
                        proof {
                            assert(child@ == vals_of(fs_pre)[0]);
                            assert(child@ == fs0.skip(i as int)[0]);
                            assert(child@ == fs0[i as int]);
                            assert(fs@ =~= fs_pre.skip(1));
                            lemma_vals_of_skip(fs_pre, 1);
                            assert(vals_of(fs@) =~= fs0.skip(i as int + 1));
                        }
                        flatten_value(&cs[i], child, out);
                        proof {
                            lemma_flat_take_succ(cs@, fs0, i as int);
                            assert(vals_of(out@) =~= vals_of(pre) + flat_seq(
                                cs@.take(i as int + 1),
                                fs0.take(i as int + 1),
                            ));
                        }
                        i = i + 1;
                    }
                    proof {
                        assert(cs@.take(cs@.len() as int) =~= cs@);
                        assert(fs0.take(fs0.len() as int) =~= fs0);
                    }
                }
                _ => {
                    proof {
                        assert(false);
                    }
                }
            }
        }
    }
}

/// Rebuild a value from column contents, consuming one leaf per column from
/// the front of `leaves`.
pub fn unflatten_value(s: &Schema, leaves: &mut Vec<Value>) -> (r: Value)
    requires
        leaf_count(*s) <= old(leaves)@.len(),
    ensures
        final(leaves)@ == old(leaves)@.skip(leaf_count(*s) as int),
        r@ == unflat(*s, vals_of(old(leaves)@).take(leaf_count(*s) as int)),
    decreases s,
{
    match s {
        Schema::Leaf => {
            let ghost l0 = leaves@;
            let v = leaves.remove(0);
            proof {
                lemma_vals_of(l0);
                assert(leaves@ =~= l0.skip(1));
                assert(vals_of(l0).take(1)[0] == vals_of(l0)[0]);
                assert(v@ == vals_of(l0)[0]);
            }
            v
        }
        Schema::Group(cs) => {
            let ghost l0 = leaves@;
            let ghost v0 = vals_of(l0);
            proof {
                lemma_vals_of(l0);
            }
            let mut fields: Vec<Value> = Vec::new();
            let mut i: usize = 0;
            while i < cs.len()
                invariant
                    *s == Schema::Group(*cs),
                    leaf_count_seq(cs@) <= l0.len(),
                    v0 == vals_of(l0),
                    v0.len() == l0.len(),
                    i <= cs@.len(),
                    leaves@ == l0.skip(leaf_count_seq(cs@.take(i as int)) as int),
                    fields@.len() == i as int,
                    vals_of(fields@) == unflat_seq(
                        cs@.take(i as int),
                        v0.take(leaf_count_seq(cs@.take(i as int)) as int),
                    ),
                decreases cs@.len() - i,
            {
                let ghost a = leaf_count_seq(cs@.take(i as int)) as int;
                proof {
                    assert(*cs == (*s)->Group_0);
                    assert(decreases_to!(*s => (*s)->Group_0));
                    assert(decreases_to!(*cs => cs@));
                    assert(decreases_to!(cs@ => cs@[i as int]));
                    lemma_leaf_count_take_succ(cs@, i as int);
                    lemma_leaf_count_prefix(cs@, i as int + 1);
                }
                let ghost leaves_pre = leaves@;
                let ghost lc = leaf_count(cs@[i as int]) as int;
                let child = unflatten_value(&cs[i], leaves);
                let ghost fields_pre = fields@;
                let ghost child_v = child@;
                fields.push(child);
                proof {
                    assert(leaves@ =~= l0.skip(a + lc));
                    lemma_vals_of_skip(l0, a);
                    lemma_vals_of_push(fields_pre, child);
                    let w = v0.take(a + lc);
                    lemma_unflat_take_succ(cs@, w, i as int);
                    assert(w.take(a) =~= v0.take(a));
                    assert(w.skip(a) =~= vals_of(leaves_pre).take(lc));
                    assert(vals_of(fields@) =~= unflat_seq(cs@.take(i as int + 1), w));
                }
                i = i + 1;
            }
            proof {
                assert(cs@.take(cs@.len() as int) =~= cs@);
            }
            let r = Value::Record(fields);
            proof {
                assert(r@ == Val::Record(vals_of(fields@)));
            }
            r
        }
    }
}

/// Round trip of the column split, fieldwise.
pub proof fn lemma_flat_round_trip_seq(cs: Seq<Schema>, fs: Seq<Val>)
    requires
        shape_fits_seq(cs, fs),
    ensures
        flat_seq(cs, fs).len() == leaf_count_seq(cs),
        unflat_seq(cs, flat_seq(cs, fs)) =~= fs,
    decreases cs,
{
    if cs.len() > 0 {
        vstd::seq::axiom_seq_len_decreases(cs, cs.drop_last());
        assert(decreases_to!(cs => cs.last()));
        lemma_flat_round_trip_seq(cs.drop_last(), fs.drop_last());
        lemma_flat_round_trip(cs.last(), fs.last());
        let a = flat_seq(cs.drop_last(), fs.drop_last());
        let b = flat(cs.last(), fs.last());
        let whole = flat_seq(cs, fs);
        assert(whole == a + b);
        let split = whole.len() - leaf_count(cs.last());
        assert(whole.take(split) =~= a);
        assert(whole.skip(split) =~= b);
        assert(unflat_seq(cs, whole) == unflat_seq(cs.drop_last(), a).push(
            unflat(cs.last(), b),
        ));
    }
}

/// An archetype: one column per leaf of its schema, all sharing one id
/// space, plus a liveness column that records which ids denote an entity.
pub struct StructOf {
    schema: Schema,
    columns: Vec<HashStorage<Value>>,
    ids: HashStorage<bool>,
}

impl StructOf {
    /// The shape of this archetype's records.
    pub closed spec fn shape(&self) -> Schema {
        self.schema
    }

    /// How many columns this archetype holds.
    pub closed spec fn ncols(&self) -> int {
        self.columns@.len() as int
    }

    /// The entries of column `j`.
    pub closed spec fn col(&self, j: int) -> Seq<(u64, Value)> {
        self.columns@[j]@
    }

    /// The live ids, in enumeration order.
    pub closed spec fn live(&self) -> Seq<u64> {
        self.ids.key_seq()
    }

    /// The next id this archetype would allocate.
    pub closed spec fn fresh(&self) -> u64 {
        self.ids.fresh()
    }

    /// Whether an id currently denotes an entity.
    pub open spec fn is_live(&self, k: u64) -> bool {
        self.live().contains(k)
    }

    /// The entry of column `j` under an id.
    pub open spec fn leaf_at(&self, j: int, id: u64) -> Option<Value> {
        lookup(self.col(j), id)
    }

    /// The models of all column entries under an id (meaningful when live).
    pub open spec fn leaf_vals_at(&self, id: u64) -> Seq<Val> {
        Seq::new(
            self.ncols() as nat,
            |j: int|
                match lookup(self.col(j), id) {
                    Some(v) => v@,
                    None => Val::Bool(false),
                },
        )
    }

    /// The record stored under an id: the columns' entries regrouped by the
    /// schema, or nothing if the id is not live.
    pub open spec fn stored(&self, id: u64) -> Option<Val> {
        if self.is_live(id) {
            Some(unflat(self.shape(), self.leaf_vals_at(id)))
        } else {
            None
        }
    }

    /// One column per schema leaf; every column holds exactly the live ids,
    /// in the same order, and shares the liveness column's id counter.
    pub closed spec fn wf(&self) -> bool {
        &&& self.columns@.len() == leaf_count(self.schema)
        &&& self.ids.wf()
        &&& forall|j: int| 0 <= j < self.columns@.len() ==> (#[trigger] self.columns@[j]).wf()
        &&& forall|j: int|
            0 <= j < self.columns@.len() ==> keys_of((#[trigger] self.columns@[j])@)
                == self.ids.key_seq()
        &&& forall|j: int|
            0 <= j < self.columns@.len() ==> (#[trigger] self.columns@[j]).fresh()
                == self.ids.fresh()
    }

    /// What well-formedness gives to the outside.
    pub proof fn lemma_wf_facts(&self)
        requires
            self.wf(),
        ensures
            self.ncols() == leaf_count(self.shape()),
            crate::hashstorage::distinct(self.live()),
            forall|j: int| 0 <= j < self.ncols() ==> keys_of(#[trigger] self.col(j)) == self.live(),
            forall|j: int|
                0 <= j < self.ncols() ==> crate::hashstorage::distinct(
                    keys_of(#[trigger] self.col(j)),
                ),
            forall|j: int, k: u64|
                0 <= j < self.ncols() ==> ((#[trigger] self.leaf_at(j, k)) is Some <==> self.is_live(
                    k,
                )),
            forall|k: u64| self.is_live(k) ==> k < self.fresh(),
    {
        assert forall|j: int, k: u64|
            0 <= j < self.ncols() implies ((#[trigger] self.leaf_at(j, k)) is Some
            <==> self.is_live(k)) by {
            crate::hashstorage::lemma_lookup_contains(self.col(j), k);
        }
        assert forall|k: u64| self.is_live(k) implies k < self.fresh() by {
            let i = choose|i: int| 0 <= i < self.live().len() && self.live()[i] == k;
            assert(self.live()[i] < self.ids.fresh());
        }
    }

    /// An empty archetype of a given shape.
    pub fn new(schema: Schema) -> (r: StructOf)
        requires
            leaf_count(schema) <= usize::MAX,
        ensures
            r.wf(),
            r.shape() == schema,
            r.live() == Seq::<u64>::empty(),
            r.fresh() == 0,
    {
        let n = count_leaves(&schema);
        let mut columns: Vec<HashStorage<Value>> = Vec::new();
        let mut j: usize = 0;
        while j < n
            invariant
                j <= n,
                columns@.len() == j as int,
                forall|i: int|
                    0 <= i < j as int ==> (#[trigger] columns@[i]).wf() && columns@[i]@
                        == Seq::<(u64, Value)>::empty() && columns@[i].fresh() == 0,
            decreases n - j,
        {
            columns.push(HashStorage::new());
            j = j + 1;
        }
        let r = StructOf { schema, columns, ids: HashStorage::new() };
        proof {
            assert forall|i: int|
                0 <= i < r.columns@.len() implies keys_of((#[trigger] r.columns@[i])@)
                == r.ids.key_seq() by {
                assert(keys_of(r.columns@[i]@) =~= r.ids.key_seq());
            }
        }
        r
    }

    /// The ids of all live entities, in enumeration order.
    pub fn ids(&self) -> (r: Vec<Id>)
        ensures
            r@.len() == self.live().len(),
            forall|i: int| 0 <= i < r@.len() ==> #[trigger] r@[i]@ == self.live()[i],
    {
        self.ids.ids()
    }

    /// The number of live entities.
    pub fn len(&self) -> (r: usize)
        ensures
            r == self.live().len(),
    {
        self.ids.len()
    }

    /// The schema, for resolving storage paths against.
    pub fn schema_ref(&self) -> (r: &Schema)
        ensures
            *r == self.shape(),
    {
        &self.schema
    }

    /// The number of columns.
    pub fn width(&self) -> (r: usize)
        ensures
            r as int == self.ncols(),
    {
        self.columns.len()
    }

    /// Read column `j` under an id.
    pub fn col_get(&self, j: usize, id: Id) -> (r: Option<&Value>)
        requires
            self.wf(),
            (j as int) < self.ncols(),
        ensures
            match r {
                Some(v) => self.leaf_at(j as int, id@) == Some(*v),
                None => self.leaf_at(j as int, id@) is None,
            },
    {
        self.columns[j].get(id)
    }

    /// The ids of column `j`: every column enumerates exactly the live ids,
    /// in the same order, so any column is as good an id source as the
    /// liveness column itself.
    pub fn col_ids(&self, j: usize) -> (r: Vec<Id>)
        requires
            self.wf(),
            (j as int) < self.ncols(),
        ensures
            r@.len() == self.live().len(),
            forall|i: int| 0 <= i < r@.len() ==> #[trigger] r@[i]@ == self.live()[i],
    {
        self.columns[j].ids()
    }

    /// Parallel fetch from column `j`: one value per id, under the caller's
    /// guarantee that the ids are pairwise distinct and live.
    pub fn col_fetch_many(&self, j: usize, ids: &Vec<Id>) -> (r: Vec<Value>)
        requires
            self.wf(),
            (j as int) < self.ncols(),
            crate::hashstorage::distinct(crate::hashstorage::id_views(ids@)),
            forall|k: int| 0 <= k < ids@.len() ==> self.is_live(#[trigger] ids@[k]@),
        ensures
            r@.len() == ids@.len(),
            forall|k: int|
                0 <= k < ids@.len() ==> (self.leaf_at(j as int, #[trigger] ids@[k]@) matches Some(
                    v,
                ) && r@[k]@ == v@),
    {
        proof {
            self.lemma_wf_facts();
            assert forall|k: int|
                0 <= k < ids@.len() implies lookup(self.columns@[j as int]@, #[trigger] ids@[k]@)
                is Some by {
                assert(self.leaf_at(j as int, ids@[k]@) is Some);
            }
        }
        self.columns[j].fetch_many(ids)
    }

    /// Parallel store into column `j`, positionally aligned with a distinct,
    /// live id sequence: only that column changes, and in it only those ids.
    pub fn col_store_many(&mut self, j: usize, ids: &Vec<Id>, vals: Vec<Value>)
        requires
            old(self).wf(),
            (j as int) < old(self).ncols(),
            ids@.len() == vals@.len(),
            crate::hashstorage::distinct(crate::hashstorage::id_views(ids@)),
            forall|k: int| 0 <= k < ids@.len() ==> old(self).is_live(#[trigger] ids@[k]@),
        ensures
            final(self).wf(),
            final(self).shape() == old(self).shape(),
            final(self).ncols() == old(self).ncols(),
            final(self).live() == old(self).live(),
            final(self).fresh() == old(self).fresh(),
            forall|k: int|
                0 <= k < ids@.len() ==> final(self).leaf_at(j as int, #[trigger] ids@[k]@) == Some(
                    vals@[k],
                ),
            forall|u: u64|
                !crate::hashstorage::id_views(ids@).contains(u) ==> final(self).leaf_at(
                    j as int,
                    u,
                ) == old(self).leaf_at(j as int, u),
            forall|i: int, u: u64|
                0 <= i < old(self).ncols() && i != j as int ==> final(self).leaf_at(i, u) == old(
                    self,
                ).leaf_at(i, u),
    {
        proof {
            self.lemma_wf_facts();
            assert forall|k: int|
                0 <= k < ids@.len() implies lookup(self.columns@[j as int]@, #[trigger] ids@[k]@)
                is Some by {
                assert(self.leaf_at(j as int, ids@[k]@) is Some);
            }
        }
        let col = vec_index_mut(&mut self.columns, j);
        col.store_many(ids, vals);
    }

    /// Insert a record: every column receives its leaf, and the liveness
    /// column allocates the one shared id, which is returned.
    pub fn insert(&mut self, value: Value) -> (r: Id)
        requires
            old(self).wf(),
            shape_fits(old(self).shape(), value@),
            old(self).fresh() < u64::MAX,
        ensures
            final(self).wf(),
            final(self).shape() == old(self).shape(),
            final(self).ncols() == old(self).ncols(),
            r@ == old(self).fresh(),
            final(self).fresh() == old(self).fresh() + 1,
            final(self).live() == old(self).live().push(r@),
            !old(self).is_live(r@),
            final(self).stored(r@) == Some(value@),
            forall|k: u64| k != r@ ==> final(self).stored(k) == old(self).stored(k),
            forall|j: int, k: u64|
                0 <= j < old(self).ncols() && k != r@ ==> final(self).leaf_at(j, k) == old(
                    self,
                ).leaf_at(j, k),
            forall|j: int|
                0 <= j < old(self).ncols() ==> ((#[trigger] final(self).leaf_at(j, r@)) matches Some(
                    w,
                ) && w@ == flat(old(self).shape(), value@)[j]),
    {
        let ghost v0 = value@;
        let ghost f0 = self.ids.fresh();
        let ghost sh = self.schema;
        let ghost flat_vals = flat(sh, v0);
        proof {
            lemma_flat_round_trip(sh, v0);
        }
        let n = self.columns.len();
        let mut leaves: Vec<Value> = Vec::new();
        flatten_value(&self.schema, value, &mut leaves);
        proof {
            assert(vals_of(leaves@) =~= flat_vals);
            lemma_vals_of(leaves@);
        }
        let mut j: usize = 0;
        while j < n
            invariant
                self.schema == sh,
                self.ids == old(self).ids,
                f0 == self.ids.fresh(),
                f0 < u64::MAX,
                old(self).wf(),
                n == self.columns@.len(),
                n == old(self).columns@.len(),
                flat_vals.len() == n as int,
                j <= n,
                vals_of(leaves@) == flat_vals.skip(j as int),
                leaves@.len() == n - j,
                forall|i: int|
                    j as int <= i < n as int ==> #[trigger] self.columns@[i] == old(
                        self,
                    ).columns@[i],
                forall|i: int|
                    0 <= i < j as int ==> {
                        let c = #[trigger] self.columns@[i];
                        &&& c.wf()
                        &&& c.fresh() == f0 + 1
                        &&& c.key_seq() == old(self).ids.key_seq().push(f0)
                        &&& (lookup(c@, f0) matches Some(w) && w@ == flat_vals[i])
                        &&& forall|k: u64| k != f0 ==> lookup(c@, k) == lookup(
                            old(self).columns@[i]@,
                            k,
                        )
                    },
            decreases n - j,
        {
            proof {
                lemma_vals_of(leaves@);
            }
            let ghost leaves_pre = leaves@;
            let leaf = leaves.remove(0);
            proof {
                assert(leaf@ == vals_of(leaves_pre)[0]);
                assert(leaves@ =~= leaves_pre.skip(1));
                lemma_vals_of_skip(leaves_pre, 1);
                assert(vals_of(leaves@) =~= flat_vals.skip(j as int + 1));
            }
            let col = vec_index_mut(&mut self.columns, j);
            col.insert(leaf);
            j = j + 1;
        }
        let id = self.ids.insert(true);
        proof {
            let post = *self;
            let pre = *old(self);
            assert forall|i: int|
                0 <= i < n as int implies keys_of((#[trigger] post.columns@[i])@)
                == post.ids.key_seq() by {
                assert(post.columns@[i].key_seq() == pre.ids.key_seq().push(f0));
            }
            assert(post.wf());
            // the new id was not live before
            if pre.is_live(f0) {
                let i = choose|i: int| 0 <= i < pre.live().len() && pre.live()[i] == f0;
                assert(pre.live()[i] < pre.ids.fresh());
            }
            // the stored record under the new id is exactly the inserted value
            assert forall|i: int|
                0 <= i < n as int implies post.leaf_vals_at(f0)[i] == flat_vals[i] by {
                assert(lookup(post.col(i), f0) matches Some(w) && w@ == flat_vals[i]);
            }
            assert(post.leaf_vals_at(f0) =~= flat_vals);
            assert(post.live().last() == f0);
            assert(post.is_live(f0));
            assert(post.stored(f0) == Some(v0));
            // all other ids kept their liveness and their column entries
            assert forall|k: u64| k != f0 implies post.stored(k) == pre.stored(k) by {
                assert(post.live() == pre.live().push(f0));
                if post.is_live(k) {
                    let i = choose|i: int| 0 <= i < post.live().len() && post.live()[i] == k;
                    assert(pre.live()[i] == k);
                    assert(pre.is_live(k));
                }
                if pre.is_live(k) {
                    let i = choose|i: int| 0 <= i < pre.live().len() && pre.live()[i] == k;
                    assert(post.live()[i] == k);
                    assert(post.is_live(k));
                }
                if pre.is_live(k) {
                    assert(post.leaf_vals_at(k) =~= pre.leaf_vals_at(k));
                }
            }
        }
        id
    }

    /// Remove an entity: every column must yield its entry before anything
    /// is cleared, and the record is reassembled from those entries.
    pub fn remove(&mut self, id: Id) -> (r: Option<Value>)
        requires
            old(self).wf(),
        ensures
            final(self).wf(),
            final(self).shape() == old(self).shape(),
            final(self).ncols() == old(self).ncols(),
            final(self).fresh() == old(self).fresh(),
            r is Some <==> old(self).stored(id@) is Some,
            old(self).stored(id@) is None ==> *final(self) == *old(self),
            old(self).stored(id@) matches Some(w) ==> {
                &&& r matches Some(v) && v@ == w
                &&& final(self).live() == old(self).live().remove(
                    key_index(old(self).live(), id@),
                )
                &&& final(self).stored(id@) is None
                &&& forall|k: u64| k != id@ ==> final(self).stored(k) == old(self).stored(k)
                &&& forall|j: int, k: u64|
                    0 <= j < old(self).ncols() && k != id@ ==> final(self).leaf_at(j, k) == old(
                        self,
                    ).leaf_at(j, k)
            },
    {
        proof {
            crate::hashstorage::lemma_lookup_contains(self.ids@, id@);
        }
        if self.ids.get(id).is_none() {
            return None;
        }
        let ghost pre = *old(self);
        let ghost ki = key_index(pre.live(), id@);
        proof {
            crate::hashstorage::lemma_key_index(pre.live(), id@);
            pre.lemma_wf_facts();
        }
        let n = self.columns.len();
        let mut leaves: Vec<Value> = Vec::new();
        let mut j: usize = 0;
        while j < n
            invariant
                self.schema == pre.schema,
                self.ids == pre.ids,
                pre.wf(),
                pre.is_live(id@),
                n == self.columns@.len(),
                n == pre.columns@.len(),
                j <= n,
                leaves@.len() == j as int,
                forall|i: int|
                    j as int <= i < n as int ==> #[trigger] self.columns@[i] == pre.columns@[i],
                forall|i: int|
                    0 <= i < j as int ==> {
                        let c = #[trigger] self.columns@[i];
                        &&& c.wf()
                        &&& c.fresh() == pre.ids.fresh()
                        &&& c.key_seq() == pre.ids.key_seq().remove(
                            key_index(pre.ids.key_seq(), id@),
                        )
                        &&& lookup(c@, id@) is None
                        &&& forall|k: u64| k != id@ ==> lookup(c@, k) == lookup(
                            pre.columns@[i]@,
                            k,
                        )
                    },
                forall|i: int|
                    0 <= i < j as int ==> #[trigger] leaves@[i]@ == pre.leaf_vals_at(id@)[i],
            decreases n - j,
        {
            proof {
                crate::hashstorage::lemma_lookup_contains(self.columns@[j as int]@, id@);
            }
            let ghost col_pre = self.columns@[j as int]@;
            let ghost leaves_pre = leaves@;
            let col = vec_index_mut(&mut self.columns, j);
            let entry = col.remove(id);
            match entry {
                Some(v) => {
                    let ghost vv = v@;
                    leaves.push(v);
                    proof {
                        assert forall|i: int|
                            0 <= i < j as int + 1 implies #[trigger] leaves@[i]@
                            == pre.leaf_vals_at(id@)[i] by {
                            if i < j as int {
                                assert(leaves@[i] == leaves_pre[i]);
                                assert(leaves_pre[i]@ == pre.leaf_vals_at(id@)[i]);
                            } else {
                                assert(col_pre == pre.columns@[i]@);
                                assert(lookup(pre.col(i), id@) == Some(v));
                                assert(leaves@[i]@ == vv);
                            }
                        }
                    }
                }
                None => {
                    unreached::<()>();
                }
            }
            j = j + 1;
        }
        proof {
            crate::hashstorage::lemma_lookup_contains(self.ids@, id@);
        }
        self.ids.remove(id);
        let ghost leaves_full = leaves@;
        proof {
            lemma_vals_of(leaves_full);
            assert forall|i: int|
                0 <= i < n as int implies vals_of(leaves_full)[i] == pre.leaf_vals_at(id@)[i] by {
                assert(leaves_full[i]@ == pre.leaf_vals_at(id@)[i]);
            }
            assert(vals_of(leaves_full) =~= pre.leaf_vals_at(id@));
        }
        let record = unflatten_value(&self.schema, &mut leaves);
        proof {
            let post = *self;
            // the reassembled record is exactly the stored one
            assert(vals_of(leaves_full).take(leaf_count(pre.schema) as int) =~= vals_of(
                leaves_full,
            ));
            assert(record@ == unflat(pre.shape(), pre.leaf_vals_at(id@)));
            // every column and the liveness column removed the same position
            assert forall|i: int|
                0 <= i < n as int implies keys_of((#[trigger] post.columns@[i])@)
                == post.ids.key_seq() by {}
            assert(post.wf());
            crate::hashstorage::lemma_remove_contains(pre.live(), ki);
            assert(pre.live()[ki] == id@);
            assert(!post.is_live(id@));
            assert forall|k: u64| k != id@ implies post.stored(k) == pre.stored(k) by {
                if pre.is_live(k) {
                    assert(post.leaf_vals_at(k) =~= pre.leaf_vals_at(k));
                }
            }
        }
        Some(record)
    }
}

/// Round trip: inserting a record and then removing the id it got hands
/// the record back, leaves every entity's stored record exactly as it
/// was, and restores the live id sequence. The three states are related
/// by what `insert` and `remove` guarantee of themselves.
pub proof fn lemma_insert_remove_round_trip(
    before: StructOf,
    inserted: StructOf,
    after: StructOf,
    v: Val,
    id: u64,
    removed: Option<Val>,
)
    requires
        !before.is_live(id),
        inserted.stored(id) == Some(v),
        inserted.live() == before.live().push(id),
        forall|k: u64| k != id ==> inserted.stored(k) == before.stored(k),
        inserted.stored(id) matches Some(w) ==> {
            &&& removed == Some(w)
            &&& after.stored(id) is None
            &&& after.live() == inserted.live().remove(key_index(inserted.live(), id))
            &&& forall|k: u64| k != id ==> after.stored(k) == inserted.stored(k)
        },
    ensures
        removed == Some(v),
        forall|k: u64| after.stored(k) == before.stored(k),
        after.live() == before.live(),
{
    assert(inserted.live().last() == id);
    assert(key_index(inserted.live(), id) == inserted.live().len() - 1);
    assert(inserted.live().remove(inserted.live().len() - 1) =~= before.live());
}

/// A collection of components bundled together: an entity type stored as
/// one column per field, behind one shared id space.
pub trait Archetype: Sized {
    /// The live ids, in enumeration order.
    spec fn live_ids(&self) -> Seq<u64>;

    /// The archetype's internal invariant.
    spec fn valid(&self) -> bool;

    /// The record stored under an id, if the id is live.
    spec fn stored_at(&self, id: u64) -> Option<Val>;

    /// Whether a record has the shape this archetype stores.
    spec fn fits(&self, v: Val) -> bool;

    /// Whether one more entity fits.
    spec fn room(&self) -> bool;

    /// The ids of all live entities.
    fn ids(&self) -> (r: Vec<Id>)
        requires
            self.valid(),
        ensures
            r@.len() == self.live_ids().len(),
            forall|i: int| 0 <= i < r@.len() ==> #[trigger] r@[i]@ == self.live_ids()[i],
    ;

    /// Insert an entity, returning its id.
    fn insert(&mut self, value: Value) -> (r: Id)
        requires
            old(self).valid(),
            old(self).fits(value@),
            old(self).room(),
        ensures
            final(self).valid(),
            !old(self).live_ids().contains(r@),
            final(self).live_ids() == old(self).live_ids().push(r@),
            final(self).stored_at(r@) == Some(value@),
            forall|k: u64| k != r@ ==> final(self).stored_at(k) == old(self).stored_at(k),
    ;

    /// Remove an entity, returning its record.
    fn remove(&mut self, id: Id) -> (r: Option<Value>)
        requires
            old(self).valid(),
        ensures
            final(self).valid(),
            r is Some <==> old(self).stored_at(id@) is Some,
            old(self).stored_at(id@) is None ==> *final(self) == *old(self),
            old(self).stored_at(id@) matches Some(w) ==> {
                &&& r matches Some(v) && v@ == w
                &&& final(self).stored_at(id@) is None
                &&& final(self).live_ids() == old(self).live_ids().remove(
                    key_index(old(self).live_ids(), id@),
                )
                &&& forall|k: u64| k != id@ ==> final(self).stored_at(k) == old(self).stored_at(k)
            },
    ;
}

impl Archetype for StructOf {
    open spec fn live_ids(&self) -> Seq<u64> {
        self.live()
    }

    open spec fn valid(&self) -> bool {
        self.wf()
    }

    open spec fn stored_at(&self, id: u64) -> Option<Val> {
        self.stored(id)
    }

    open spec fn fits(&self, v: Val) -> bool {
        shape_fits(self.shape(), v)
    }

    open spec fn room(&self) -> bool {
        self.fresh() < u64::MAX
    }

    fn ids(&self) -> (r: Vec<Id>)
    {
        StructOf::ids(self)
    }

    fn insert(&mut self, value: Value) -> (r: Id)
    {
        StructOf::insert(self, value)
    }

    fn remove(&mut self, id: Id) -> (r: Option<Value>)
    {
        StructOf::remove(self, id)
    }
}

/// Implemented for containers of records, to name the archetype they split
/// into (the container of structs becomes a struct of containers).
pub trait StructOfAble {
    /// The record type which is split into components.
    type Struct;
    /// The storage family the columns use.
    type Family;
}

/// Implemented for record types, to name their split, columnar form.
pub trait SplitFields {
    /// The archetype that stores this record type column by column.
    type StructOf: Archetype;
}

impl SplitFields for Value {
    type StructOf = StructOf;
}

/// What borrowed views of a record look like.
pub trait StructRef {
    /// The type that holds immutable references to the fields.
    type Ref<'a> where Self: 'a;
    /// The type that holds mutable references to the fields.
    type RefMut<'a> where Self: 'a;
}

impl StructRef for Value {
    type Ref<'a> = &'a Value;
    type RefMut<'a> = &'a mut Value;
}

/// Iterator over the entities of an archetype, consuming it: each step
/// removes the next live entity and hands the record out.
pub struct ArchetypeIntoIter {
    ids: Vec<Id>,
    pos: usize,
    archetype: StructOf,
}

impl ArchetypeIntoIter {
    /// The ids not yet handed out.
    pub closed spec fn remaining(&self) -> Seq<u64> {
        crate::hashstorage::id_views(self.ids@).skip(self.pos as int)
    }

    /// The iterator walks ids that are still live in its archetype.
    pub closed spec fn inv(&self) -> bool {
        &&& self.archetype.wf()
        &&& self.pos <= self.ids@.len()
        &&& self.remaining() == self.archetype.live()
    }

    /// Construct an iterator, consuming the archetype.
    pub fn new(archetype: StructOf) -> (r: ArchetypeIntoIter)
        requires
            archetype.wf(),
        ensures
            r.inv(),
            r.remaining() == archetype.live(),
    {
        let ids = StructOf::ids(&archetype);
        let r = ArchetypeIntoIter { ids, pos: 0, archetype };
        proof {
            assert(r.remaining() =~= crate::hashstorage::id_views(r.ids@));
            assert(r.remaining() =~= r.archetype.live());
        }
        r
    }

    /// The next entity: its id and its removed record.
    pub fn next(&mut self) -> (r: Option<(Id, Value)>)
        requires
            old(self).inv(),
        ensures
            final(self).inv(),
            old(self).remaining().len() == 0 ==> r is None && final(self).remaining().len() == 0,
            old(self).remaining().len() > 0 ==> (r matches Some(p) && p.0@ == old(
                self,
            ).remaining()[0] && final(self).remaining() == old(self).remaining().skip(1) && Some(
                p.1@,
            ) == old(self).archetype_state().stored(p.0@)),
    {
        if self.pos >= self.ids.len() {
            return None;
        }
        let id = self.ids[self.pos];
        proof {
            assert(self.remaining()[0] == id@);
            assert(self.archetype.live().contains(id@)) by {
                assert(self.archetype.live()[0] == self.remaining()[0]);
            }
            crate::hashstorage::lemma_key_index(self.archetype.live(), id@);
            self.archetype.lemma_wf_facts();
            // the first remaining id sits at position zero of the live order
            assert(key_index(self.archetype.live(), id@) == 0) by {
                let ki = key_index(self.archetype.live(), id@);
                if ki != 0 {
                    assert(self.archetype.live()[ki] == id@);
                    assert(self.archetype.live()[0] == id@);
                    assert(crate::hashstorage::distinct(self.archetype.live()));
                }
            }
        }
        let record = match self.archetype.remove(id) {
            Some(record) => record,
            None => {
                proof {
                    assert(self.archetype.is_live(id@));
                }
                unreached::<Value>()
            }
        };
        self.pos = self.pos + 1;
        proof {
            assert(self.remaining() =~= old(self).remaining().skip(1));
            assert(self.archetype.live() =~= old(self).archetype.live().remove(0));
            assert(old(self).archetype.live().remove(0) =~= old(self).archetype.live().skip(1));
            assert(old(self).archetype.live() =~= old(self).remaining());
        }
        Some((id, record))
    }

    /// The archetype as the iterator currently holds it.
    pub closed spec fn archetype_state(&self) -> StructOf {
        self.archetype
    }
}

} // verus!
