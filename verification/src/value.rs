//! Dynamic component values and their mathematical model.
//!
//! A `Value` is what one column cell holds: a scalar, an entity id, a record
//! of nested values, or an optional value. Specifications speak about the
//! ghost model `Val`, reached through the view `@`.

use vstd::prelude::*;

verus! {

broadcast use vstd::std_specs::vec::group_vec_axioms;

/// Ghost model of a [`Value`]: the same tree with `Seq` in place of `Vec`.
#[verifier::ext_equal]
pub enum Val {
    Int(i64),
    Bool(bool),
    Id(u64),
    Record(Seq<Val>),
    Opt(Option<Box<Val>>),
}

/// A dynamically shaped component value stored in a column.
#[derive(Debug, PartialEq, Eq)]
pub enum Value {
    Int(i64),
    Bool(bool),
    Id(u64),
    Record(Vec<Value>),
    Opt(Option<Box<Value>>),
}

/// The model of a [`Value`]: `Vec` becomes `Seq`, all else is kept.
pub open spec fn val_of(v: Value) -> Val
    decreases v,
    via val_of_decreases
{
    match v {
        Value::Int(i) => Val::Int(i),
        Value::Bool(b) => Val::Bool(b),
        Value::Id(n) => Val::Id(n),
        Value::Record(fs) => Val::Record(vals_of(fs@)),
        Value::Opt(o) => Val::Opt(match o {
            Option::Some(b) => Option::Some(Box::new(val_of(*b))),
            Option::None => Option::None,
        }),
    }
}

/// The models of a sequence of values, in order.
pub open spec fn vals_of(vs: Seq<Value>) -> Seq<Val>
    decreases vs,
    via vals_of_decreases
{
    if vs.len() == 0 {
        Seq::empty()
    } else {
        vals_of(vs.drop_last()).push(val_of(vs.last()))
    }
}

#[via_fn]
proof fn val_of_decreases(v: Value) {
    match v {
        Value::Record(fs) => {
            assert(decreases_to!(v => fs));
            assert(decreases_to!(fs => fs@));
        }
        _ => {}
    }
}

#[via_fn]
proof fn vals_of_decreases(vs: Seq<Value>) {
    if vs.len() > 0 {
        assert(decreases_to!(vs => vs.last()));
        vstd::seq::axiom_seq_len_decreases(vs, vs.drop_last());
    }
}

impl View for Value {
    type V = Val;

    open spec fn view(&self) -> Val {
        val_of(*self)
    }
}

/// `vals_of` is the pointwise model of the elements.
pub proof fn lemma_vals_of(vs: Seq<Value>)
    ensures
        vals_of(vs).len() == vs.len(),
        forall|i: int| 0 <= i < vs.len() ==> vals_of(vs)[i] == #[trigger] vs[i]@,
    decreases vs.len(),
{
    if vs.len() > 0 {
        lemma_vals_of(vs.drop_last());
        assert forall|i: int| 0 <= i < vs.len() implies vals_of(vs)[i] == #[trigger] vs[i]@ by {
            if i < vs.len() - 1 {
                assert(vs.drop_last()[i] == vs[i]);
            }
        }
    }
}

/// `vals_of` commutes with dropping a prefix.
pub proof fn lemma_vals_of_skip(vs: Seq<Value>, k: int)
    requires
        0 <= k <= vs.len(),
    ensures
        vals_of(vs.skip(k)) == vals_of(vs).skip(k),
{
    lemma_vals_of(vs);
    lemma_vals_of(vs.skip(k));
    assert forall|i: int|
        0 <= i < vs.len() - k implies vals_of(vs.skip(k))[i] == vals_of(vs).skip(k)[i] by {
        assert(vs.skip(k)[i] == vs[i + k]);
        assert(vals_of(vs.skip(k))[i] == vs.skip(k)[i]@);
        assert(vals_of(vs)[i + k] == vs[i + k]@);
    }
    assert(vals_of(vs.skip(k)) =~= vals_of(vs).skip(k));
}

/// `vals_of` commutes with appending one element.
pub proof fn lemma_vals_of_push(vs: Seq<Value>, v: Value)
    ensures
        vals_of(vs.push(v)) == vals_of(vs).push(v@),
{
    assert(vs.push(v).drop_last() =~= vs);
    assert(vs.push(v).last() == v);
}

impl Value {
    /// Deep copy; the copy has the same model as the original.
    pub fn duplicate(&self) -> (r: Value)
        ensures
            r@ == self@,
        decreases self,
    {
        match self {
            Value::Int(i) => Value::Int(*i),
            Value::Bool(b) => Value::Bool(*b),
            Value::Id(n) => Value::Id(*n),
            Value::Record(fs) => {
                let mut out: Vec<Value> = Vec::new();
                let mut i: usize = 0;
                while i < fs.len()
                    invariant
                        *self == Value::Record(*fs),
                        i <= fs.len(),
                        out@.len() == i as int,
                        forall|j: int| 0 <= j < i as int ==> #[trigger] out@[j]@ == fs@[j]@,
                    decreases fs.len() - i,
                {
                    proof {
                        assert(*fs == (*self)->Record_0);
                        assert(decreases_to!(*self => (*self)->Record_0));
                        assert(decreases_to!(*fs => fs@));
                        assert(decreases_to!(fs@ => fs@[i as int]));
                    }
                    let c = fs[i].duplicate();
                    out.push(c);
                    i = i + 1;
                }
                proof {
                    lemma_vals_of(out@);
                    lemma_vals_of(fs@);
                    assert forall|j: int| 0 <= j < out@.len() implies vals_of(out@)[j] == vals_of(
                        fs@,
                    )[j] by {
                        assert(out@[j]@ == fs@[j]@);
                    }
                    assert(vals_of(out@) =~= vals_of(fs@));
                }
                Value::Record(out)
            }
            Value::Opt(o) => match o {
                Option::Some(b) => Value::Opt(Option::Some(Box::new((**b).duplicate()))),
                Option::None => Value::Opt(Option::None),
            },
        }
    }
}

} // verus!
