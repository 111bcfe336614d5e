//! The dynamically typed value that derived conversions produce and consume.
use vstd::prelude::*;

verus! {

broadcast use {vstd::std_specs::vec::group_vec_axioms, vstd::seq::group_seq_axioms};

/// A dynamically typed value: null, a boolean, an integer, a string, a sequence,
/// or a map from string keys to values (entries kept in order).
#[derive(Debug, PartialEq, Eq)]
pub enum Variant {
    Nil,
    Bool(bool),
    Int(i64),
    Str(String),
    Array(Vec<Variant>),
    Dictionary(Vec<(String, Variant)>),
}

/// The mathematical model of a `Variant`.
pub enum VModel {
    Nil,
    Bool(bool),
    Int(int),
    Str(Seq<char>),
    Array(Seq<VModel>),
    Dictionary(Seq<(Seq<char>, VModel)>),
}

pub open spec fn model_of(v: Variant) -> VModel
    decreases v,
{
    match v {
        Variant::Nil => VModel::Nil,
        Variant::Bool(b) => VModel::Bool(b),
        Variant::Int(n) => VModel::Int(n as int),
        Variant::Str(s) => VModel::Str(s@),
        Variant::Array(items) => VModel::Array(models_of(items@)),
        Variant::Dictionary(entries) => VModel::Dictionary(entry_models_of(entries@)),
    }
}

pub open spec fn models_of(s: Seq<Variant>) -> Seq<VModel>
    decreases s,
{
    if s.len() == 0 {
        Seq::empty()
    } else {
        models_of(s.drop_last()).push(model_of(s.last()))
    }
}

pub open spec fn entry_models_of(s: Seq<(String, Variant)>) -> Seq<(Seq<char>, VModel)>
    decreases s,
{
    if s.len() == 0 {
        Seq::empty()
    } else {
        entry_models_of(s.drop_last()).push((s.last().0@, model_of(s.last().1)))
    }
}

impl View for Variant {
    type V = VModel;

    open spec fn view(&self) -> VModel {
        model_of(*self)
    }
}

pub proof fn lemma_models_of(s: Seq<Variant>)
    ensures
        models_of(s).len() == s.len(),
        forall|i: int| 0 <= i < s.len() ==> #[trigger] models_of(s)[i] == model_of(s[i]),
    decreases s.len(),
{
    if s.len() > 0 {
        lemma_models_of(s.drop_last());
    }
}

pub proof fn lemma_entry_models_of(s: Seq<(String, Variant)>)
    ensures
        entry_models_of(s).len() == s.len(),
        forall|i: int|
            0 <= i < s.len() ==> #[trigger] entry_models_of(s)[i] == (s[i].0@, model_of(s[i].1)),
    decreases s.len(),
{
    if s.len() > 0 {
        lemma_entry_models_of(s.drop_last());
    }
}

impl Variant {
    /// A deep copy with the same model.
    pub fn duplicate(&self) -> (r: Variant)
        ensures
            r@ == self@,
        decreases self,
    {
        match self {
            Variant::Nil => Variant::Nil,
            Variant::Bool(b) => Variant::Bool(*b),
            Variant::Int(n) => Variant::Int(*n),
            Variant::Str(s) => Variant::Str(s.clone()),
            Variant::Array(items) => {
                let mut out: Vec<Variant> = Vec::new();
                let mut i: usize = 0;
                while i < items.len()
                    invariant
                        *self == Variant::Array(*items),
                        i <= items.len(),
                        models_of(out@) == models_of(items@.take(i as int)),
                    decreases items.len() - i,
                {
                    proof {
                        vstd::std_specs::vec::axiom_vec_index_decreases(*items, i as int);
                        assert(decreases_to!(*self => self->Array_0));
                    }
                    let c = items[i].duplicate();
                    let ghost prev = out@;
                    out.push(c);
                    proof {
                        assert(items@.take(i + 1).drop_last() == items@.take(i as int));
                        assert(out@.drop_last() == prev);
                    }
                    i = i + 1;
                }
                proof {
                    assert(items@.take(items.len() as int) == items@);
                }
                Variant::Array(out)
            },
            Variant::Dictionary(entries) => {
                let mut out: Vec<(String, Variant)> = Vec::new();
                let mut i: usize = 0;
                while i < entries.len()
                    invariant
                        *self == Variant::Dictionary(*entries),
                        i <= entries.len(),
                        entry_models_of(out@) == entry_models_of(entries@.take(i as int)),
                    decreases entries.len() - i,
                {
                    proof {
                        vstd::std_specs::vec::axiom_vec_index_decreases(*entries, i as int);
                        assert(decreases_to!(*self => self->Dictionary_0));
                        assert(decreases_to!(entries@[i as int] => entries@[i as int].1));
                    }
                    let k = entries[i].0.clone();
                    let c = entries[i].1.duplicate();
                    let ghost prev = out@;
                    out.push((k, c));
                    proof {
                        assert(entries@.take(i + 1).drop_last() == entries@.take(i as int));
                        assert(out@.drop_last() == prev);
                    }
                    i = i + 1;
                }
                proof {
                    assert(entries@.take(entries.len() as int) == entries@);
                }
                Variant::Dictionary(out)
            },
        }
    }
}

} // verus!
