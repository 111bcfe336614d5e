//! Bound extension: every generic parameter used in a field must support the
//! conversion being derived.
use vstd::prelude::*;
use crate::repr::{TypeRef, FieldsRepr, Repr, mentions, specs_of};

verus! {

/// A generic parameter with the trait bounds it carries (as paths).
#[derive(Debug, PartialEq, Eq)]
pub struct GenericParam {
    pub name: String,
    pub bounds: Vec<String>,
}

/// Whether some field of the shape mentions parameter `p`.
pub open spec fn fields_mention(fr: FieldsRepr, p: int) -> bool {
    exists|i: int| 0 <= i < specs_of(fr).len() && mentions(#[trigger] specs_of(fr)[i].ty, p)
}

/// Whether some field anywhere in the representation mentions parameter `p`.
pub open spec fn repr_mentions(repr: Repr, p: int) -> bool {
    match repr {
        Repr::Record(fr) => fields_mention(fr, p),
        Repr::Union(cases) => exists|c: int| 0 <= c < cases@.len() && fields_mention(#[trigger] cases@[c].fields, p),
    }
}

/// Every parameter that a field mentions is declared.
pub open spec fn params_declared(repr: Repr, n: nat) -> bool {
    forall|p: int| #[trigger] repr_mentions(repr, p) ==> 0 <= p < n
}

/// The bounds after extension: the bound is appended where the
/// representation mentions the parameter, and nothing else changes.
pub open spec fn extended(old: GenericParam, new: GenericParam, mentioned: bool, bound: Seq<char>) -> bool {
    &&& new.name == old.name
    &&& if mentioned {
        &&& new.bounds@.len() == old.bounds@.len() + 1
        &&& new.bounds@.drop_last() == old.bounds@
        &&& new.bounds@.last()@ == bound
    } else {
        new.bounds == old.bounds
    }
}

/// Whether some field of the shape mentions parameter `p`.
pub fn fields_mention_param(fr: &FieldsRepr, p: usize) -> (r: bool)
    ensures
        r == fields_mention(*fr, p as int),
{
    match fr {
        FieldsRepr::Unit => false,
        FieldsRepr::Tuple(specs) => {
            let mut i: usize = 0;
            while i < specs.len()
                invariant
                    *fr == FieldsRepr::Tuple(*specs),
                    i <= specs.len(),
                    forall|j: int| 0 <= j < i ==> !mentions(#[trigger] specs_of(*fr)[j].ty, p as int),
                decreases specs.len() - i,
            {
                if specs[i].ty.mentions_param(p) {
                    assert(specs_of(*fr)[i as int] == specs@[i as int]);
                    return true;
                }
                i = i + 1;
            }
            false
        },
        FieldsRepr::Named(fields) => {
            let mut i: usize = 0;
            while i < fields.len()
                invariant
                    *fr == FieldsRepr::Named(*fields),
                    i <= fields.len(),
                    forall|j: int| 0 <= j < i ==> !mentions(#[trigger] specs_of(*fr)[j].ty, p as int),
                decreases fields.len() - i,
            {
                assert(specs_of(*fr)[i as int] == fields@[i as int].spec);
                if fields[i].spec.ty.mentions_param(p) {
                    return true;
                }
                i = i + 1;
            }
            false
        },
    }
}

/// Whether some field of the representation mentions parameter `p`.
pub fn repr_mentions_param(repr: &Repr, p: usize) -> (r: bool)
    ensures
        r == repr_mentions(*repr, p as int),
{
    match repr {
        Repr::Record(fr) => fields_mention_param(fr, p),
        Repr::Union(cases) => {
            let mut c: usize = 0;
            while c < cases.len()
                invariant
                    *repr == Repr::Union(*cases),
                    c <= cases.len(),
                    forall|j: int| 0 <= j < c ==> !fields_mention(#[trigger] cases@[j].fields, p as int),
                decreases cases.len() - c,
            {
                if fields_mention_param(&cases[c].fields, p) {
                    return true;
                }
                c = c + 1;
            }
            false
        },
    }
}

/// Whether every parameter that a field of the shape mentions is below `n`.
pub fn fields_params_below(fr: &FieldsRepr, n: usize) -> (r: bool)
    ensures
        r == forall|p: int| #[trigger] fields_mention(*fr, p) ==> 0 <= p < n,
{
    let len = match fr {
        FieldsRepr::Unit => 0,
        FieldsRepr::Tuple(specs) => specs.len(),
        FieldsRepr::Named(fields) => fields.len(),
    };
    assert(len == specs_of(*fr).len());
    let mut i: usize = 0;
    while i < len
        invariant
            len == specs_of(*fr).len(),
            i <= len,
            forall|j: int, p: int| 0 <= j < i && #[trigger] mentions(specs_of(*fr)[j].ty, p) ==> 0 <= p < n,
        decreases len - i,
    {
        let ty = match fr {
            FieldsRepr::Unit => &TypeRef::Any,
            FieldsRepr::Tuple(specs) => &specs[i].ty,
            FieldsRepr::Named(fields) => &fields[i].spec.ty,
        };
        assert(*ty == specs_of(*fr)[i as int].ty);
        if !ty.params_below(n) {
            proof {
                let p = choose|p: int| mentions(*ty, p) && !(0 <= p < n);
                assert(fields_mention(*fr, p));
            }
            return false;
        }
        i = i + 1;
    }
    true
}

/// Whether every parameter that a field mentions is below `n`.
pub fn repr_params_below(repr: &Repr, n: usize) -> (r: bool)
    ensures
        r == params_declared(*repr, n as nat),
{
    match repr {
        Repr::Record(fr) => {
            let r = fields_params_below(fr, n);
            assert(forall|p: int| repr_mentions(*repr, p) == fields_mention(*fr, p));
            r
        },
        Repr::Union(cases) => {
            let mut c: usize = 0;
            while c < cases.len()
                invariant
                    *repr == Repr::Union(*cases),
                    c <= cases.len(),
                    forall|j: int, p: int| 0 <= j < c && #[trigger] fields_mention(cases@[j].fields, p) ==> 0 <= p < n,
                decreases cases.len() - c,
            {
                if !fields_params_below(&cases[c].fields, n) {
                    proof {
                        let p = choose|p: int| fields_mention(cases@[c as int].fields, p) && !(0 <= p < n);
                        assert(repr_mentions(*repr, p));
                    }
                    return false;
                }
                c = c + 1;
            }
            assert forall|p: int| #[trigger] repr_mentions(*repr, p) implies 0 <= p < n by {
                let c = choose|c: int| 0 <= c < cases@.len() && fields_mention(#[trigger] cases@[c].fields, p);
            }
            true
        },
    }
}

/// Adds `bound` to every generic parameter that a field mentions; bounds the
/// author declared are kept.
pub fn extend_bounds(generics: Vec<GenericParam>, repr: &Repr, bound: &String) -> (r: Vec<GenericParam>)
    ensures
        r@.len() == generics@.len(),
        forall|p: int|
            0 <= p < r@.len() ==> extended(generics@[p], #[trigger] r@[p], repr_mentions(*repr, p), bound@),
{
    let ghost orig = generics@;
    let n = generics.len();
    let mut rest = generics;
    let mut out: Vec<GenericParam> = Vec::new();
    let mut i: usize = 0;
    while i < n
        invariant
            n == orig.len(),
            i <= orig.len(),
            out@.len() == i,
            rest@.len() == orig.len() - i,
            forall|j: int| 0 <= j < rest@.len() ==> #[trigger] rest@[j] == orig[j + i],
            forall|p: int| 0 <= p < i ==> extended(orig[p], #[trigger] out@[p], repr_mentions(*repr, p), bound@),
        decreases n - i,
    {
        let ghost before = rest@;
        let mut g = rest.remove(0);
        assert(g == orig[i as int]) by {
            assert(before[0] == orig[0 + i]);
        }
        assert(forall|j: int| 0 <= j < rest@.len() ==> rest@[j] == before[j + 1]);
        let ghost gb = g.bounds@;
        if repr_mentions_param(repr, i) {
            g.bounds.push(bound.clone());
            assert(g.bounds@.drop_last() == gb);
        }
        out.push(g);
        assert(extended(orig[i as int], out@[i as int], repr_mentions(*repr, i as int), bound@));
        i = i + 1;
    }
    out
}

} // verus!
