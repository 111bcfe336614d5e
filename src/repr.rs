//! The canonical shape of a declaration: field types, directives, records and unions.
use vstd::prelude::*;
use crate::variant::{Variant, VModel, models_of, lemma_models_of};

verus! {

broadcast use vstd::std_specs::vec::group_vec_axioms;

/// The declared type of a field, as far as conversion needs to know it.
#[derive(Debug, PartialEq, Eq)]
pub enum TypeRef {
    Bool,
    Int,
    Str,
    /// A field that holds a `Variant` itself.
    Any,
    /// The generic parameter at this index of the declaration's parameter list.
    Param(usize),
    /// A sequence of elements of the inner type.
    List(Box<TypeRef>),
    /// Any other named type, with its type arguments; its own conversion
    /// decides which values it accepts.
    Other(String, Vec<TypeRef>),
}

/// Whether a value of the model fits a field type. A generic parameter's
/// instance is chosen by the user of the type, so every value fits there.
pub open spec fn conforms(v: VModel, t: TypeRef) -> bool
    decreases t,
{
    match t {
        TypeRef::Bool => v is Bool,
        TypeRef::Int => v is Int,
        TypeRef::Str => v is Str,
        TypeRef::Any => true,
        TypeRef::Param(_) => true,
        TypeRef::List(e) => v is Array && forall|i: int|
            #![trigger v->Array_0[i]]
            0 <= i < v->Array_0.len() ==> conforms(v->Array_0[i], *e),
        TypeRef::Other(_, _) => true,
    }
}

/// The zero value of a type; a generic parameter has none that is known.
pub open spec fn type_default(t: TypeRef) -> Option<VModel> {
    match t {
        TypeRef::Bool => Some(VModel::Bool(false)),
        TypeRef::Int => Some(VModel::Int(0)),
        TypeRef::Str => Some(VModel::Str(Seq::empty())),
        TypeRef::Any => Some(VModel::Nil),
        TypeRef::Param(_) => None,
        TypeRef::List(_) => Some(VModel::Array(Seq::empty())),
        TypeRef::Other(_, _) => None,
    }
}

/// Whether `t` mentions the generic parameter `p` anywhere inside it.
pub open spec fn mentions(t: TypeRef, p: int) -> bool
    decreases t,
{
    match t {
        TypeRef::Param(q) => q == p,
        TypeRef::List(e) => mentions(*e, p),
        TypeRef::Other(_, args) => mentions_any(args@, p),
        _ => false,
    }
}

/// Whether some type of `s` mentions the generic parameter `p`.
pub open spec fn mentions_any(s: Seq<TypeRef>, p: int) -> bool
    decreases s,
{
    if s.len() == 0 {
        false
    } else {
        mentions_any(s.drop_last(), p) || mentions(s.last(), p)
    }
}

pub proof fn lemma_mentions_any(s: Seq<TypeRef>, p: int)
    ensures
        mentions_any(s, p) <==> exists|i: int| 0 <= i < s.len() && #[trigger] mentions(s[i], p),
    decreases s.len(),
{
    if s.len() > 0 {
        lemma_mentions_any(s.drop_last(), p);
        if mentions_any(s.drop_last(), p) {
            let i = choose|i: int| 0 <= i < s.drop_last().len() && #[trigger] mentions(s.drop_last()[i], p);
            assert(mentions(s[i], p));
        }
        if mentions(s.last(), p) {
            assert(mentions(s[s.len() - 1], p));
        }
        if exists|i: int| 0 <= i < s.len() && #[trigger] mentions(s[i], p) {
            let i = choose|i: int| 0 <= i < s.len() && #[trigger] mentions(s[i], p);
            if i < s.len() - 1 {
                assert(mentions(s.drop_last()[i], p));
            }
        }
    }
}

impl TypeRef {
    /// Whether every generic parameter this type mentions is below `n`.
    pub fn params_below(&self, n: usize) -> (r: bool)
        ensures
            r == forall|p: int| #[trigger] mentions(*self, p) ==> 0 <= p < n,
        decreases self,
    {
        match self {
            TypeRef::Param(q) => {
                assert(mentions(*self, *q as int));
                *q < n
            },
            TypeRef::List(e) => {
                assert(decreases_to!(*self => self->List_0));
                let r = e.params_below(n);
                assert(forall|p: int| mentions(*self, p) == mentions(**e, p));
                r
            },
            TypeRef::Other(_, args) => {
                let mut i: usize = 0;
                while i < args.len()
                    invariant
                        *self == TypeRef::Other(self->Other_0, *args),
                        i <= args.len(),
                        forall|j: int, p: int| 0 <= j < i && #[trigger] mentions(args@[j], p) ==> 0 <= p < n,
                    decreases args.len() - i,
                {
                    proof {
                        vstd::std_specs::vec::axiom_vec_index_decreases(*args, i as int);
                        assert(decreases_to!(*self => self->Other_1));
                    }
                    if !args[i].params_below(n) {
                        proof {
                            let p = choose|p: int| mentions(args@[i as int], p) && !(0 <= p < n);
                            lemma_mentions_any(args@, p);
                        assert(mentions(*self, p));
                        }
                        return false;
                    }
                    i = i + 1;
                }
                assert forall|p: int| #[trigger] mentions(*self, p) implies 0 <= p < n by {
                    lemma_mentions_any(args@, p);
                }
                true
            },
            _ => true,
        }
    }

    /// Whether this type mentions the generic parameter `p`.
    pub fn mentions_param(&self, p: usize) -> (r: bool)
        ensures
            r == mentions(*self, p as int),
        decreases self,
    {
        match self {
            TypeRef::Param(q) => *q == p,
            TypeRef::List(e) => {
                assert(decreases_to!(*self => self->List_0));
                e.mentions_param(p)
            },
            TypeRef::Other(_, args) => {
                let mut i: usize = 0;
                while i < args.len()
                    invariant
                        *self == TypeRef::Other(self->Other_0, *args),
                        i <= args.len(),
                        forall|j: int| 0 <= j < i ==> !(#[trigger] mentions(args@[j], p as int)),
                    decreases args.len() - i,
                {
                    proof {
                        vstd::std_specs::vec::axiom_vec_index_decreases(*args, i as int);
                        assert(decreases_to!(*self => self->Other_1));
                    }
                    if args[i].mentions_param(p) {
                        proof {
                            lemma_mentions_any(args@, p as int);
                        }
                        return true;
                    }
                    i = i + 1;
                }
                proof {
                    lemma_mentions_any(args@, p as int);
                }
                false
            },
            _ => false,
        }
    }

    /// Whether the value fits this type.
    pub fn accepts(&self, v: &Variant) -> (r: bool)
        ensures
            r == conforms(v@, *self),
        decreases self,
    {
        match self {
            TypeRef::Bool => matches!(v, Variant::Bool(_)),
            TypeRef::Int => matches!(v, Variant::Int(_)),
            TypeRef::Str => matches!(v, Variant::Str(_)),
            TypeRef::Any => true,
            TypeRef::Param(_) => true,
            TypeRef::Other(_, _) => true,
            TypeRef::List(e) => {
                match v {
                    Variant::Array(items) => {
                        proof {
                            lemma_models_of(items@);
                        }
                        let mut i: usize = 0;
                        while i < items.len()
                            invariant
                                *self == TypeRef::List(*e),
                                *v == Variant::Array(*items),
                                i <= items.len(),
                                models_of(items@).len() == items@.len(),
                                forall|j: int| 0 <= j < items@.len() ==> #[trigger] models_of(items@)[j] == items@[j]@,
                                forall|j: int| 0 <= j < i ==> conforms(items@[j]@, **e),
                            decreases items.len() - i,
                        {
                            assert(decreases_to!(*self => self->List_0));
                            if !e.accepts(&items[i]) {
                                assert(v@ == VModel::Array(models_of(items@)));
                                assert(!conforms(v@->Array_0[i as int], *self->List_0));
                                return false;
                            }
                            i = i + 1;
                        }
                        true
                    },
                    _ => false,
                }
            },
        }
    }

    /// The zero value of this type, if it has one that is known.
    pub fn default_value(&self) -> (r: Option<Variant>)
        ensures
            r is Some <==> type_default(*self) is Some,
            r is Some ==> r->0@ == type_default(*self)->0,
    {
        match self {
            TypeRef::Bool => Some(Variant::Bool(false)),
            TypeRef::Int => Some(Variant::Int(0)),
            TypeRef::Str => Some(Variant::Str(String::new())),
            TypeRef::Any => Some(Variant::Nil),
            TypeRef::Param(_) => None,
            TypeRef::Other(_, _) => None,
            TypeRef::List(_) => {
                let r = Variant::Array(Vec::new());
                assert(models_of(Seq::<Variant>::empty()) == Seq::<VModel>::empty());
                Some(r)
            },
        }
    }
}

/// Where a field's default comes from.
#[derive(Debug, PartialEq, Eq)]
pub enum DefaultSource {
    /// This value.
    Value(Variant),
    /// The default value of the field's type.
    TypeDefault,
}

/// The model of a default source: `Some(v)` for a value, `None` for the
/// type's own default.
pub open spec fn source_model(d: DefaultSource) -> Option<VModel> {
    match d {
        DefaultSource::Value(v) => Some(v@),
        DefaultSource::TypeDefault => None,
    }
}

/// The model of an optional field value; `None` stands for a value that
/// only the field's type can build, its own default.
pub open spec fn slot_model(o: Option<Variant>) -> Option<VModel> {
    match o {
        Some(v) => Some(v@),
        None => None,
    }
}

/// What a field is filled with from its default: the given value, the
/// type's zero value where it is known, or else `None`, the type's own default.
pub open spec fn default_of(f: FieldSpec) -> Option<VModel> {
    match f.default {
        Some(DefaultSource::Value(v)) => Some(v@),
        _ => type_default(f.ty),
    }
}

/// A field after its directives are applied.
#[derive(Debug, PartialEq, Eq)]
pub struct FieldSpec {
    pub ty: TypeRef,
    /// Left out of every encoded value and filled from `default` on decode.
    pub skip: bool,
    /// Where the value used when the field is skipped or missing comes from.
    pub default: Option<DefaultSource>,
    /// The key used in place of the field's name.
    pub rename: Option<String>,
}

/// A field of a named shape.
#[derive(Debug, PartialEq, Eq)]
pub struct NamedField {
    pub name: String,
    pub spec: FieldSpec,
}

/// The shape of one record or union case.
#[derive(Debug, PartialEq, Eq)]
pub enum FieldsRepr {
    Unit,
    Tuple(Vec<FieldSpec>),
    Named(Vec<NamedField>),
}

/// One case of a union.
#[derive(Debug, PartialEq, Eq)]
pub struct CaseRepr {
    pub name: String,
    pub rename: Option<String>,
    pub fields: FieldsRepr,
}

/// The shape of a whole declaration.
#[derive(Debug, PartialEq, Eq)]
pub enum Repr {
    Record(FieldsRepr),
    Union(Vec<CaseRepr>),
}

/// The key under which a named field is encoded.
pub open spec fn key_of(f: NamedField) -> Seq<char> {
    match f.spec.rename {
        Some(r) => r@,
        None => f.name@,
    }
}

/// The tag under which a union case is encoded.
pub open spec fn tag_of(c: CaseRepr) -> Seq<char> {
    match c.rename {
        Some(r) => r@,
        None => c.name@,
    }
}

/// The field specs of a shape, in declaration order.
pub open spec fn specs_of(fr: FieldsRepr) -> Seq<FieldSpec> {
    match fr {
        FieldsRepr::Unit => Seq::empty(),
        FieldsRepr::Tuple(v) => v@,
        FieldsRepr::Named(v) => Seq::new(v@.len(), |i: int| v@[i].spec),
    }
}

/// The keys of a named shape, in declaration order.
pub open spec fn keys_of(fr: FieldsRepr) -> Seq<Seq<char>> {
    match fr {
        FieldsRepr::Named(v) => Seq::new(v@.len(), |i: int| key_of(v@[i])),
        _ => Seq::empty(),
    }
}

impl FieldSpec {
    /// What the field is filled with from its default.
    pub fn default_slot(&self) -> (r: Option<Variant>)
        requires
            self.default is Some,
        ensures
            slot_model(r) == default_of(*self),
    {
        match &self.default {
            Some(DefaultSource::Value(v)) => Some(v.duplicate()),
            _ => self.ty.default_value(),
        }
    }
}

/// A skipped field has a default, and a default fits the field's type.
pub open spec fn field_wf(f: FieldSpec) -> bool {
    &&& f.skip ==> f.default is Some
    &&& f.default matches Some(DefaultSource::Value(v)) ==> conforms(v@, f.ty)
}

pub open spec fn distinct(s: Seq<Seq<char>>) -> bool {
    forall|a: int, b: int| 0 <= a < s.len() && 0 <= b < s.len() && a != b ==> s[a] != s[b]
}

pub open spec fn fields_wf(fr: FieldsRepr) -> bool {
    &&& match fr {
        FieldsRepr::Unit => true,
        FieldsRepr::Tuple(v) => v@.len() > 0,
        FieldsRepr::Named(v) => v@.len() > 0 && distinct(keys_of(fr)),
    }
    &&& forall|i: int| 0 <= i < specs_of(fr).len() ==> #[trigger] field_wf(specs_of(fr)[i])
}

/// The tags of a union's cases, in declaration order.
pub open spec fn tags_of(cases: Seq<CaseRepr>) -> Seq<Seq<char>> {
    Seq::new(cases.len(), |i: int| tag_of(cases[i]))
}

impl Repr {
    /// Every shape is well formed and union tags are unique.
    pub open spec fn wf(self) -> bool {
        match self {
            Repr::Record(fr) => fields_wf(fr),
            Repr::Union(cases) => {
                &&& distinct(tags_of(cases@))
                &&& forall|i: int| 0 <= i < cases@.len() ==> #[trigger] fields_wf(cases@[i].fields)
            },
        }
    }
}

} // verus!
