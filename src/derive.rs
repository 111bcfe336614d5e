//! From a declaration's surface structure to the data a derivation works on:
//! directives are resolved, fields classified, and generic bounds extended.
use vstd::prelude::*;
use crate::variant::{Variant, VModel};
use crate::bounds::{fields_mention, repr_mentions};
use crate::repr::{
    mentions, TypeRef, FieldSpec, NamedField, FieldsRepr, CaseRepr, Repr, conforms, type_default, distinct,
    fields_wf, field_wf, specs_of, keys_of, tags_of, key_of, tag_of, DefaultSource, source_model,
};

verus! {

/// A directive attached to a field or a union case.
#[derive(Debug, PartialEq, Eq)]
pub enum Directive {
    /// Use this key (for a field) or tag (for a case) in encoded values.
    Rename(String),
    /// Leave the field out of encoded values and fill it from its default.
    Skip,
    /// Fill the field from its type's zero value when it is missing.
    Default,
    /// Fill the field from this value when it is missing.
    DefaultValue(Variant),
}

/// The last rename among the first `n` directives.
pub open spec fn last_rename(ds: Seq<Directive>, n: nat) -> Option<Seq<char>>
    decreases n,
{
    if n == 0 {
        None
    } else {
        match ds[n - 1] {
            Directive::Rename(s) => Some(s@),
            _ => last_rename(ds, (n - 1) as nat),
        }
    }
}

/// The last default request among the first `n` directives: `Some(None)`
/// asks for the type's zero value, `Some(Some(v))` for `v`.
pub open spec fn default_request(ds: Seq<Directive>, n: nat) -> Option<Option<VModel>>
    decreases n,
{
    if n == 0 {
        None
    } else {
        match ds[n - 1] {
            Directive::Default => Some(None),
            Directive::DefaultValue(v) => Some(Some(v@)),
            _ => default_request(ds, (n - 1) as nat),
        }
    }
}

pub open spec fn has_skip(ds: Seq<Directive>) -> bool {
    exists|i: int| 0 <= i < ds.len() && ds[i] is Skip
}

/// Where a field's default comes from: the one requested, or the type's
/// own default for a skipped field that requests none. `Some(None)` stands
/// for the type's own default.
pub open spec fn resolved_source(ds: Seq<Directive>) -> Option<Option<VModel>> {
    match default_request(ds, ds.len()) {
        Some(d) => Some(d),
        None => if has_skip(ds) {
            Some(None)
        } else {
            None
        },
    }
}

/// A field's directives can be resolved: a default value it gives fits the
/// field's type. (The type's own default is checked where the type is.)
pub open spec fn field_resolvable(ty: TypeRef, ds: Seq<Directive>) -> bool {
    default_request(ds, ds.len()) matches Some(Some(v)) ==> conforms(v, ty)
}

pub open spec fn opt_view(o: Option<String>) -> Option<Seq<char>> {
    match o {
        Some(s) => Some(s@),
        None => None,
    }
}

/// A field spec is the resolution of a type and its directives.
pub open spec fn resolves_to(f: FieldSpec, ty: TypeRef, ds: Seq<Directive>) -> bool {
    &&& f.ty == ty
    &&& f.skip == has_skip(ds)
    &&& opt_view(f.rename) == last_rename(ds, ds.len())
    &&& match f.default {
        Some(d) => resolved_source(ds) == Some(source_model(d)),
        None => resolved_source(ds) is None,
    }
}

/// Why a declaration cannot be derived. Case and field positions count
/// from zero in declaration order; a case of `None` is the record itself.
#[derive(Debug, PartialEq, Eq)]
pub enum DeriveError {
    /// The fields of this case mix named and positional fields.
    MixedFields(Option<usize>),
    /// An untagged union of overlapping storage was given.
    UnsupportedUnion,
    /// This field gives a default value that does not fit its type.
    InvalidDefault(Option<usize>, usize),
    /// This union case carries a directive other than a rename.
    MisplacedDirective(usize),
    /// Two named fields of this case share a key.
    DuplicateKey(Option<usize>),
    /// Two union cases share a tag.
    DuplicateTag,
    /// A field type names a generic parameter that is not declared.
    UnknownParam,
}

/// The error for a field whose directives cannot be resolved.
pub open spec fn field_error(ty: TypeRef, ds: Seq<Directive>, case: Option<usize>, field: usize) -> DeriveError {
    DeriveError::InvalidDefault(case, field)
}

/// Resolves the directives of field `field` of `case` into its spec.
pub fn resolve_field(ty: TypeRef, ds: &Vec<Directive>, case: Option<usize>, field: usize) -> (r: Result<FieldSpec, DeriveError>)
    ensures
        r is Ok <==> field_resolvable(ty, ds@),
        r matches Ok(f) ==> resolves_to(f, ty, ds@) && field_wf(f),
        r matches Err(e) ==> e == field_error(ty, ds@, case, field),
{
    let mut skip = false;
    let mut rename: Option<String> = None;
    let mut request: Option<Option<Variant>> = None;
    let mut i: usize = 0;
    while i < ds.len()
        invariant
            i <= ds.len(),
            skip == exists|j: int| 0 <= j < i && ds@[j] is Skip,
            opt_view(rename) == last_rename(ds@, i as nat),
            match request {
                None => default_request(ds@, i as nat) is None,
                Some(None) => default_request(ds@, i as nat) == Some(None::<VModel>),
                Some(Some(v)) => default_request(ds@, i as nat) == Some(Some(v@)),
            },
        decreases ds.len() - i,
    {
        match &ds[i] {
            Directive::Rename(s) => {
                rename = Some(s.clone());
            },
            Directive::Skip => {
                skip = true;
            },
            Directive::Default => {
                request = Some(None);
            },
            Directive::DefaultValue(v) => {
                request = Some(Some(v.duplicate()));
            },
        }
        i = i + 1;
    }
    let default = match request {
        Some(Some(v)) => {
            if !ty.accepts(&v) {
                return Err(DeriveError::InvalidDefault(case, field));
            }
            Some(DefaultSource::Value(v))
        },
        Some(None) => Some(DefaultSource::TypeDefault),
        None => if skip {
            Some(DefaultSource::TypeDefault)
        } else {
            None
        },
    };
    Ok(FieldSpec { ty, skip, default, rename })
}

/// A field as declared: its name (none for a positional field), its type and
/// its directives.
#[derive(Debug, PartialEq, Eq)]
pub struct DeclField {
    pub name: Option<String>,
    pub ty: TypeRef,
    pub directives: Vec<Directive>,
}

pub open spec fn all_named(fs: Seq<DeclField>) -> bool {
    forall|i: int| 0 <= i < fs.len() ==> (#[trigger] fs[i]).name is Some
}

pub open spec fn all_positional(fs: Seq<DeclField>) -> bool {
    forall|i: int| 0 <= i < fs.len() ==> (#[trigger] fs[i]).name is None
}

/// The key a declared named field is encoded under.
pub open spec fn decl_key(f: DeclField) -> Seq<char> {
    match last_rename(f.directives@, f.directives@.len()) {
        Some(k) => k,
        None => f.name->0@,
    }
}

pub open spec fn decl_keys(fs: Seq<DeclField>) -> Seq<Seq<char>> {
    Seq::new(fs.len(), |i: int| decl_key(fs[i]))
}

/// A field list can be classified: not mixed, every field resolvable, and
/// the keys of named fields distinct.
pub open spec fn fields_derivable(fs: Seq<DeclField>) -> bool {
    &&& all_named(fs) || all_positional(fs)
    &&& forall|i: int| 0 <= i < fs.len() ==> #[trigger] field_resolvable(fs[i].ty, fs[i].directives@)
    &&& all_named(fs) ==> distinct(decl_keys(fs))
}

/// A shape is the classification of a field list.
pub open spec fn classifies_to(fs: Seq<DeclField>, fr: FieldsRepr) -> bool {
    if fs.len() == 0 {
        fr is Unit
    } else if all_positional(fs) {
        &&& fr matches FieldsRepr::Tuple(v)
        &&& v@.len() == fs.len()
        &&& forall|i: int| 0 <= i < fs.len() ==> #[trigger] resolves_to(v@[i], fs[i].ty, fs[i].directives@)
    } else {
        &&& fr matches FieldsRepr::Named(v)
        &&& v@.len() == fs.len()
        &&& forall|i: int| 0 <= i < fs.len() ==> #[trigger] v@[i].name@ == fs[i].name->0@
        &&& forall|i: int| 0 <= i < fs.len() ==> #[trigger] resolves_to(v@[i].spec, fs[i].ty, fs[i].directives@)
    }
}

/// Whether all the strings differ from each other.
pub fn all_distinct(keys: &Vec<String>) -> (r: bool)
    ensures
        r == distinct(Seq::new(keys@.len(), |i: int| keys@[i]@)),
{
    let ghost ks = Seq::new(keys@.len(), |i: int| keys@[i]@);
    let mut a: usize = 0;
    while a < keys.len()
        invariant
            a <= keys.len(),
            ks == Seq::new(keys@.len(), |i: int| keys@[i]@),
            forall|x: int, y: int| 0 <= x < a && 0 <= y < ks.len() && x != y ==> ks[x] != ks[y],
        decreases keys.len() - a,
    {
        let mut b: usize = 0;
        while b < keys.len()
            invariant
                a < keys.len(),
                b <= keys.len(),
                ks == Seq::new(keys@.len(), |i: int| keys@[i]@),
                forall|x: int, y: int| 0 <= x < a && 0 <= y < ks.len() && x != y ==> ks[x] != ks[y],
                forall|y: int| 0 <= y < b && a != y ==> ks[a as int] != ks[y],
            decreases keys.len() - b,
        {
            if a != b && keys[a] == keys[b] {
                assert(ks[a as int] == ks[b as int]);
                return false;
            }
            b = b + 1;
        }
        a = a + 1;
    }
    true
}

/// The position of the first of the first `n` fields whose directives
/// cannot be resolved, or -1.
pub open spec fn first_unresolved(fs: Seq<DeclField>, n: nat) -> int
    decreases n,
{
    if n == 0 {
        -1
    } else {
        let r = first_unresolved(fs, (n - 1) as nat);
        if r >= 0 {
            r
        } else if !field_resolvable(fs[n - 1].ty, fs[n - 1].directives@) {
            n - 1
        } else {
            -1
        }
    }
}

/// The error that classifying the fields of `case` meets first, if any:
/// mixed fields, then the first unresolvable field, then duplicate keys.
pub open spec fn fields_fault(fs: Seq<DeclField>, case: Option<usize>) -> Option<DeriveError> {
    let i = first_unresolved(fs, fs.len());
    if !(all_named(fs) || all_positional(fs)) {
        Some(DeriveError::MixedFields(case))
    } else if i >= 0 {
        Some(field_error(fs[i].ty, fs[i].directives@, case, i as usize))
    } else if all_named(fs) && !distinct(decl_keys(fs)) {
        Some(DeriveError::DuplicateKey(case))
    } else {
        None
    }
}

proof fn lemma_first_unresolved(fs: Seq<DeclField>, n: nat)
    requires
        n <= fs.len(),
    ensures
        first_unresolved(fs, n) == -1 <==> forall|j: int| 0 <= j < n ==> #[trigger] field_resolvable(fs[j].ty, fs[j].directives@),
        first_unresolved(fs, n) >= -1,
        first_unresolved(fs, n) < n,
    decreases n,
{
    if n > 0 {
        lemma_first_unresolved(fs, (n - 1) as nat);
    }
}

proof fn lemma_first_unresolved_at(fs: Seq<DeclField>, i: nat, n: nat)
    requires
        i < n <= fs.len(),
        forall|j: int| 0 <= j < i ==> #[trigger] field_resolvable(fs[j].ty, fs[j].directives@),
        !field_resolvable(fs[i as int].ty, fs[i as int].directives@),
    ensures
        first_unresolved(fs, n) == i,
    decreases n,
{
    if n > i + 1 {
        lemma_first_unresolved_at(fs, i, (n - 1) as nat);
    } else {
        lemma_first_unresolved(fs, i);
    }
}

/// Classifies the field list of `case` into a shape, resolving each field's
/// directives.
pub fn classify_fields(fs: Vec<DeclField>, case: Option<usize>) -> (r: Result<FieldsRepr, DeriveError>)
    ensures
        r is Ok <==> fields_derivable(fs@),
        r is Ok <==> fields_fault(fs@, case) is None,
        r matches Ok(fr) ==> classifies_to(fs@, fr) && fields_wf(fr),
        r matches Err(e) ==> fields_fault(fs@, case) == Some(e),
{
    let ghost orig = fs@;
    let mut seen_named = false;
    let mut seen_positional = false;
    let mut i: usize = 0;
    while i < fs.len()
        invariant
            i <= fs.len(),
            seen_named <==> exists|j: int| 0 <= j < i && (#[trigger] fs@[j]).name is Some,
            seen_positional <==> exists|j: int| 0 <= j < i && (#[trigger] fs@[j]).name is None,
        decreases fs.len() - i,
    {
        if fs[i].name.is_some() {
            seen_named = true;
        } else {
            seen_positional = true;
        }
        i = i + 1;
    }
    proof {
        lemma_first_unresolved(orig, orig.len());
    }
    if fs.len() == 0 {
        return Ok(FieldsRepr::Unit);
    }
    if seen_named && seen_positional {
        return Err(DeriveError::MixedFields(case));
    }
    assert(!seen_named ==> all_positional(fs@));
    assert(!seen_positional ==> all_named(fs@));
    assert(fs@[0].name is Some ==> !all_positional(fs@));
    assert(fs@[0].name is None ==> !all_named(fs@));
    let n = fs.len();
    let mut rest = fs;
    if !seen_named {
        let mut out: Vec<FieldSpec> = Vec::new();
        let mut i: usize = 0;
        while i < n
            invariant
                orig == fs@,
                n == orig.len(),
                i <= n,
                all_positional(orig),
                out@.len() == i,
                rest@.len() == n - i,
                forall|j: int| 0 <= j < rest@.len() ==> #[trigger] rest@[j] == orig[j + i],
                forall|j: int| 0 <= j < i ==> #[trigger] resolves_to(out@[j], orig[j].ty, orig[j].directives@),
                forall|j: int| 0 <= j < i ==> #[trigger] field_wf(out@[j]),
                forall|j: int| 0 <= j < i ==> #[trigger] field_resolvable(orig[j].ty, orig[j].directives@),
            decreases n - i,
        {
            let ghost before = rest@;
            let f = rest.remove(0);
            assert(f == orig[i as int]) by {
                assert(before[0] == orig[0 + i]);
            }
            assert(forall|j: int| 0 <= j < rest@.len() ==> rest@[j] == before[j + 1]);
            let DeclField { name: _, ty, directives } = f;
            assert(ty == orig[i as int].ty && directives == orig[i as int].directives);
            match resolve_field(ty, &directives, case, i) {
                Ok(spec) => out.push(spec),
                Err(e) => {
                    assert(!field_resolvable(orig[i as int].ty, orig[i as int].directives@));
                    proof {
                        lemma_first_unresolved_at(orig, i as nat, n as nat);
                    }
                    return Err(e);
                },
            }
            i = i + 1;
        }
        let fr = FieldsRepr::Tuple(out);
        assert(specs_of(fr) == out@);
        Ok(fr)
    } else {
        let mut out: Vec<NamedField> = Vec::new();
        let mut keys: Vec<String> = Vec::new();
        let mut i: usize = 0;
        while i < n
            invariant
                orig == fs@,
                n == orig.len(),
                i <= n,
                all_named(orig),
                out@.len() == i,
                keys@.len() == i,
                rest@.len() == n - i,
                forall|j: int| 0 <= j < rest@.len() ==> #[trigger] rest@[j] == orig[j + i],
                forall|j: int| 0 <= j < i ==> #[trigger] out@[j].name@ == orig[j].name->0@,
                forall|j: int| 0 <= j < i ==> #[trigger] resolves_to(out@[j].spec, orig[j].ty, orig[j].directives@),
                forall|j: int| 0 <= j < i ==> #[trigger] field_wf(out@[j].spec),
                forall|j: int| 0 <= j < i ==> #[trigger] field_resolvable(orig[j].ty, orig[j].directives@),
                forall|j: int| 0 <= j < i ==> #[trigger] keys@[j]@ == key_of(out@[j]),
                forall|j: int| 0 <= j < i ==> key_of(out@[j]) == #[trigger] decl_key(orig[j]),
            decreases n - i,
        {
            let ghost before = rest@;
            let f = rest.remove(0);
            assert(f == orig[i as int]) by {
                assert(before[0] == orig[0 + i]);
            }
            assert(forall|j: int| 0 <= j < rest@.len() ==> rest@[j] == before[j + 1]);
            assert(orig[i as int].name is Some);
            let DeclField { name, ty, directives } = f;
            assert(ty == orig[i as int].ty && directives == orig[i as int].directives);
            let name = match name {
                Some(n) => n,
                None => String::new(),
            };
            match resolve_field(ty, &directives, case, i) {
                Ok(spec) => {
                    let key = match &spec.rename {
                        Some(k) => k.clone(),
                        None => name.clone(),
                    };
                    keys.push(key);
                    out.push(NamedField { name, spec });
                },
                Err(e) => {
                    assert(!field_resolvable(orig[i as int].ty, orig[i as int].directives@));
                    proof {
                        lemma_first_unresolved_at(orig, i as nat, n as nat);
                    }
                    return Err(e);
                },
            }
            i = i + 1;
        }
        let fr = FieldsRepr::Named(out);
        assert(keys_of(fr) == Seq::new(keys@.len(), |i: int| keys@[i]@));
        assert(decl_keys(orig) == keys_of(fr));
        if !all_distinct(&keys) {
            return Err(DeriveError::DuplicateKey(case));
        }
        assert forall|i: int| 0 <= i < specs_of(fr).len() implies #[trigger] field_wf(specs_of(fr)[i]) by {
            assert(specs_of(fr)[i] == out@[i].spec);
        }
        Ok(fr)
    }
}

/// A case of a tagged union as declared.
#[derive(Debug, PartialEq, Eq)]
pub struct DeclCase {
    pub name: String,
    pub fields: Vec<DeclField>,
    pub directives: Vec<Directive>,
}

/// The body of a declaration: a record, a tagged union, or an untagged
/// union of overlapping storage (which is never derivable).
#[derive(Debug, PartialEq, Eq)]
pub enum DeclBody {
    Struct(Vec<DeclField>),
    Enum(Vec<DeclCase>),
    Union(Vec<DeclField>),
}

/// The tag a declared case is encoded under.
pub open spec fn decl_tag(c: DeclCase) -> Seq<char> {
    match last_rename(c.directives@, c.directives@.len()) {
        Some(k) => k,
        None => c.name@,
    }
}

pub open spec fn case_derivable(c: DeclCase) -> bool {
    &&& forall|j: int| 0 <= j < c.directives@.len() ==> (#[trigger] c.directives@[j]) is Rename
    &&& fields_derivable(c.fields@)
}

pub open spec fn body_derivable(b: DeclBody) -> bool {
    match b {
        DeclBody::Struct(fs) => fields_derivable(fs@),
        DeclBody::Enum(cs) => {
            &&& forall|i: int| 0 <= i < cs@.len() ==> #[trigger] case_derivable(cs@[i])
            &&& distinct(Seq::new(cs@.len(), |i: int| decl_tag(cs@[i])))
        },
        DeclBody::Union(_) => false,
    }
}

/// A representation is the one built from a declaration body.
pub open spec fn builds_to(b: DeclBody, repr: Repr) -> bool {
    match b {
        DeclBody::Struct(fs) => repr matches Repr::Record(fr) && classifies_to(fs@, fr),
        DeclBody::Enum(cs) => {
            &&& repr matches Repr::Union(v)
            &&& v@.len() == cs@.len()
            &&& forall|i: int| 0 <= i < cs@.len() ==> {
                &&& (#[trigger] v@[i]).name@ == cs@[i].name@
                &&& opt_view(v@[i].rename) == last_rename(cs@[i].directives@, cs@[i].directives@.len())
                &&& classifies_to(cs@[i].fields@, v@[i].fields)
            }
        },
        DeclBody::Union(_) => false,
    }
}

/// The error that building a union's first `n` cases meets first, if any.
pub open spec fn cases_fault(cs: Seq<DeclCase>, n: nat) -> Option<DeriveError>
    decreases n,
{
    if n == 0 {
        None
    } else {
        match cases_fault(cs, (n - 1) as nat) {
            Some(e) => Some(e),
            None => {
                let c = cs[n - 1];
                if exists|j: int| 0 <= j < c.directives@.len() && !((#[trigger] c.directives@[j]) is Rename) {
                    Some(DeriveError::MisplacedDirective((n - 1) as usize))
                } else {
                    fields_fault(c.fields@, Some((n - 1) as usize))
                }
            },
        }
    }
}

/// The error that building a body's representation meets first, if any.
pub open spec fn body_fault(b: DeclBody) -> Option<DeriveError> {
    match b {
        DeclBody::Struct(fs) => fields_fault(fs@, None),
        DeclBody::Union(_) => Some(DeriveError::UnsupportedUnion),
        DeclBody::Enum(cs) => match cases_fault(cs@, cs@.len()) {
            Some(e) => Some(e),
            None => if !distinct(Seq::new(cs@.len(), |i: int| decl_tag(cs@[i]))) {
                Some(DeriveError::DuplicateTag)
            } else {
                None
            },
        },
    }
}

proof fn lemma_cases_fault_none(cs: Seq<DeclCase>, n: nat)
    requires
        n <= cs.len(),
        forall|j: int| 0 <= j < n ==> #[trigger] case_derivable(cs[j]),
        forall|j: int| 0 <= j < n ==> #[trigger] fields_fault(cs[j].fields@, Some(j as usize)) is None,
    ensures
        cases_fault(cs, n) is None,
    decreases n,
{
    if n > 0 {
        lemma_cases_fault_none(cs, (n - 1) as nat);
        assert(case_derivable(cs[n - 1]));
    }
}

proof fn lemma_cases_fault_at(cs: Seq<DeclCase>, i: nat, n: nat)
    requires
        i < n <= cs.len(),
        cases_fault(cs, i + 1) is Some,
    ensures
        cases_fault(cs, n) == cases_fault(cs, i + 1),
    decreases n,
{
    if n > i + 1 {
        lemma_cases_fault_at(cs, i, (n - 1) as nat);
    }
}

/// Builds the representation of a declaration body.
pub fn build_repr(body: DeclBody) -> (r: Result<Repr, DeriveError>)
    ensures
        r is Ok <==> body_derivable(body),
        r is Ok <==> body_fault(body) is None,
        r matches Ok(repr) ==> builds_to(body, repr) && repr.wf(),
        r matches Err(e) ==> body_fault(body) == Some(e),
{
    let ghost b = body;
    match body {
        DeclBody::Struct(fs) => match classify_fields(fs, None) {
            Ok(fr) => Ok(Repr::Record(fr)),
            Err(e) => Err(e),
        },
        DeclBody::Union(_) => Err(DeriveError::UnsupportedUnion),
        DeclBody::Enum(cs) => {
            let ghost orig = cs@;
            let n = cs.len();
            let mut rest = cs;
            let mut out: Vec<CaseRepr> = Vec::new();
            let mut tags: Vec<String> = Vec::new();
            let mut i: usize = 0;
            while i < n
                invariant
                    b == body,
                    b == DeclBody::Enum(cs),
                    orig == cs@,
                    n == orig.len(),
                    i <= n,
                    out@.len() == i,
                    tags@.len() == i,
                    rest@.len() == n - i,
                    forall|j: int| 0 <= j < rest@.len() ==> #[trigger] rest@[j] == orig[j + i],
                    forall|j: int| 0 <= j < i ==> #[trigger] case_derivable(orig[j]),
                    cases_fault(orig, i as nat) is None,
                    forall|j: int| 0 <= j < i ==> {
                        &&& (#[trigger] out@[j]).name@ == orig[j].name@
                        &&& opt_view(out@[j].rename) == last_rename(orig[j].directives@, orig[j].directives@.len())
                        &&& classifies_to(orig[j].fields@, out@[j].fields)
                        &&& fields_wf(out@[j].fields)
                        &&& tags@[j]@ == tag_of(out@[j])
                        &&& tag_of(out@[j]) == decl_tag(orig[j])
                    },
                decreases n - i,
            {
                let ghost before = rest@;
                let c = rest.remove(0);
                assert(c == orig[i as int]) by {
                    assert(before[0] == orig[0 + i]);
                }
                assert(forall|j: int| 0 <= j < rest@.len() ==> rest@[j] == before[j + 1]);
                let DeclCase { name, fields, directives } = c;
                assert(name == orig[i as int].name && fields == orig[i as int].fields);
                assert(directives == orig[i as int].directives);
                let mut rename: Option<String> = None;
                let mut k: usize = 0;
                while k < directives.len()
                    invariant
                        b == body,
                        b == DeclBody::Enum(cs),
                        orig == cs@,
                        forall|j: int| 0 <= j < i ==> #[trigger] case_derivable(orig[j]),
                        i < n,
                        n == orig.len(),
                        directives == orig[i as int].directives,
                        cases_fault(orig, i as nat) is None,
                        k <= directives.len(),
                        opt_view(rename) == last_rename(directives@, k as nat),
                        forall|j: int| 0 <= j < k ==> (#[trigger] directives@[j]) is Rename,
                    decreases directives.len() - k,
                {
                    match &directives[k] {
                        Directive::Rename(s) => {
                            rename = Some(s.clone());
                        },
                        _ => {
                            assert(!(orig[i as int].directives@[k as int] is Rename));
                            assert(!case_derivable(orig[i as int]));
                            proof {
                                lemma_cases_fault_at(orig, i as nat, n as nat);
                            }
                            return Err(DeriveError::MisplacedDirective(i));
                        },
                    }
                    k = k + 1;
                }
                let fields = match classify_fields(fields, Some(i)) {
                    Ok(fr) => fr,
                    Err(e) => {
                        assert(!case_derivable(orig[i as int]));
                        proof {
                            lemma_cases_fault_at(orig, i as nat, n as nat);
                        }
                        return Err(e);
                    },
                };
                let tag = match &rename {
                    Some(t) => t.clone(),
                    None => name.clone(),
                };
                tags.push(tag);
                out.push(CaseRepr { name, rename, fields });
                i = i + 1;
            }
            let repr = Repr::Union(out);
            assert(tags_of(out@) == Seq::new(tags@.len(), |i: int| tags@[i]@));
            assert(Seq::new(orig.len(), |i: int| decl_tag(orig[i])) == tags_of(out@));
            if !all_distinct(&tags) {
                return Err(DeriveError::DuplicateTag);
            }
            Ok(repr)
        },
    }
}
/// Whether some declared field type mentions parameter `p`.
pub open spec fn decl_fields_mention(fs: Seq<DeclField>, p: int) -> bool {
    exists|i: int| 0 <= i < fs.len() && mentions(#[trigger] fs[i].ty, p)
}

/// Whether some field type of the body mentions parameter `p`.
pub open spec fn decl_mentions(b: DeclBody, p: int) -> bool {
    match b {
        DeclBody::Struct(fs) => decl_fields_mention(fs@, p),
        DeclBody::Enum(cs) => exists|c: int| 0 <= c < cs@.len() && decl_fields_mention(#[trigger] cs@[c].fields@, p),
        DeclBody::Union(fs) => decl_fields_mention(fs@, p),
    }
}

/// A classified shape mentions exactly the parameters its declared fields do.
pub proof fn lemma_classified_mentions(fs: Seq<DeclField>, fr: FieldsRepr, p: int)
    requires
        classifies_to(fs, fr),
    ensures
        fields_mention(fr, p) == decl_fields_mention(fs, p),
{
    assert(specs_of(fr).len() == fs.len());
    assert forall|i: int| 0 <= i < fs.len() implies #[trigger] specs_of(fr)[i].ty == fs[i].ty by {
        if fs.len() > 0 && !all_positional(fs) {
            let v = fr->Named_0;
            assert(specs_of(fr)[i] == v@[i].spec);
            assert(resolves_to(v@[i].spec, fs[i].ty, fs[i].directives@));
        } else if fs.len() > 0 {
            assert(resolves_to(fr->Tuple_0@[i], fs[i].ty, fs[i].directives@));
        }
    }
    if fields_mention(fr, p) {
        let i = choose|i: int| 0 <= i < specs_of(fr).len() && mentions(#[trigger] specs_of(fr)[i].ty, p);
        assert(mentions(fs[i].ty, p));
    }
    if decl_fields_mention(fs, p) {
        let i = choose|i: int| 0 <= i < fs.len() && mentions(#[trigger] fs[i].ty, p);
        assert(mentions(specs_of(fr)[i].ty, p));
    }
}

/// A built representation mentions exactly the parameters its declaration does.
pub proof fn lemma_built_mentions(b: DeclBody, repr: Repr, p: int)
    requires
        builds_to(b, repr),
    ensures
        repr_mentions(repr, p) == decl_mentions(b, p),
{
    match b {
        DeclBody::Struct(fs) => {
            lemma_classified_mentions(fs@, repr->Record_0, p);
        },
        DeclBody::Enum(cs) => {
            let v = repr->Union_0;
            assert forall|c: int| 0 <= c < cs@.len() implies
                fields_mention(#[trigger] v@[c].fields, p) == decl_fields_mention(cs@[c].fields@, p) by {
                assert(classifies_to(cs@[c].fields@, v@[c].fields));
                lemma_classified_mentions(cs@[c].fields@, v@[c].fields, p);
            }
            if repr_mentions(repr, p) {
                let c = choose|c: int| 0 <= c < v@.len() && fields_mention(#[trigger] v@[c].fields, p);
                assert(decl_fields_mention(cs@[c].fields@, p));
            }
            if decl_mentions(b, p) {
                let c = choose|c: int| 0 <= c < cs@.len() && decl_fields_mention(#[trigger] cs@[c].fields@, p);
                assert(fields_mention(v@[c].fields, p));
            }
        },
        DeclBody::Union(_) => {},
    }
}

} // verus!
