//! Encoding values of a represented type to `Variant`, and decoding them back.
use vstd::prelude::*;
use crate::variant::{Variant, VModel, models_of, entry_models_of, lemma_models_of, lemma_entry_models_of};
use crate::repr::{
    FieldSpec, NamedField, FieldsRepr, CaseRepr, Repr, conforms, key_of, tag_of, specs_of, slot_model, default_of,
    keys_of, tags_of, fields_wf, field_wf,
};

verus! {

/// A value of a represented type: the case it belongs to (0 for a record)
/// and the converted value of each declared field, in declaration order.
/// `None` stands for a field that holds its type's own default value, which
/// only that type can build.
#[derive(Debug, PartialEq, Eq)]
pub struct Value {
    pub case: usize,
    pub fields: Vec<Option<Variant>>,
}

/// The model of a `Value`.
pub struct ValueModel {
    pub case: nat,
    pub fields: Seq<Option<VModel>>,
}

/// The models of optional field values.
pub open spec fn slots_of(s: Seq<Option<Variant>>) -> Seq<Option<VModel>> {
    Seq::new(s.len(), |i: int| slot_model(s[i]))
}

/// The known field values; a placeholder stands where none is known.
pub open spec fn givens(vals: Seq<Option<VModel>>) -> Seq<VModel> {
    Seq::new(vals.len(), |i: int| vals[i]->0)
}

impl View for Value {
    type V = ValueModel;

    open spec fn view(&self) -> ValueModel {
        ValueModel { case: self.case as nat, fields: slots_of(self.fields@) }
    }
}

/// Which field a decode failure concerns.
#[derive(Debug, PartialEq, Eq)]
pub enum FieldKey {
    Index(usize),
    Name(String),
}

/// Why a `Variant` could not be decoded.
#[derive(Debug, PartialEq, Eq)]
pub enum DecodeError {
    /// The outer kind of the `Variant` is not the one the shape expects.
    ShapeMismatch,
    /// A required key is absent.
    MissingField(String),
    /// A field's value does not fit the field's type.
    FieldDecodeFailed(FieldKey),
    /// The tag of a union matches no case.
    UnknownVariant(String),
}

/// The model of a `DecodeError`.
pub enum Fault {
    ShapeMismatch,
    MissingField(Seq<char>),
    FailedAt(int),
    FailedNamed(Seq<char>),
    UnknownVariant(Seq<char>),
}

impl View for DecodeError {
    type V = Fault;

    open spec fn view(&self) -> Fault {
        match self {
            DecodeError::ShapeMismatch => Fault::ShapeMismatch,
            DecodeError::MissingField(s) => Fault::MissingField(s@),
            DecodeError::FieldDecodeFailed(FieldKey::Index(i)) => Fault::FailedAt(*i as int),
            DecodeError::FieldDecodeFailed(FieldKey::Name(s)) => Fault::FailedNamed(s@),
            DecodeError::UnknownVariant(s) => Fault::UnknownVariant(s@),
        }
    }
}

// ---------------------------------------------------------------- encoding

/// The items of the first `n` fields that are not skipped, in order.
pub open spec fn kept<A>(specs: Seq<FieldSpec>, vals: Seq<A>, n: nat) -> Seq<A>
    decreases n,
{
    if n == 0 {
        Seq::empty()
    } else {
        let r = kept(specs, vals, (n - 1) as nat);
        if specs[n - 1].skip {
            r
        } else {
            r.push(vals[n - 1])
        }
    }
}

/// Each field's key beside its value.
pub open spec fn pairs(keys: Seq<Seq<char>>, vals: Seq<VModel>) -> Seq<(Seq<char>, VModel)> {
    Seq::new(vals.len(), |i: int| (keys[i], vals[i]))
}

/// How many of the first `n` fields are not skipped.
pub open spec fn kept_count(specs: Seq<FieldSpec>, n: nat) -> nat
    decreases n,
{
    if n == 0 {
        0
    } else if specs[n - 1].skip {
        kept_count(specs, (n - 1) as nat)
    } else {
        kept_count(specs, (n - 1) as nat) + 1
    }
}

/// The encoding of one shape: null, a sequence of the kept fields, or a map
/// from the kept fields' keys to their values.
pub open spec fn encode_fields(fr: FieldsRepr, vals: Seq<Option<VModel>>) -> VModel {
    match fr {
        FieldsRepr::Unit => VModel::Nil,
        FieldsRepr::Tuple(v) => VModel::Array(kept(v@, givens(vals), v@.len())),
        FieldsRepr::Named(v) => VModel::Dictionary(kept(specs_of(fr), pairs(keys_of(fr), givens(vals)), v@.len())),
    }
}

/// The encoding of a value: a record's shape, or a one-entry map from the
/// case's tag to the case's shape.
pub open spec fn encode(repr: Repr, v: ValueModel) -> VModel {
    match repr {
        Repr::Record(fr) => encode_fields(fr, v.fields),
        Repr::Union(cases) => VModel::Dictionary(
            seq![(tag_of(cases@[v.case as int]), encode_fields(cases@[v.case as int].fields, v.fields))],
        ),
    }
}

/// Field values have a shape's form: one per field, and a known value for
/// every field that is encoded.
pub open spec fn fields_shaped(fr: FieldsRepr, vals: Seq<Option<VModel>>) -> bool {
    &&& vals.len() == specs_of(fr).len()
    &&& forall|i: int| 0 <= i < vals.len() && !(#[trigger] specs_of(fr)[i]).skip ==> vals[i] is Some
}

/// A field value fits its field: a skipped field holds what its default
/// gives, any other a known value of the field's type.
pub open spec fn slot_fits(f: FieldSpec, slot: Option<VModel>) -> bool {
    if f.skip {
        slot == default_of(f)
    } else {
        slot is Some && conforms(slot->0, f.ty)
    }
}

/// Field values fit a shape: one per field, each fitting its field.
pub open spec fn fields_fit(fr: FieldsRepr, vals: Seq<Option<VModel>>) -> bool {
    &&& vals.len() == specs_of(fr).len()
    &&& forall|i: int| 0 <= i < vals.len() ==> #[trigger] slot_fits(specs_of(fr)[i], vals[i])
}

/// A value has the form of the represented type: its case exists and its
/// fields have that case's form.
pub open spec fn value_shaped(repr: Repr, v: ValueModel) -> bool {
    match repr {
        Repr::Record(fr) => v.case == 0 && fields_shaped(fr, v.fields),
        Repr::Union(cases) => v.case < cases@.len() && fields_shaped(cases@[v.case as int].fields, v.fields),
    }
}

/// A value is one of the represented type.
pub open spec fn value_fits(repr: Repr, v: ValueModel) -> bool {
    match repr {
        Repr::Record(fr) => v.case == 0 && fields_fit(fr, v.fields),
        Repr::Union(cases) => v.case < cases@.len() && fields_fit(cases@[v.case as int].fields, v.fields),
    }
}

/// Deep copies of every field value, in order.
pub fn duplicate_all(vals: &Vec<Option<Variant>>) -> (r: Vec<Option<Variant>>)
    ensures
        slots_of(r@) == slots_of(vals@),
{
    let mut out: Vec<Option<Variant>> = Vec::new();
    let mut i: usize = 0;
    while i < vals.len()
        invariant
            i <= vals.len(),
            out@.len() == i,
            forall|j: int| 0 <= j < i ==> #[trigger] slot_model(out@[j]) == slot_model(vals@[j]),
        decreases vals.len() - i,
    {
        let c = match &vals[i] {
            Some(v) => Some(v.duplicate()),
            None => None,
        };
        out.push(c);
        i = i + 1;
    }
    assert(slots_of(out@) == slots_of(vals@));
    out
}

/// The encoded key of a named field.
fn field_key(f: &NamedField) -> (r: String)
    ensures
        r@ == key_of(*f),
{
    match &f.spec.rename {
        Some(k) => k.clone(),
        None => f.name.clone(),
    }
}

/// The encoded tag of a union case.
fn case_tag(c: &CaseRepr) -> (r: String)
    ensures
        r@ == tag_of(*c),
{
    match &c.rename {
        Some(k) => k.clone(),
        None => c.name.clone(),
    }
}

/// Encodes one shape, moving the field values into the result.
pub fn encode_fields_owned(fr: &FieldsRepr, vals: Vec<Option<Variant>>) -> (r: Variant)
    requires
        fields_shaped(*fr, slots_of(vals@)),
    ensures
        r@ == encode_fields(*fr, slots_of(vals@)),
{
    let ghost sm = slots_of(vals@);
    let ghost vm = givens(sm);
    match fr {
        FieldsRepr::Unit => Variant::Nil,
        FieldsRepr::Tuple(specs) => {
            let mut rest = vals;
            let mut out: Vec<Variant> = Vec::new();
            let mut i: usize = 0;
            while i < specs.len()
                invariant
                    i <= specs.len(),
                    *fr == FieldsRepr::Tuple(*specs),
                    fields_shaped(*fr, sm),
                    vm == givens(sm),
                    sm.len() == specs@.len(),
                    rest@.len() == specs@.len() - i,
                    forall|j: int| 0 <= j < rest@.len() ==> #[trigger] slot_model(rest@[j]) == sm[j + i],
                    models_of(out@) == kept(specs@, vm, i as nat),
                decreases specs.len() - i,
            {
                let ghost before = rest@;
                let slot = rest.remove(0);
                assert(slot_model(slot) == sm[i as int]) by {
                    assert(slot_model(before[0]) == sm[0 + i]);
                }
                assert(forall|j: int| 0 <= j < rest@.len() ==> rest@[j] == before[j + 1]);
                assert(specs_of(*fr)[i as int].skip || slot is Some);
                let x = match slot {
                    Some(x) => x,
                    None => Variant::Nil,
                };
                if !specs[i].skip {
                    let ghost prev = out@;
                    out.push(x);
                    proof {
                        assert(out@.drop_last() == prev);
                    }
                }
                i = i + 1;
            }
            Variant::Array(out)
        },
        FieldsRepr::Named(fields) => {
            let mut rest = vals;
            let mut out: Vec<(String, Variant)> = Vec::new();
            let mut i: usize = 0;
            while i < fields.len()
                invariant
                    *fr == FieldsRepr::Named(*fields),
                    i <= fields.len(),
                    fields_shaped(*fr, sm),
                    vm == givens(sm),
                    sm.len() == fields@.len(),
                    rest@.len() == fields@.len() - i,
                    forall|j: int| 0 <= j < rest@.len() ==> #[trigger] slot_model(rest@[j]) == sm[j + i],
                    entry_models_of(out@) == kept(specs_of(*fr), pairs(keys_of(*fr), vm), i as nat),
                decreases fields.len() - i,
            {
                let ghost before = rest@;
                let slot = rest.remove(0);
                assert(slot_model(slot) == sm[i as int]) by {
                    assert(slot_model(before[0]) == sm[0 + i]);
                }
                assert(forall|j: int| 0 <= j < rest@.len() ==> rest@[j] == before[j + 1]);
                assert(specs_of(*fr)[i as int].skip || slot is Some);
                let x = match slot {
                    Some(x) => x,
                    None => Variant::Nil,
                };
                assert(specs_of(*fr)[i as int] == fields@[i as int].spec);
                assert(keys_of(*fr)[i as int] == key_of(fields@[i as int]));
                if !fields[i].spec.skip {
                    let k = field_key(&fields[i]);
                    let ghost prev = out@;
                    out.push((k, x));
                    proof {
                        assert(out@.drop_last() == prev);
                    }
                }
                i = i + 1;
            }
            Variant::Dictionary(out)
        },
    }
}

impl Repr {
    /// Encodes a value, moving its field values into the result.
    pub fn owned_to_variant(&self, value: Value) -> (r: Variant)
        requires
            value_shaped(*self, value@),
        ensures
            r@ == encode(*self, value@),
    {
        proof {
            assert(slots_of(value.fields@).len() == value.fields@.len());
        }
        match self {
            Repr::Record(fr) => encode_fields_owned(fr, value.fields),
            Repr::Union(cases) => {
                let c = &cases[value.case];
                let tag = case_tag(c);
                let inner = encode_fields_owned(&c.fields, value.fields);
                let entries = vec![(tag, inner)];
                proof {
                    lemma_entry_models_of(entries@);
                    assert(entry_models_of(entries@) == seq![(tag@, inner@)]);
                }
                Variant::Dictionary(entries)
            },
        }
    }

    /// Encodes a value, leaving it in place; the result is the same as that of
    /// `owned_to_variant`.
    pub fn to_variant(&self, value: &Value) -> (r: Variant)
        requires
            value_shaped(*self, value@),
        ensures
            r@ == encode(*self, value@),
    {
        let copy = Value { case: value.case, fields: duplicate_all(&value.fields) };
        self.owned_to_variant(copy)
    }
}

// ---------------------------------------------------------------- decoding

/// The index of the first of the first `n` keys that equals `k`, or -1.
pub open spec fn first_index(keys: Seq<Seq<char>>, k: Seq<char>, n: nat) -> int
    decreases n,
{
    if n == 0 {
        -1
    } else {
        let r = first_index(keys, k, (n - 1) as nat);
        if r >= 0 {
            r
        } else if keys[n - 1] == k {
            n - 1
        } else {
            -1
        }
    }
}

/// The keys of a map's entries, in order.
pub open spec fn entry_keys(entries: Seq<(Seq<char>, VModel)>) -> Seq<Seq<char>> {
    Seq::new(entries.len(), |j: int| entries[j].0)
}

/// Decodes the field at declaration index `i` of a sequence shape, whose
/// place in the sequence is `pos`.
pub open spec fn decode_tuple_field(f: FieldSpec, items: Seq<VModel>, pos: nat, i: int) -> Result<Option<VModel>, Fault> {
    if f.skip {
        Ok(default_of(f))
    } else if pos < items.len() {
        if conforms(items[pos as int], f.ty) {
            Ok(Some(items[pos as int]))
        } else {
            Err(Fault::FailedAt(i))
        }
    } else if f.default is Some {
        Ok(default_of(f))
    } else {
        Err(Fault::ShapeMismatch)
    }
}

/// The least length a sequence needs for the first `n` fields: one past
/// the place of the last field that is neither skipped nor defaulted.
pub open spec fn tuple_min_len(specs: Seq<FieldSpec>, n: nat) -> nat
    decreases n,
{
    if n == 0 {
        0
    } else if !specs[n - 1].skip && specs[n - 1].default is None {
        kept_count(specs, (n - 1) as nat) + 1
    } else {
        tuple_min_len(specs, (n - 1) as nat)
    }
}

/// Decodes the first `n` fields of a sequence shape, in declaration order;
/// the first failure wins.
pub open spec fn decode_tuple(specs: Seq<FieldSpec>, items: Seq<VModel>, n: nat) -> Result<Seq<Option<VModel>>, Fault>
    decreases n,
{
    if n == 0 {
        Ok(Seq::empty())
    } else {
        match decode_tuple(specs, items, (n - 1) as nat) {
            Err(e) => Err(e),
            Ok(prev) => match decode_tuple_field(specs[n - 1], items, kept_count(specs, (n - 1) as nat), n - 1) {
                Ok(x) => Ok(prev.push(x)),
                Err(e) => Err(e),
            },
        }
    }
}

/// Decodes one field of a named shape, looked up under `key`.
pub open spec fn decode_named_field(f: FieldSpec, key: Seq<char>, entries: Seq<(Seq<char>, VModel)>) -> Result<Option<VModel>, Fault> {
    let j = first_index(entry_keys(entries), key, entries.len());
    if f.skip {
        Ok(default_of(f))
    } else if j >= 0 {
        if conforms(entries[j].1, f.ty) {
            Ok(Some(entries[j].1))
        } else {
            Err(Fault::FailedNamed(key))
        }
    } else if f.default is Some {
        Ok(default_of(f))
    } else {
        Err(Fault::MissingField(key))
    }
}

/// Decodes the first `n` fields of a named shape; the first failure wins.
pub open spec fn decode_named(
    specs: Seq<FieldSpec>,
    keys: Seq<Seq<char>>,
    entries: Seq<(Seq<char>, VModel)>,
    n: nat,
) -> Result<Seq<Option<VModel>>, Fault>
    decreases n,
{
    if n == 0 {
        Ok(Seq::empty())
    } else {
        match decode_named(specs, keys, entries, (n - 1) as nat) {
            Err(e) => Err(e),
            Ok(prev) => match decode_named_field(specs[n - 1], keys[n - 1], entries) {
                Ok(x) => Ok(prev.push(x)),
                Err(e) => Err(e),
            },
        }
    }
}

/// Decodes one shape: null for a unit, a sequence for positional fields, a
/// map for named fields.
pub open spec fn decode_fields(fr: FieldsRepr, v: VModel) -> Result<Seq<Option<VModel>>, Fault> {
    match fr {
        FieldsRepr::Unit => if v is Nil {
            Ok(Seq::empty())
        } else {
            Err(Fault::ShapeMismatch)
        },
        FieldsRepr::Tuple(s) => match v {
            VModel::Array(items) => if items.len() < tuple_min_len(s@, s@.len()) {
                Err(Fault::ShapeMismatch)
            } else {
                decode_tuple(s@, items, s@.len())
            },
            _ => Err(Fault::ShapeMismatch),
        },
        FieldsRepr::Named(s) => match v {
            VModel::Dictionary(entries) => decode_named(specs_of(fr), keys_of(fr), entries, s@.len()),
            _ => Err(Fault::ShapeMismatch),
        },
    }
}

/// Decodes a value: a record's shape, or a one-entry map whose key selects
/// the first case with that tag.
pub open spec fn decode(repr: Repr, v: VModel) -> Result<ValueModel, Fault> {
    match repr {
        Repr::Record(fr) => match decode_fields(fr, v) {
            Ok(f) => Ok(ValueModel { case: 0, fields: f }),
            Err(e) => Err(e),
        },
        Repr::Union(cases) => match v {
            VModel::Dictionary(entries) => if entries.len() == 1 {
                let c = first_index(tags_of(cases@), entries[0].0, cases@.len());
                if c < 0 {
                    Err(Fault::UnknownVariant(entries[0].0))
                } else {
                    match decode_fields(cases@[c].fields, entries[0].1) {
                        Ok(f) => Ok(ValueModel { case: c as nat, fields: f }),
                        Err(e) => Err(e),
                    }
                }
            } else {
                Err(Fault::ShapeMismatch)
            },
            _ => Err(Fault::ShapeMismatch),
        },
    }
}

/// The model of a decoded list of field values.
pub open spec fn fields_result(r: Result<Vec<Option<Variant>>, DecodeError>) -> Result<Seq<Option<VModel>>, Fault> {
    match r {
        Ok(v) => Ok(slots_of(v@)),
        Err(e) => Err(e@),
    }
}

/// The model of a decoded value.
pub open spec fn value_result(r: Result<Value, DecodeError>) -> Result<ValueModel, Fault> {
    match r {
        Ok(v) => Ok(v@),
        Err(e) => Err(e@),
    }
}

/// `first_index` finds the first key equal to `k`, and -1 exactly when no
/// key is.
pub proof fn lemma_first_index(keys: Seq<Seq<char>>, k: Seq<char>, n: nat)
    requires
        n <= keys.len(),
    ensures
        -1 <= first_index(keys, k, n) < n,
        first_index(keys, k, n) >= 0 ==> keys[first_index(keys, k, n)] == k,
        forall|j: int| 0 <= j < n && #[trigger] keys[j] == k ==> 0 <= first_index(keys, k, n) <= j,
    decreases n,
{
    if n > 0 {
        lemma_first_index(keys, k, (n - 1) as nat);
    }
}

/// The index of the first entry under `key`.
fn find_entry(entries: &Vec<(String, Variant)>, key: &String) -> (r: Option<usize>)
    ensures
        ({
            let j = first_index(entry_keys(entry_models_of(entries@)), key@, entries@.len());
            &&& r is Some <==> j >= 0
            &&& r is Some ==> r->0 == j
        }),
        r is Some ==> r->0 < entries@.len(),
{
    proof {
        lemma_entry_models_of(entries@);
    }
    let ghost keys = entry_keys(entry_models_of(entries@));
    assert(forall|j: int| 0 <= j < entries@.len() ==> #[trigger] keys[j] == entries@[j].0@);
    let mut i: usize = 0;
    while i < entries.len()
        invariant
            i <= entries.len(),
            keys.len() == entries@.len(),
            keys == entry_keys(entry_models_of(entries@)),
            forall|j: int| 0 <= j < entries@.len() ==> #[trigger] keys[j] == entries@[j].0@,
            forall|j: int| 0 <= j < i ==> keys[j] != key@,
        decreases entries.len() - i,
    {
        if entries[i].0 == *key {
            proof {
                lemma_first_index(keys, key@, entries@.len() as nat);
                assert(keys[i as int] == key@);
            }
            return Some(i);
        }
        i = i + 1;
    }
    proof {
        lemma_first_index(keys, key@, entries@.len() as nat);
    }
    None
}

/// The index of the first case whose tag is `key`.
fn find_case(cases: &Vec<CaseRepr>, key: &String) -> (r: Option<usize>)
    ensures
        ({
            let j = first_index(tags_of(cases@), key@, cases@.len());
            &&& r is Some <==> j >= 0
            &&& r is Some ==> r->0 == j
        }),
        r is Some ==> r->0 < cases@.len(),
{
    let ghost keys = tags_of(cases@);
    let mut i: usize = 0;
    while i < cases.len()
        invariant
            i <= cases.len(),
            keys == tags_of(cases@),
            forall|j: int| 0 <= j < i ==> keys[j] != key@,
        decreases cases.len() - i,
    {
        let t = case_tag(&cases[i]);
        if t == *key {
            proof {
                lemma_first_index(keys, key@, cases@.len() as nat);
                assert(keys[i as int] == key@);
            }
            return Some(i);
        }
        i = i + 1;
    }
    proof {
        lemma_first_index(keys, key@, cases@.len() as nat);
    }
    None
}

pub proof fn lemma_tuple_err(specs: Seq<FieldSpec>, items: Seq<VModel>, i: nat, n: nat)
    requires
        i < n,
        decode_tuple(specs, items, i + 1) is Err,
    ensures
        decode_tuple(specs, items, n) == decode_tuple(specs, items, i + 1),
    decreases n,
{
    if n > i + 1 {
        lemma_tuple_err(specs, items, i, (n - 1) as nat);
    }
}

proof fn lemma_named_err(
    specs: Seq<FieldSpec>,
    keys: Seq<Seq<char>>,
    entries: Seq<(Seq<char>, VModel)>,
    i: nat,
    n: nat,
)
    requires
        i < n,
        decode_named(specs, keys, entries, i + 1) is Err,
    ensures
        decode_named(specs, keys, entries, n) == decode_named(specs, keys, entries, i + 1),
    decreases n,
{
    if n > i + 1 {
        lemma_named_err(specs, keys, entries, i, (n - 1) as nat);
    }
}

/// Decodes one shape into its field values.
pub fn decode_fields_of(fr: &FieldsRepr, v: &Variant) -> (r: Result<Vec<Option<Variant>>, DecodeError>)
    requires
        fields_wf(*fr),
    ensures
        fields_result(r) == decode_fields(*fr, v@),
{
    match fr {
        FieldsRepr::Unit => match v {
            Variant::Nil => {
                let out: Vec<Option<Variant>> = Vec::new();
                assert(slots_of(out@) == Seq::<Option<VModel>>::empty());
                Ok(out)
            },
            _ => Err(DecodeError::ShapeMismatch),
        },
        FieldsRepr::Tuple(specs) => match v {
            Variant::Array(items) => {
                proof {
                    lemma_models_of(items@);
                }
                let ghost im = models_of(items@);
                let mut need: usize = 0;
                let mut pos: usize = 0;
                let mut i: usize = 0;
                while i < specs.len()
                    invariant
                        i <= specs.len(),
                        pos <= i,
                        pos == kept_count(specs@, i as nat),
                        need == tuple_min_len(specs@, i as nat),
                    decreases specs.len() - i,
                {
                    if !specs[i].skip {
                        if specs[i].default.is_none() {
                            need = pos + 1;
                        }
                        pos = pos + 1;
                    }
                    i = i + 1;
                }
                if items.len() < need {
                    return Err(DecodeError::ShapeMismatch);
                }
                let mut out: Vec<Option<Variant>> = Vec::new();
                let mut pos: usize = 0;
                i = 0;
                assert(slots_of(out@) == Seq::<Option<VModel>>::empty());
                while i < specs.len()
                    invariant
                        fields_wf(*fr),
                        *fr == FieldsRepr::Tuple(*specs),
                        *v == Variant::Array(*items),
                        items@.len() >= tuple_min_len(specs@, specs@.len()),
                        i <= specs.len(),
                        pos <= i,
                        pos == kept_count(specs@, i as nat),
                        im == models_of(items@),
                        im.len() == items@.len(),
                        forall|j: int| 0 <= j < items@.len() ==> #[trigger] im[j] == items@[j]@,
                        decode_tuple(specs@, im, i as nat) == Ok::<Seq<Option<VModel>>, Fault>(slots_of(out@)),
                    decreases specs.len() - i,
                {
                    let f = &specs[i];
                    assert(field_wf(specs_of(*fr)[i as int]));
                    let x = if !f.skip && pos < items.len() {
                        if f.ty.accepts(&items[pos]) {
                            Some(items[pos].duplicate())
                        } else {
                            proof {
                                lemma_tuple_err(specs@, im, i as nat, specs@.len());
                            }
                            return Err(DecodeError::FieldDecodeFailed(FieldKey::Index(i)));
                        }
                    } else {
                        match &f.default {
                            Some(_) => f.default_slot(),
                            None => {
                                proof {
                                    lemma_tuple_err(specs@, im, i as nat, specs@.len());
                                }
                                return Err(DecodeError::ShapeMismatch);
                            },
                        }
                    };
                    if !f.skip {
                        pos = pos + 1;
                    }
                    let ghost prev = out@;
                    out.push(x);
                    proof {
                        assert(slots_of(out@) == slots_of(prev).push(slot_model(x)));
                    }
                    i = i + 1;
                }
                Ok(out)
            },
            _ => Err(DecodeError::ShapeMismatch),
        },
        FieldsRepr::Named(fields) => match v {
            Variant::Dictionary(entries) => {
                proof {
                    lemma_entry_models_of(entries@);
                }
                let ghost em = entry_models_of(entries@);
                let mut out: Vec<Option<Variant>> = Vec::new();
                let mut i: usize = 0;
                assert(slots_of(out@) == Seq::<Option<VModel>>::empty());
                while i < fields.len()
                    invariant
                        fields_wf(*fr),
                        *fr == FieldsRepr::Named(*fields),
                        *v == Variant::Dictionary(*entries),
                        i <= fields.len(),
                        em == entry_models_of(entries@),
                        em.len() == entries@.len(),
                        forall|j: int| 0 <= j < entries@.len() ==> #[trigger] em[j] == (entries@[j].0@, entries@[j].1@),
                        decode_named(specs_of(*fr), keys_of(*fr), em, i as nat) == Ok::<Seq<Option<VModel>>, Fault>(slots_of(out@)),
                    decreases fields.len() - i,
                {
                    let f = &fields[i].spec;
                    assert(specs_of(*fr)[i as int] == *f);
                    assert(field_wf(specs_of(*fr)[i as int]));
                    let key = field_key(&fields[i]);
                    assert(keys_of(*fr)[i as int] == key@);
                    let found = if f.skip {
                        None
                    } else {
                        find_entry(entries, &key)
                    };
                    let x = match found {
                        Some(j) => {
                            if f.ty.accepts(&entries[j].1) {
                                Some(entries[j].1.duplicate())
                            } else {
                                proof {
                                    lemma_named_err(specs_of(*fr), keys_of(*fr), em, i as nat, fields@.len());
                                }
                                return Err(DecodeError::FieldDecodeFailed(FieldKey::Name(key)));
                            }
                        },
                        None => match &f.default {
                            Some(_) => f.default_slot(),
                            None => {
                                proof {
                                    lemma_named_err(specs_of(*fr), keys_of(*fr), em, i as nat, fields@.len());
                                }
                                return Err(DecodeError::MissingField(key));
                            },
                        },
                    };
                    let ghost prev = out@;
                    out.push(x);
                    proof {
                        assert(slots_of(out@) == slots_of(prev).push(slot_model(x)));
                    }
                    i = i + 1;
                }
                Ok(out)
            },
            _ => Err(DecodeError::ShapeMismatch),
        },
    }
}

impl Repr {
    /// Decodes a value of the represented type; malformed input gives an error.
    pub fn from_variant(&self, v: &Variant) -> (r: Result<Value, DecodeError>)
        requires
            self.wf(),
        ensures
            value_result(r) == decode(*self, v@),
    {
        match self {
            Repr::Record(fr) => match decode_fields_of(fr, v) {
                Ok(fields) => Ok(Value { case: 0, fields }),
                Err(e) => Err(e),
            },
            Repr::Union(cases) => match v {
                Variant::Dictionary(entries) => {
                    proof {
                        lemma_entry_models_of(entries@);
                    }
                    if entries.len() != 1 {
                        return Err(DecodeError::ShapeMismatch);
                    }
                    match find_case(cases, &entries[0].0) {
                        None => Err(DecodeError::UnknownVariant(entries[0].0.clone())),
                        Some(c) => {
                            assert(fields_wf(cases@[c as int].fields));
                            match decode_fields_of(&cases[c].fields, &entries[0].1) {
                                Ok(fields) => Ok(Value { case: c, fields }),
                                Err(e) => Err(e),
                            }
                        },
                    }
                },
                _ => Err(DecodeError::ShapeMismatch),
            },
        }
    }
}

} // verus!
