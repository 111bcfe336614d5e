//! Laws that relate the derived conversions.
use vstd::prelude::*;
use crate::variant::VModel;
use crate::repr::{default_of, FieldSpec, FieldsRepr, Repr, conforms, distinct, specs_of, keys_of, tags_of, tag_of};
use crate::{DeriveData, Declaration, Direction, derived_from};
use crate::derive::decl_mentions;
use crate::codec::{
    slot_fits, givens, fields_shaped,
    tuple_min_len,
    lemma_tuple_err,
    ValueModel, Fault, kept, kept_count, pairs, entry_keys, encode_fields, encode, decode_fields, decode,
    decode_tuple, decode_named, first_index, fields_fit, value_fits, lemma_first_index,
};

verus! {

proof fn lemma_kept_len<A>(specs: Seq<FieldSpec>, vals: Seq<A>, n: nat)
    ensures
        kept(specs, vals, n).len() == kept_count(specs, n),
    decreases n,
{
    if n > 0 {
        lemma_kept_len(specs, vals, (n - 1) as nat);
    }
}

proof fn lemma_kept_count_mono(specs: Seq<FieldSpec>, m: nat, n: nat)
    requires
        m <= n,
    ensures
        kept_count(specs, m) <= kept_count(specs, n),
        m < n && !specs[m as int].skip ==> kept_count(specs, m) < kept_count(specs, n),
    decreases n,
{
    if m < n {
        lemma_kept_count_mono(specs, m, (n - 1) as nat);
    }
}

proof fn lemma_kept_prefix<A>(specs: Seq<FieldSpec>, vals: Seq<A>, m: nat, n: nat)
    requires
        m <= n,
    ensures
        forall|j: int| 0 <= j < kept_count(specs, m) ==> #[trigger] kept(specs, vals, n)[j] == kept(specs, vals, m)[j],
    decreases n,
{
    lemma_kept_len(specs, vals, m);
    if m < n {
        lemma_kept_prefix(specs, vals, m, (n - 1) as nat);
        lemma_kept_count_mono(specs, m, (n - 1) as nat);
        lemma_kept_len(specs, vals, (n - 1) as nat);
    }
}

proof fn lemma_kept_at<A>(specs: Seq<FieldSpec>, vals: Seq<A>, i: nat, n: nat)
    requires
        i < n,
        !specs[i as int].skip,
    ensures
        kept_count(specs, i) < kept_count(specs, n),
        kept(specs, vals, n)[kept_count(specs, i) as int] == vals[i as int],
{
    lemma_kept_prefix(specs, vals, i + 1, n);
    lemma_kept_len(specs, vals, i);
    lemma_kept_count_mono(specs, i, n);
}

/// Every kept item comes from an earlier field that is not skipped.
proof fn lemma_kept_from<A>(specs: Seq<FieldSpec>, vals: Seq<A>, n: nat, j: int)
    requires
        0 <= j < kept_count(specs, n),
    ensures
        exists|i: int| 0 <= i < n && !specs[i].skip && #[trigger] kept(specs, vals, n)[j] == vals[i] && j == kept_count(specs, i as nat),
    decreases n,
{
    lemma_kept_len(specs, vals, (n - 1) as nat);
    if j < kept_count(specs, (n - 1) as nat) {
        lemma_kept_from(specs, vals, (n - 1) as nat, j);
        let i = choose|i: int| 0 <= i < n - 1 && !specs[i].skip && #[trigger] kept(specs, vals, (n - 1) as nat)[j] == vals[i] && j == kept_count(specs, i as nat);
        assert(kept(specs, vals, n)[j] == vals[i]);
    } else {
        assert(kept(specs, vals, n)[j] == vals[n - 1]);
    }
}

proof fn lemma_tuple_prefix(specs: Seq<FieldSpec>, vals: Seq<Option<VModel>>, items: Seq<VModel>, n: nat)
    requires
        n <= specs.len(),
        vals.len() == specs.len(),
        forall|i: int| 0 <= i < vals.len() ==> #[trigger] slot_fits(specs[i], vals[i]),
        kept_count(specs, n) <= items.len(),
        forall|p: int| 0 <= p < kept_count(specs, n) ==> #[trigger] items[p] == kept(specs, givens(vals), specs.len())[p],
    ensures
        decode_tuple(specs, items, n) == Ok::<Seq<Option<VModel>>, Fault>(vals.take(n as int)),
    decreases n,
{
    if n > 0 {
        let m = (n - 1) as nat;
        lemma_kept_count_mono(specs, m, n);
        lemma_tuple_prefix(specs, vals, items, m);
        assert(slot_fits(specs[m as int], vals[m as int]));
        if !specs[m as int].skip {
            lemma_kept_at(specs, givens(vals), m, specs.len());
            assert(slot_fits(specs[m as int], vals[m as int]));
            assert(givens(vals)[m as int] == vals[m as int]->0);
            assert(items[kept_count(specs, m) as int] == vals[m as int]->0);
            assert(vals[m as int] == Some(vals[m as int]->0));
        }
        assert(vals.take(n as int) == vals.take(m as int).push(vals[m as int]));
    } else {
        assert(vals.take(0) == Seq::<Option<VModel>>::empty());
    }
}

/// Named fields decode from any entries in which each field's key is first
/// found beside the field's value.
proof fn lemma_named_decodes(
    specs: Seq<FieldSpec>,
    keys: Seq<Seq<char>>,
    vals: Seq<Option<VModel>>,
    entries: Seq<(Seq<char>, VModel)>,
    n: nat,
)
    requires
        n <= specs.len(),
        vals.len() == specs.len(),
        keys.len() == specs.len(),
        forall|i: int| 0 <= i < vals.len() ==> #[trigger] slot_fits(specs[i], vals[i]),
        forall|i: int| 0 <= i < n && !(#[trigger] specs[i]).skip ==> {
            let j = first_index(entry_keys(entries), keys[i], entries.len());
            0 <= j < entries.len() && entries[j] == (keys[i], vals[i]->0)
        },
    ensures
        decode_named(specs, keys, entries, n) == Ok::<Seq<Option<VModel>>, Fault>(vals.take(n as int)),
    decreases n,
{
    if n > 0 {
        let m = (n - 1) as nat;
        lemma_named_decodes(specs, keys, vals, entries, m);
        assert(slot_fits(specs[m as int], vals[m as int]));
        assert(vals.take(n as int) == vals.take(m as int).push(vals[m as int]));
    } else {
        assert(vals.take(0) == Seq::<Option<VModel>>::empty());
    }
}

/// In the encoding of named fields with distinct keys, the only entry under
/// a field's key is that field's.
proof fn lemma_encoded_entry(specs: Seq<FieldSpec>, keys: Seq<Seq<char>>, vals: Seq<VModel>, j: int, i: int)
    requires
        vals.len() == specs.len(),
        keys.len() == specs.len(),
        distinct(keys),
        0 <= j < kept(specs, pairs(keys, vals), specs.len()).len(),
        0 <= i < specs.len(),
        kept(specs, pairs(keys, vals), specs.len())[j].0 == keys[i],
    ensures
        kept(specs, pairs(keys, vals), specs.len())[j] == (keys[i], vals[i]),
        !specs[i].skip,
        j == kept_count(specs, i as nat),
{
    let ps = pairs(keys, vals);
    lemma_kept_len(specs, ps, specs.len());
    lemma_kept_from(specs, ps, specs.len(), j);
    let i2 = choose|i2: int| 0 <= i2 < specs.len() && !specs[i2].skip && #[trigger] kept(specs, ps, specs.len())[j] == ps[i2] && j == kept_count(specs, i2 as nat);
    assert(keys[i2] == keys[i]);
}

proof fn lemma_named_round_trip(specs: Seq<FieldSpec>, keys: Seq<Seq<char>>, vals: Seq<Option<VModel>>)
    requires
        vals.len() == specs.len(),
        keys.len() == specs.len(),
        distinct(keys),
        forall|i: int| 0 <= i < vals.len() ==> #[trigger] slot_fits(specs[i], vals[i]),
    ensures
        decode_named(specs, keys, kept(specs, pairs(keys, givens(vals)), specs.len()), specs.len()) == Ok::<Seq<Option<VModel>>, Fault>(vals),
{
    let ps = pairs(keys, givens(vals));
    let entries = kept(specs, ps, specs.len());
    lemma_kept_len(specs, ps, specs.len());
    assert forall|i: int| 0 <= i < specs.len() && !(#[trigger] specs[i]).skip implies ({
        let j = first_index(entry_keys(entries), keys[i], entries.len());
        0 <= j < entries.len() && entries[j] == (keys[i], vals[i]->0)
    }) by {
        lemma_kept_at(specs, ps, i as nat, specs.len());
        let p = kept_count(specs, i as nat) as int;
        lemma_first_index(entry_keys(entries), keys[i], entries.len());
        assert(entry_keys(entries)[p] == keys[i]);
        let j = first_index(entry_keys(entries), keys[i], entries.len());
        assert(entry_keys(entries)[j] == entries[j].0);
        lemma_encoded_entry(specs, keys, givens(vals), j, i);
    }
    lemma_named_decodes(specs, keys, vals, entries, specs.len());
    assert(vals.take(vals.len() as int) == vals);
}

/// Decoding a shape's encoding of fitting field values gives them back.
pub proof fn lemma_fields_round_trip(fr: FieldsRepr, vals: Seq<Option<VModel>>)
    requires
        crate::repr::fields_wf(fr),
        fields_fit(fr, vals),
    ensures
        decode_fields(fr, encode_fields(fr, vals)) == Ok::<Seq<Option<VModel>>, Fault>(vals),
{
    match fr {
        FieldsRepr::Unit => {
            assert(vals == Seq::<Option<VModel>>::empty());
        },
        FieldsRepr::Tuple(v) => {
            lemma_kept_len(v@, givens(vals), v@.len());
            lemma_min_len(v@, v@.len());
            lemma_tuple_prefix(v@, vals, kept(v@, givens(vals), v@.len()), v@.len());
            assert(vals.take(vals.len() as int) == vals);
        },
        FieldsRepr::Named(v) => {
            let specs = specs_of(fr);
            lemma_named_round_trip(specs, keys_of(fr), vals);
        },
    }
}

/// Round trip: decoding the encoding of any value of a well-formed
/// representation gives the value back.
pub proof fn lemma_round_trip(repr: Repr, v: ValueModel)
    requires
        repr.wf(),
        value_fits(repr, v),
    ensures
        decode(repr, encode(repr, v)) == Ok::<ValueModel, Fault>(v),
{
    match repr {
        Repr::Record(fr) => {
            lemma_fields_round_trip(fr, v.fields);
        },
        Repr::Union(cases) => {
            let c = v.case as int;
            assert(crate::repr::fields_wf(cases@[c].fields));
            lemma_fields_round_trip(cases@[c].fields, v.fields);
            let tags = tags_of(cases@);
            assert(tags[c] == tag_of(cases@[c]));
            assert forall|i: int| 0 <= i < c implies tags[i] != tag_of(cases@[c]) by {}
            lemma_first_index(tags, tag_of(cases@[c]), cases@.len());
        },
    }
}

/// Unit shape: a record without fields encodes to null, and null decodes
/// back to it.
pub proof fn lemma_unit_shape(repr: Repr, v: ValueModel)
    requires
        repr == Repr::Record(FieldsRepr::Unit),
        value_fits(repr, v),
    ensures
        encode(repr, v) == VModel::Nil,
        decode(repr, VModel::Nil) == Ok::<ValueModel, Fault>(v),
{
    assert(v.fields == Seq::<Option<VModel>>::empty());
}

/// Key order does not matter: a map holding the entries of a named
/// record's encoding, in any order, decodes to the encoded value.
pub proof fn lemma_named_reordered(repr: Repr, v: ValueModel, entries: Seq<(Seq<char>, VModel)>)
    requires
        repr.wf(),
        repr matches Repr::Record(FieldsRepr::Named(_)),
        value_fits(repr, v),
        forall|e: (Seq<char>, VModel)| entries.contains(e) <==> encode(repr, v)->Dictionary_0.contains(e),
    ensures
        decode(repr, VModel::Dictionary(entries)) == Ok::<ValueModel, Fault>(v),
{
    let fr = repr->Record_0;
    let specs = specs_of(fr);
    let keys = keys_of(fr);
    let vals = v.fields;
    let ps = pairs(keys, givens(vals));
    let enc = kept(specs, ps, specs.len());
    assert(enc == encode(repr, v)->Dictionary_0);
    lemma_kept_len(specs, ps, specs.len());
    assert forall|i: int| 0 <= i < specs.len() && !(#[trigger] specs[i]).skip implies ({
        let j = first_index(entry_keys(entries), keys[i], entries.len());
        0 <= j < entries.len() && entries[j] == (keys[i], vals[i]->0)
    }) by {
        lemma_kept_at(specs, ps, i as nat, specs.len());
        let p = kept_count(specs, i as nat) as int;
        assert(enc.contains(enc[p]));
        assert(entries.contains(enc[p]));
        let q = choose|q: int| 0 <= q < entries.len() && entries[q] == enc[p];
        lemma_first_index(entry_keys(entries), keys[i], entries.len());
        assert(entry_keys(entries)[q] == keys[i]);
        let j = first_index(entry_keys(entries), keys[i], entries.len());
        assert(entry_keys(entries)[j] == entries[j].0);
        assert(entries.contains(entries[j]));
        assert(enc.contains(entries[j]));
        let k = choose|k: int| 0 <= k < enc.len() && enc[k] == entries[j];
        lemma_encoded_entry(specs, keys, givens(vals), k, i);
    }
    lemma_named_decodes(specs, keys, vals, entries, specs.len());
    assert(vals.take(vals.len() as int) == vals);
}

/// Extra trailing entries: a sequence that starts with a positional
/// record's encoding decodes to the encoded value, whatever follows.
pub proof fn lemma_tuple_extra_entries(repr: Repr, v: ValueModel, extra: Seq<VModel>)
    requires
        repr.wf(),
        repr matches Repr::Record(FieldsRepr::Tuple(_)),
        value_fits(repr, v),
    ensures
        decode(repr, VModel::Array(encode(repr, v)->Array_0 + extra)) == Ok::<ValueModel, Fault>(v),
{
    let specs = repr->Record_0->Tuple_0@;
    let vals = v.fields;
    let enc = kept(specs, givens(vals), specs.len());
    lemma_kept_len(specs, givens(vals), specs.len());
    lemma_min_len(specs, specs.len());
    lemma_tuple_prefix(specs, vals, enc + extra, specs.len());
    assert(vals.take(vals.len() as int) == vals);
}

/// Any sequence whose leading items fit the fields decodes: each field that
/// is not skipped takes the item at its place, each skipped field what its
/// default gives, and later items are ignored.
pub proof fn lemma_tuple_decodes(repr: Repr, items: Seq<VModel>)
    requires
        repr matches Repr::Record(FieldsRepr::Tuple(_)),
        items.len() >= kept_count(repr->Record_0->Tuple_0@, repr->Record_0->Tuple_0@.len()),
        forall|i: int|
            0 <= i < repr->Record_0->Tuple_0@.len() && !(#[trigger] repr->Record_0->Tuple_0@[i]).skip
                ==> conforms(items[kept_count(repr->Record_0->Tuple_0@, i as nat) as int], repr->Record_0->Tuple_0@[i].ty),
    ensures
        decode(repr, VModel::Array(items)) == Ok::<ValueModel, Fault>(ValueModel {
            case: 0,
            fields: Seq::new(repr->Record_0->Tuple_0@.len(), |i: int| {
                let specs = repr->Record_0->Tuple_0@;
                if specs[i].skip {
                    default_of(specs[i])
                } else {
                    Some(items[kept_count(specs, i as nat) as int])
                }
            }),
        }),
{
    let specs = repr->Record_0->Tuple_0@;
    let vals = Seq::new(specs.len(), |i: int| if specs[i].skip {
        default_of(specs[i])
    } else {
        Some(items[kept_count(specs, i as nat) as int])
    });
    let n = specs.len();
    lemma_min_len(specs, n);
    lemma_kept_len(specs, givens(vals), n);
    assert forall|i: int| 0 <= i < vals.len() implies #[trigger] slot_fits(specs[i], vals[i]) by {
        if !specs[i].skip {
            assert(specs[i] == repr->Record_0->Tuple_0@[i]);
        }
    }
    assert forall|p: int| 0 <= p < kept_count(specs, n) implies #[trigger] items[p] == kept(specs, givens(vals), n)[p] by {
        lemma_kept_from(specs, givens(vals), n, p);
        let i = choose|i: int| 0 <= i < n && !specs[i].skip && #[trigger] kept(specs, givens(vals), n)[p] == givens(vals)[i] && p == kept_count(specs, i as nat);
    }
    lemma_tuple_prefix(specs, vals, items, n);
    assert(vals.take(n as int) == vals);
    assert(decode_tuple(specs, items, n) == Ok::<Seq<Option<VModel>>, Fault>(vals));
    assert(vals =~= Seq::new(repr->Record_0->Tuple_0@.len(), |i: int| {
        let specs = repr->Record_0->Tuple_0@;
        if specs[i].skip {
            default_of(specs[i])
        } else {
            Some(items[kept_count(specs, i as nat) as int])
        }
    }));
}

/// How many of the first `n` fields are neither skipped nor defaulted.
pub open spec fn required_count(specs: Seq<FieldSpec>, n: nat) -> nat
    decreases n,
{
    if n == 0 {
        0
    } else if !specs[n - 1].skip && specs[n - 1].default is None {
        required_count(specs, (n - 1) as nat) + 1
    } else {
        required_count(specs, (n - 1) as nat)
    }
}

proof fn lemma_min_len(specs: Seq<FieldSpec>, n: nat)
    ensures
        tuple_min_len(specs, n) <= kept_count(specs, n),
        required_count(specs, n) <= kept_count(specs, n),
        required_count(specs, n) <= tuple_min_len(specs, n),
    decreases n,
{
    if n > 0 {
        lemma_min_len(specs, (n - 1) as nat);
    }
}

/// Too short a sequence: a positional record rejects with a shape mismatch,
/// before it reads any item, every sequence with fewer items than it has
/// fields that are neither skipped nor defaulted.
pub proof fn lemma_tuple_too_short(repr: Repr, items: Seq<VModel>)
    requires
        repr matches Repr::Record(FieldsRepr::Tuple(_)),
        items.len() < required_count(repr->Record_0->Tuple_0@, repr->Record_0->Tuple_0@.len()),
    ensures
        decode(repr, VModel::Array(items)) == Err::<ValueModel, Fault>(Fault::ShapeMismatch),
{
    let specs = repr->Record_0->Tuple_0@;
    lemma_min_len(specs, specs.len());
}

/// A union's encoding is always a map with exactly one entry, under the
/// tag of the value's case.
pub proof fn lemma_union_single_entry(repr: Repr, v: ValueModel)
    requires
        repr is Union,
        value_fits(repr, v),
    ensures
        encode(repr, v) is Dictionary,
        encode(repr, v)->Dictionary_0.len() == 1,
        encode(repr, v)->Dictionary_0[0].0 == tag_of(repr->Union_0@[v.case as int]),
{
}

/// A map with other than one entry is no union value.
pub proof fn lemma_union_entry_count(repr: Repr, entries: Seq<(Seq<char>, VModel)>)
    requires
        repr is Union,
        entries.len() != 1,
    ensures
        decode(repr, VModel::Dictionary(entries)) == Err::<ValueModel, Fault>(Fault::ShapeMismatch),
{
}

/// A tag that no case carries is reported as unknown.
pub proof fn lemma_union_unknown_tag(repr: Repr, tag: Seq<char>, inner: VModel)
    requires
        repr is Union,
        !tags_of(repr->Union_0@).contains(tag),
    ensures
        decode(repr, VModel::Dictionary(seq![(tag, inner)])) == Err::<ValueModel, Fault>(Fault::UnknownVariant(tag)),
{
    let tags = tags_of(repr->Union_0@);
    assert forall|j: int| 0 <= j < tags.len() implies tags[j] != tag by {
        if tags[j] == tag {
            assert(tags.contains(tag));
        }
    }
    lemma_first_index(tags, tag, tags.len());
}

/// Skipped fields never appear in an encoding: a named shape has no entry
/// under a skipped field's key, and a positional shape holds one item per
/// field that is not skipped.
pub proof fn lemma_skipped_absent(fr: FieldsRepr, vals: Seq<Option<VModel>>, i: int)
    requires
        crate::repr::fields_wf(fr),
        fields_shaped(fr, vals),
        0 <= i < specs_of(fr).len(),
        specs_of(fr)[i].skip,
    ensures
        fr is Named ==> forall|j: int|
            0 <= j < encode_fields(fr, vals)->Dictionary_0.len() ==> (#[trigger] encode_fields(fr, vals)->Dictionary_0[j]).0 != keys_of(fr)[i],
        fr is Tuple ==> encode_fields(fr, vals)->Array_0.len() == kept_count(specs_of(fr), specs_of(fr).len()),
{
    let specs = specs_of(fr);
    if fr is Named {
        let keys = keys_of(fr);
        let ps = pairs(keys, givens(vals));
        lemma_kept_len(specs, ps, specs.len());
        assert forall|j: int| 0 <= j < encode_fields(fr, vals)->Dictionary_0.len() implies (#[trigger] encode_fields(fr, vals)->Dictionary_0[j]).0 != keys[i] by {
            if kept(specs, ps, specs.len())[j].0 == keys[i] {
                lemma_encoded_entry(specs, keys, givens(vals), j, i);
            }
        }
    } else if fr is Tuple {
        lemma_kept_len(specs, givens(vals), specs.len());
    }
}

proof fn lemma_tuple_defaults(specs: Seq<FieldSpec>, items: Seq<VModel>, n: nat)
    requires
        n <= specs.len(),
        decode_tuple(specs, items, n) is Ok,
    ensures
        decode_tuple(specs, items, n)->Ok_0.len() == n,
        forall|i: int| 0 <= i < n && (#[trigger] specs[i]).skip ==> decode_tuple(specs, items, n)->Ok_0[i] == default_of(specs[i]),
    decreases n,
{
    if n > 0 {
        lemma_tuple_defaults(specs, items, (n - 1) as nat);
    }
}

proof fn lemma_named_defaults(specs: Seq<FieldSpec>, keys: Seq<Seq<char>>, entries: Seq<(Seq<char>, VModel)>, n: nat)
    requires
        n <= specs.len(),
        decode_named(specs, keys, entries, n) is Ok,
    ensures
        decode_named(specs, keys, entries, n)->Ok_0.len() == n,
        forall|i: int| 0 <= i < n && (#[trigger] specs[i]).skip ==> decode_named(specs, keys, entries, n)->Ok_0[i] == default_of(specs[i]),
    decreases n,
{
    if n > 0 {
        lemma_named_defaults(specs, keys, entries, (n - 1) as nat);
    }
}

/// Skipped fields are filled from their defaults on every successful
/// decode, whatever the input holds.
pub proof fn lemma_skipped_default(fr: FieldsRepr, input: VModel, i: int)
    requires
        0 <= i < specs_of(fr).len(),
        specs_of(fr)[i].skip,
        decode_fields(fr, input) is Ok,
    ensures
        decode_fields(fr, input)->Ok_0[i] == default_of(specs_of(fr)[i]),
{
    match fr {
        FieldsRepr::Unit => {},
        FieldsRepr::Tuple(v) => {
            lemma_tuple_defaults(v@, input->Array_0, v@.len());
        },
        FieldsRepr::Named(v) => {
            lemma_named_defaults(specs_of(fr), keys_of(fr), input->Dictionary_0, v@.len());
        },
    }
}

/// Skipped fields are filled from their defaults on every successful decode
/// of a value, a record or any union case, whatever the input holds.
pub proof fn lemma_value_skipped_default(repr: Repr, input: VModel, i: int)
    requires
        decode(repr, input) is Ok,
        ({
            let m = decode(repr, input)->Ok_0;
            let fr = match repr {
                Repr::Record(fr) => fr,
                Repr::Union(cases) => cases@[m.case as int].fields,
            };
            0 <= i < specs_of(fr).len() && specs_of(fr)[i].skip
        }),
    ensures
        ({
            let m = decode(repr, input)->Ok_0;
            let fr = match repr {
                Repr::Record(fr) => fr,
                Repr::Union(cases) => cases@[m.case as int].fields,
            };
            m.fields[i] == default_of(specs_of(fr)[i])
        }),
{
    match repr {
        Repr::Record(fr) => {
            lemma_skipped_default(fr, input, i);
        },
        Repr::Union(cases) => {
            let entries = input->Dictionary_0;
            let c = first_index(tags_of(cases@), entries[0].0, cases@.len());
            lemma_skipped_default(cases@[c].fields, entries[0].1, i);
        },
    }
}

/// Bound soundness: every generic parameter that a field mentions carries
/// the derived conversion's bound after a successful derivation.
pub proof fn lemma_bound_soundness(d: DeriveData, input: Declaration, bound: Seq<char>, dir: Direction, p: int)
    requires
        derived_from(d, input, bound, dir),
        decl_mentions(input.body, p),
        0 <= p < input.generics@.len(),
    ensures
        d.generics@[p].bounds@.len() > 0,
        d.generics@[p].bounds@.last()@ == bound,
        d.generics@[p].bounds@.drop_last() == input.generics@[p].bounds@,
{
    assert(crate::bounds::extended(input.generics@[p], d.generics@[p], decl_mentions(input.body, p), bound));
}

/// A field-less union case encodes to a one-entry map from its tag to null,
/// and that map decodes back to the case.
pub proof fn lemma_union_unit_case(repr: Repr, c: int)
    requires
        repr.wf(),
        repr is Union,
        0 <= c < repr->Union_0@.len(),
        repr->Union_0@[c].fields is Unit,
    ensures
        encode(repr, ValueModel { case: c as nat, fields: Seq::<Option<VModel>>::empty() })
            == VModel::Dictionary(seq![(tag_of(repr->Union_0@[c]), VModel::Nil)]),
        decode(repr, VModel::Dictionary(seq![(tag_of(repr->Union_0@[c]), VModel::Nil)]))
            == Ok::<ValueModel, Fault>(ValueModel { case: c as nat, fields: Seq::<Option<VModel>>::empty() }),
{
    lemma_round_trip(repr, ValueModel { case: c as nat, fields: Seq::<Option<VModel>>::empty() });
}

proof fn lemma_tuple_trailing(specs: Seq<FieldSpec>, items: Seq<VModel>, k: nat, n: nat)
    requires
        n <= specs.len(),
        kept_count(specs, n) <= k <= items.len(),
    ensures
        decode_tuple(specs, items, n) == decode_tuple(specs, items.take(k as int), n),
    decreases n,
{
    if n > 0 {
        lemma_kept_count_mono(specs, (n - 1) as nat, n);
        lemma_tuple_trailing(specs, items, k, (n - 1) as nat);
    }
}

/// Trailing items are ignored: decoding any sequence for a positional
/// record gives what decoding its first items, one per field that is not
/// skipped, gives.
pub proof fn lemma_tuple_ignores_trailing(repr: Repr, items: Seq<VModel>)
    requires
        repr matches Repr::Record(FieldsRepr::Tuple(_)),
        items.len() >= kept_count(repr->Record_0->Tuple_0@, repr->Record_0->Tuple_0@.len()),
    ensures
        decode(repr, VModel::Array(items)) == decode(
            repr,
            VModel::Array(items.take(kept_count(repr->Record_0->Tuple_0@, repr->Record_0->Tuple_0@.len()) as int)),
        ),
{
    let specs = repr->Record_0->Tuple_0@;
    lemma_min_len(specs, specs.len());
    lemma_tuple_trailing(specs, items, kept_count(specs, specs.len()), specs.len());
}

} // verus!
