use gdnative_derive::bounds::GenericParam;
use gdnative_derive::codec::{DecodeError, FieldKey, Value};
use gdnative_derive::derive::{DeclBody, DeclCase, DeclField, DeriveError, Directive};
use gdnative_derive::repr::{Repr, TypeRef};
use gdnative_derive::variant::Variant;
use gdnative_derive::{derive_from_variant, derive_to_variant, parse_derive_input, Declaration, Direction, ToVariantTrait};

fn s(x: &str) -> String {
    x.to_string()
}

fn named(name: &str, ty: TypeRef, directives: Vec<Directive>) -> DeclField {
    DeclField { name: Some(s(name)), ty, directives }
}

fn positional(ty: TypeRef, directives: Vec<Directive>) -> DeclField {
    DeclField { name: None, ty, directives }
}

fn decl(ident: &str, generics: Vec<GenericParam>, body: DeclBody) -> Declaration {
    Declaration { ident: s(ident), generics, body }
}

fn dict(entries: Vec<(&str, Variant)>) -> Variant {
    Variant::Dictionary(entries.into_iter().map(|(k, v)| (s(k), v)).collect())
}

fn repr_of(d: Declaration) -> Repr {
    derive_from_variant(d).unwrap().repr
}

fn point() -> Repr {
    repr_of(decl(
        "Point",
        vec![],
        DeclBody::Struct(vec![named("x", TypeRef::Int, vec![]), named("y", TypeRef::Int, vec![])]),
    ))
}

fn shape() -> Repr {
    repr_of(decl(
        "Shape",
        vec![],
        DeclBody::Enum(vec![
            DeclCase { name: s("Circle"), fields: vec![named("r", TypeRef::Int, vec![])], directives: vec![] },
            DeclCase { name: s("Empty"), fields: vec![], directives: vec![] },
        ]),
    ))
}

fn pair() -> Repr {
    repr_of(decl(
        "Pair",
        vec![],
        DeclBody::Struct(vec![positional(TypeRef::Int, vec![]), positional(TypeRef::Str, vec![])]),
    ))
}

#[test]
fn point_encodes_to_map() {
    let v = Value { case: 0, fields: vec![Some(Variant::Int(3)), Some(Variant::Int(4))] };
    assert_eq!(point().to_variant(&v), dict(vec![("x", Variant::Int(3)), ("y", Variant::Int(4))]));
}

#[test]
fn point_decodes_with_keys_swapped() {
    let input = dict(vec![("y", Variant::Int(4)), ("x", Variant::Int(3))]);
    let v = point().from_variant(&input).unwrap();
    assert_eq!(v, Value { case: 0, fields: vec![Some(Variant::Int(3)), Some(Variant::Int(4))] });
}

#[test]
fn point_round_trip_both_flavors() {
    let repr = point();
    let v = Value { case: 0, fields: vec![Some(Variant::Int(-7)), Some(Variant::Int(12))] };
    let borrowed = repr.to_variant(&v);
    let owned = repr.owned_to_variant(Value { case: 0, fields: vec![Some(Variant::Int(-7)), Some(Variant::Int(12))] });
    assert_eq!(borrowed, owned);
    assert_eq!(repr.from_variant(&borrowed), Ok(v));
}

#[test]
fn missing_key_is_reported() {
    let input = dict(vec![("x", Variant::Int(3))]);
    assert_eq!(point().from_variant(&input), Err(DecodeError::MissingField(s("y"))));
}

#[test]
fn field_of_wrong_type_is_reported() {
    let input = dict(vec![("x", Variant::Str(s("three"))), ("y", Variant::Int(4))]);
    assert_eq!(point().from_variant(&input), Err(DecodeError::FieldDecodeFailed(FieldKey::Name(s("x")))));
}

#[test]
fn unknown_keys_are_ignored() {
    let input = dict(vec![("x", Variant::Int(1)), ("z", Variant::Nil), ("y", Variant::Int(2))]);
    assert_eq!(point().from_variant(&input), Ok(Value { case: 0, fields: vec![Some(Variant::Int(1)), Some(Variant::Int(2))] }));
}

#[test]
fn named_record_rejects_a_sequence() {
    assert_eq!(point().from_variant(&Variant::Array(vec![])), Err(DecodeError::ShapeMismatch));
}

#[test]
fn union_case_encodes_as_single_entry() {
    let circle = Value { case: 0, fields: vec![Some(Variant::Int(2))] };
    assert_eq!(shape().to_variant(&circle), dict(vec![("Circle", dict(vec![("r", Variant::Int(2))]))]));
    let empty = Value { case: 1, fields: vec![] };
    assert_eq!(shape().to_variant(&empty), dict(vec![("Empty", Variant::Nil)]));
}

#[test]
fn union_round_trip() {
    let repr = shape();
    let circle = Value { case: 0, fields: vec![Some(Variant::Int(2))] };
    let encoded = repr.to_variant(&circle);
    assert_eq!(repr.from_variant(&encoded), Ok(circle));
    let empty = Value { case: 1, fields: vec![] };
    assert_eq!(repr.from_variant(&dict(vec![("Empty", Variant::Nil)])), Ok(empty));
}

#[test]
fn union_unknown_tag() {
    let input = dict(vec![("Square", Variant::Nil)]);
    assert_eq!(shape().from_variant(&input), Err(DecodeError::UnknownVariant(s("Square"))));
}

#[test]
fn union_needs_exactly_one_entry() {
    let two = dict(vec![("Empty", Variant::Nil), ("Circle", dict(vec![("r", Variant::Int(1))]))]);
    assert_eq!(shape().from_variant(&two), Err(DecodeError::ShapeMismatch));
    assert_eq!(shape().from_variant(&dict(vec![])), Err(DecodeError::ShapeMismatch));
    assert_eq!(shape().from_variant(&Variant::Int(0)), Err(DecodeError::ShapeMismatch));
}

#[test]
fn unit_case_rejects_non_null() {
    let input = dict(vec![("Empty", Variant::Int(1))]);
    assert_eq!(shape().from_variant(&input), Err(DecodeError::ShapeMismatch));
}

#[test]
fn unit_record_is_null() {
    let repr = repr_of(decl("Marker", vec![], DeclBody::Struct(vec![])));
    assert_eq!(repr, Repr::Record(gdnative_derive::repr::FieldsRepr::Unit));
    let v = Value { case: 0, fields: vec![] };
    assert_eq!(repr.to_variant(&v), Variant::Nil);
    assert_eq!(repr.from_variant(&Variant::Nil), Ok(v));
    assert_eq!(repr.from_variant(&Variant::Bool(true)), Err(DecodeError::ShapeMismatch));
}

#[test]
fn tuple_encodes_in_order() {
    let v = Value { case: 0, fields: vec![Some(Variant::Int(5)), Some(Variant::Str(s("five")))] };
    assert_eq!(pair().to_variant(&v), Variant::Array(vec![Variant::Int(5), Variant::Str(s("five"))]));
}

#[test]
fn tuple_extra_entries_are_ignored() {
    let input = Variant::Array(vec![Variant::Int(5), Variant::Str(s("five")), Variant::Bool(true)]);
    assert_eq!(
        pair().from_variant(&input),
        Ok(Value { case: 0, fields: vec![Some(Variant::Int(5)), Some(Variant::Str(s("five")))] })
    );
}

#[test]
fn tuple_too_short_fails() {
    let input = Variant::Array(vec![Variant::Int(5)]);
    assert_eq!(pair().from_variant(&input), Err(DecodeError::ShapeMismatch));
    assert_eq!(pair().from_variant(&Variant::Array(vec![])), Err(DecodeError::ShapeMismatch));
}

#[test]
fn tuple_item_of_wrong_type() {
    let input = Variant::Array(vec![Variant::Int(5), Variant::Int(6)]);
    assert_eq!(pair().from_variant(&input), Err(DecodeError::FieldDecodeFailed(FieldKey::Index(1))));
}

#[test]
fn tuple_missing_defaulted_field_uses_default() {
    let repr = repr_of(decl(
        "Opt",
        vec![],
        DeclBody::Struct(vec![
            positional(TypeRef::Int, vec![]),
            positional(TypeRef::Int, vec![Directive::DefaultValue(Variant::Int(9))]),
        ]),
    ));
    let input = Variant::Array(vec![Variant::Int(1)]);
    assert_eq!(repr.from_variant(&input), Ok(Value { case: 0, fields: vec![Some(Variant::Int(1)), Some(Variant::Int(9))] }));
}

#[test]
fn skipped_field_is_absent_and_defaulted() {
    let repr = repr_of(decl(
        "Cached",
        vec![],
        DeclBody::Struct(vec![
            named("id", TypeRef::Int, vec![]),
            named("cache", TypeRef::Str, vec![Directive::Skip]),
        ]),
    ));
    let v = Value { case: 0, fields: vec![Some(Variant::Int(1)), Some(Variant::Str(String::new()))] };
    let encoded = repr.to_variant(&v);
    assert_eq!(encoded, dict(vec![("id", Variant::Int(1))]));
    let with_cache = dict(vec![("id", Variant::Int(1)), ("cache", Variant::Str(s("stale")))]);
    assert_eq!(repr.from_variant(&with_cache), Ok(v));
}

#[test]
fn skipped_positional_field_takes_no_position() {
    let repr = repr_of(decl(
        "Skips",
        vec![],
        DeclBody::Struct(vec![
            positional(TypeRef::Int, vec![Directive::Skip, Directive::DefaultValue(Variant::Int(4))]),
            positional(TypeRef::Bool, vec![]),
        ]),
    ));
    let v = Value { case: 0, fields: vec![Some(Variant::Int(4)), Some(Variant::Bool(true))] };
    assert_eq!(repr.to_variant(&v), Variant::Array(vec![Variant::Bool(true)]));
    assert_eq!(repr.from_variant(&Variant::Array(vec![Variant::Bool(true)])), Ok(v));
}

#[test]
fn rename_changes_key_and_tag() {
    let repr = repr_of(decl(
        "Renamed",
        vec![],
        DeclBody::Enum(vec![DeclCase {
            name: s("First"),
            fields: vec![named("value", TypeRef::Bool, vec![Directive::Rename(s("v"))])],
            directives: vec![Directive::Rename(s("one"))],
        }]),
    ));
    let v = Value { case: 0, fields: vec![Some(Variant::Bool(false))] };
    let encoded = repr.to_variant(&v);
    assert_eq!(encoded, dict(vec![("one", dict(vec![("v", Variant::Bool(false))]))]));
    assert_eq!(repr.from_variant(&encoded), Ok(v));
    assert_eq!(
        repr.from_variant(&dict(vec![("First", dict(vec![("v", Variant::Bool(false))]))])),
        Err(DecodeError::UnknownVariant(s("First")))
    );
}

#[test]
fn list_fields_are_checked_per_element() {
    let repr = repr_of(decl(
        "Bag",
        vec![],
        DeclBody::Struct(vec![named("items", TypeRef::List(Box::new(TypeRef::Int)), vec![])]),
    ));
    let good = dict(vec![("items", Variant::Array(vec![Variant::Int(1), Variant::Int(2)]))]);
    assert!(repr.from_variant(&good).is_ok());
    let bad = dict(vec![("items", Variant::Array(vec![Variant::Int(1), Variant::Nil]))]);
    assert_eq!(repr.from_variant(&bad), Err(DecodeError::FieldDecodeFailed(FieldKey::Name(s("items")))));
}

#[test]
fn type_default_of_list_is_empty() {
    let repr = repr_of(decl(
        "Bag",
        vec![],
        DeclBody::Struct(vec![named("items", TypeRef::List(Box::new(TypeRef::Str)), vec![Directive::Default])]),
    ));
    assert_eq!(
        repr.from_variant(&dict(vec![])),
        Ok(Value { case: 0, fields: vec![Some(Variant::Array(vec![]))] })
    );
}

fn param(name: &str, bounds: Vec<&str>) -> GenericParam {
    GenericParam { name: s(name), bounds: bounds.into_iter().map(s).collect() }
}

#[test]
fn bound_added_to_used_parameter_only() {
    let d = decl(
        "Wrapper",
        vec![param("T", vec!["Clone"]), param("M", vec![])],
        DeclBody::Struct(vec![named("inner", TypeRef::List(Box::new(TypeRef::Param(0))), vec![])]),
    );
    let data = derive_to_variant(ToVariantTrait::ToVariant, d).unwrap();
    assert_eq!(data.generics[0].bounds, vec![s("Clone"), s("::gdnative::core_types::ToVariant")]);
    assert!(data.generics[1].bounds.is_empty());
    assert_eq!(data.direction, Direction::To);
}

#[test]
fn bound_follows_flavor_and_direction() {
    let mk = || {
        decl("W", vec![param("T", vec![])], DeclBody::Struct(vec![positional(TypeRef::Param(0), vec![])]))
    };
    let owned = derive_to_variant(ToVariantTrait::OwnedToVariant, mk()).unwrap();
    assert_eq!(owned.generics[0].bounds, vec![s("::gdnative::core_types::OwnedToVariant")]);
    let from = derive_from_variant(mk()).unwrap();
    assert_eq!(from.generics[0].bounds, vec![s("::gdnative::core_types::FromVariant")]);
    assert_eq!(from.direction, Direction::From);
}

#[test]
fn undeclared_parameter_is_rejected() {
    let d = decl("W", vec![], DeclBody::Struct(vec![positional(TypeRef::Param(0), vec![])]));
    assert_eq!(parse_derive_input(d, &s("Custom"), Direction::To).err(), Some(DeriveError::UnknownParam));
}

#[test]
fn mixed_fields_are_rejected() {
    let d = decl("M", vec![], DeclBody::Struct(vec![named("a", TypeRef::Int, vec![]), positional(TypeRef::Int, vec![])]));
    assert_eq!(derive_from_variant(d).err(), Some(DeriveError::MixedFields(None)));
}

#[test]
fn untagged_union_is_rejected() {
    let d = decl("U", vec![], DeclBody::Union(vec![named("a", TypeRef::Int, vec![])]));
    assert_eq!(derive_from_variant(d).err(), Some(DeriveError::UnsupportedUnion));
}

#[test]
fn duplicate_keys_are_rejected() {
    let d = decl(
        "D",
        vec![],
        DeclBody::Struct(vec![named("a", TypeRef::Int, vec![]), named("b", TypeRef::Int, vec![Directive::Rename(s("a"))])]),
    );
    assert_eq!(derive_from_variant(d).err(), Some(DeriveError::DuplicateKey(None)));
}

#[test]
fn duplicate_tags_are_rejected() {
    let d = decl(
        "D",
        vec![],
        DeclBody::Enum(vec![
            DeclCase { name: s("A"), fields: vec![], directives: vec![] },
            DeclCase { name: s("B"), fields: vec![], directives: vec![Directive::Rename(s("A"))] },
        ]),
    );
    assert_eq!(derive_from_variant(d).err(), Some(DeriveError::DuplicateTag));
}

#[test]
fn case_directive_other_than_rename_is_rejected() {
    let d = decl(
        "D",
        vec![],
        DeclBody::Enum(vec![DeclCase { name: s("A"), fields: vec![], directives: vec![Directive::Skip] }]),
    );
    assert_eq!(derive_from_variant(d).err(), Some(DeriveError::MisplacedDirective(0)));
}

#[test]
fn skipped_parameter_field_takes_type_default() {
    let d = decl(
        "D",
        vec![param("T", vec![])],
        DeclBody::Struct(vec![named("id", TypeRef::Int, vec![]), named("t", TypeRef::Param(0), vec![Directive::Skip])]),
    );
    let repr = derive_from_variant(d).unwrap().repr;
    let input = dict(vec![("id", Variant::Int(8)), ("t", Variant::Int(1))]);
    assert_eq!(repr.from_variant(&input), Ok(Value { case: 0, fields: vec![Some(Variant::Int(8)), None] }));
}

#[test]
fn default_of_wrong_type_is_rejected() {
    let d = decl(
        "D",
        vec![],
        DeclBody::Struct(vec![named("n", TypeRef::Int, vec![Directive::DefaultValue(Variant::Bool(true))])]),
    );
    assert_eq!(derive_from_variant(d).err(), Some(DeriveError::InvalidDefault(None, 0)));
    let p = decl(
        "P",
        vec![param("T", vec![])],
        DeclBody::Struct(vec![named("t", TypeRef::Param(0), vec![Directive::Default])]),
    );
    let repr = derive_from_variant(p).unwrap().repr;
    assert_eq!(repr.from_variant(&dict(vec![])), Ok(Value { case: 0, fields: vec![None] }));
}

#[test]
fn trait_names() {
    assert_eq!(ToVariantTrait::ToVariant.trait_path(), "::gdnative::core_types::ToVariant");
    assert_eq!(ToVariantTrait::OwnedToVariant.trait_path(), "::gdnative::core_types::OwnedToVariant");
    assert_eq!(ToVariantTrait::ToVariant.to_variant_fn(), "to_variant");
    assert_eq!(ToVariantTrait::OwnedToVariant.to_variant_fn(), "owned_to_variant");
    assert_eq!(ToVariantTrait::ToVariant.to_variant_receiver(), "&self");
    assert_eq!(ToVariantTrait::OwnedToVariant.to_variant_receiver(), "self");
}

#[test]
fn duplicate_is_deep() {
    let v = dict(vec![("a", Variant::Array(vec![Variant::Str(s("x")), Variant::Nil]))]);
    assert_eq!(v.duplicate(), v);
}

#[test]
fn skipped_field_value_never_encoded() {
    let repr = repr_of(decl(
        "Cached",
        vec![],
        DeclBody::Struct(vec![
            named("id", TypeRef::Int, vec![]),
            named("cache", TypeRef::Str, vec![Directive::Skip]),
        ]),
    ));
    let v = Value { case: 0, fields: vec![Some(Variant::Int(2)), Some(Variant::Str(s("warm")))] };
    let encoded = repr.to_variant(&v);
    assert_eq!(encoded, dict(vec![("id", Variant::Int(2))]));
    assert_eq!(
        repr.from_variant(&encoded),
        Ok(Value { case: 0, fields: vec![Some(Variant::Int(2)), Some(Variant::Str(String::new()))] })
    );
}

#[test]
fn errors_locate_the_offending_case_and_field() {
    let d = decl(
        "E",
        vec![],
        DeclBody::Enum(vec![
            DeclCase { name: s("A"), fields: vec![], directives: vec![] },
            DeclCase {
                name: s("B"),
                fields: vec![named("a", TypeRef::Int, vec![]), named("b", TypeRef::Int, vec![Directive::DefaultValue(Variant::Nil)])],
                directives: vec![],
            },
        ]),
    );
    assert_eq!(derive_from_variant(d).err(), Some(DeriveError::InvalidDefault(Some(1), 1)));
    let m = decl(
        "M",
        vec![],
        DeclBody::Enum(vec![
            DeclCase { name: s("A"), fields: vec![], directives: vec![] },
            DeclCase { name: s("B"), fields: vec![named("a", TypeRef::Int, vec![]), positional(TypeRef::Int, vec![])], directives: vec![] },
        ]),
    );
    assert_eq!(derive_from_variant(m).err(), Some(DeriveError::MixedFields(Some(1))));
}

#[test]
fn other_types_carry_their_arguments() {
    let option_of_t = TypeRef::Other(s("Option"), vec![TypeRef::Param(0)]);
    let d = decl(
        "Holder",
        vec![param("T", vec![]), param("U", vec![])],
        DeclBody::Struct(vec![named("maybe", option_of_t, vec![])]),
    );
    let data = derive_from_variant(d).unwrap();
    assert_eq!(data.generics[0].bounds, vec![s("::gdnative::core_types::FromVariant")]);
    assert!(data.generics[1].bounds.is_empty());
    let input = dict(vec![("maybe", Variant::Str(s("anything")))]);
    assert_eq!(data.repr.from_variant(&input), Ok(Value { case: 0, fields: vec![Some(Variant::Str(s("anything")))] }));
}

#[test]
fn skipped_other_type_is_filled_by_its_own_default() {
    let d = decl(
        "Holder",
        vec![],
        DeclBody::Struct(vec![named("inner", TypeRef::Other(s("Option"), vec![TypeRef::Int]), vec![Directive::Skip])]),
    );
    let repr = derive_from_variant(d).unwrap().repr;
    let v = Value { case: 0, fields: vec![Some(Variant::Int(3))] };
    assert_eq!(repr.to_variant(&v), dict(vec![]));
    assert_eq!(repr.from_variant(&dict(vec![])), Ok(Value { case: 0, fields: vec![None] }));
}

#[test]
fn too_short_sequence_is_checked_before_items() {
    let repr = repr_of(decl(
        "Two",
        vec![],
        DeclBody::Struct(vec![positional(TypeRef::Int, vec![]), positional(TypeRef::Int, vec![])]),
    ));
    assert_eq!(repr.from_variant(&Variant::Array(vec![Variant::Bool(true)])), Err(DecodeError::ShapeMismatch));
    assert_eq!(
        repr.from_variant(&Variant::Array(vec![Variant::Bool(true), Variant::Int(1)])),
        Err(DecodeError::FieldDecodeFailed(FieldKey::Index(0)))
    );
}

#[test]
fn trailing_items_do_not_change_a_failure() {
    let short = Variant::Array(vec![Variant::Int(1), Variant::Int(2)]);
    let long = Variant::Array(vec![Variant::Int(1), Variant::Int(2), Variant::Str(s("x"))]);
    assert_eq!(pair().from_variant(&short), pair().from_variant(&long));
    assert_eq!(pair().from_variant(&long), Err(DecodeError::FieldDecodeFailed(FieldKey::Index(1))));
}

#[test]
fn union_unit_case_from_null() {
    let empty = Value { case: 1, fields: vec![] };
    assert_eq!(shape().from_variant(&dict(vec![("Empty", Variant::Nil)])), Ok(empty));
}
