//! Derivation of conversions between data types and a dynamically typed `Variant`.
//!
//! A declaration's structure is classified into a representation, its
//! generic parameters get the bounds the conversion needs, and the
//! representation then drives encoding to and decoding from `Variant`.
use vstd::prelude::*;

pub mod variant;
pub mod repr;
pub mod codec;
pub mod derive;
pub mod bounds;
pub mod laws;

use crate::bounds::{GenericParam, extend_bounds, extended, repr_mentions, repr_params_below};
use crate::derive::{
    DeclBody, DeriveError, body_derivable, body_fault, build_repr, builds_to, decl_mentions, lemma_built_mentions,
};
use crate::repr::Repr;

verus! {

/// Which conversion a derivation produces.
#[derive(Copy, Clone, Debug, PartialEq, Eq, Structural)]
pub enum Direction {
    To,
    From,
}

/// The flavor of the encoding: from a borrowed value or from an owned one.
#[derive(Copy, Clone, Debug, PartialEq, Eq, Structural)]
pub enum ToVariantTrait {
    ToVariant,
    OwnedToVariant,
}

impl ToVariantTrait {
    /// The path of the trait that the encoding implements.
    pub fn trait_path(self) -> (r: &'static str)
        ensures
            r@ == (match self {
                ToVariantTrait::ToVariant => "::gdnative::core_types::ToVariant"@,
                ToVariantTrait::OwnedToVariant => "::gdnative::core_types::OwnedToVariant"@,
            }),
    {
        match self {
            ToVariantTrait::ToVariant => "::gdnative::core_types::ToVariant",
            ToVariantTrait::OwnedToVariant => "::gdnative::core_types::OwnedToVariant",
        }
    }

    /// The name of the encoding method.
    pub fn to_variant_fn(self) -> (r: &'static str)
        ensures
            r@ == (match self {
                ToVariantTrait::ToVariant => "to_variant"@,
                ToVariantTrait::OwnedToVariant => "owned_to_variant"@,
            }),
    {
        match self {
            ToVariantTrait::ToVariant => "to_variant",
            ToVariantTrait::OwnedToVariant => "owned_to_variant",
        }
    }

    /// How the encoding method receives the value.
    pub fn to_variant_receiver(self) -> (r: &'static str)
        ensures
            r@ == (match self {
                ToVariantTrait::ToVariant => "&self"@,
                ToVariantTrait::OwnedToVariant => "self"@,
            }),
    {
        match self {
            ToVariantTrait::ToVariant => "&self",
            ToVariantTrait::OwnedToVariant => "self",
        }
    }
}

/// The path of the trait that decoding implements.
pub fn from_variant_path() -> (r: &'static str)
    ensures
        r@ == "::gdnative::core_types::FromVariant"@,
{
    "::gdnative::core_types::FromVariant"
}

/// A declaration as the front end supplies it.
#[derive(Debug, PartialEq, Eq)]
pub struct Declaration {
    pub ident: String,
    pub generics: Vec<GenericParam>,
    pub body: DeclBody,
}

/// The resolved unit of work of one derivation.
#[derive(Debug, PartialEq, Eq)]
pub struct DeriveData {
    pub ident: String,
    pub repr: Repr,
    pub generics: Vec<GenericParam>,
    pub direction: Direction,
}

/// A declaration can be derived: its body can, and every parameter a field
/// mentions is declared.
pub open spec fn derivable(input: Declaration) -> bool {
    &&& body_derivable(input.body)
    &&& forall|p: int| #[trigger] decl_mentions(input.body, p) ==> 0 <= p < input.generics@.len()
}

/// The error a derivation of `input` meets first, if any: the body's own,
/// then an undeclared parameter.
pub open spec fn derive_fault(input: Declaration) -> Option<DeriveError> {
    match body_fault(input.body) {
        Some(e) => Some(e),
        None => if !(forall|p: int| #[trigger] decl_mentions(input.body, p) ==> 0 <= p < input.generics@.len()) {
            Some(DeriveError::UnknownParam)
        } else {
            None
        },
    }
}

/// The derive data is the one for `input`, with `bound` added to every
/// parameter a field mentions.
pub open spec fn derived_from(d: DeriveData, input: Declaration, bound: Seq<char>, dir: Direction) -> bool {
    &&& d.ident == input.ident
    &&& d.direction == dir
    &&& builds_to(input.body, d.repr)
    &&& d.repr.wf()
    &&& d.generics@.len() == input.generics@.len()
    &&& forall|p: int|
        0 <= p < d.generics@.len() ==> extended(input.generics@[p], #[trigger] d.generics@[p], decl_mentions(input.body, p), bound)
}

/// Classifies a declaration, resolves its directives and extends its
/// generic bounds with `bound`.
pub fn parse_derive_input(input: Declaration, bound: &String, dir: Direction) -> (r: Result<DeriveData, DeriveError>)
    ensures
        r is Ok <==> derivable(input),
        r matches Ok(d) ==> derived_from(d, input, bound@, dir),
        r matches Err(e) ==> derive_fault(input) == Some(e),
{
    let ghost inp = input;
    let Declaration { ident, generics, body } = input;
    let repr = match build_repr(body) {
        Ok(repr) => repr,
        Err(e) => return Err(e),
    };
    proof {
        assert forall|p: int|
            #![trigger repr_mentions(repr, p)]
            #![trigger decl_mentions(inp.body, p)]
            repr_mentions(repr, p) == decl_mentions(inp.body, p) by {
            lemma_built_mentions(inp.body, repr, p);
        }
    }
    if !repr_params_below(&repr, generics.len()) {
        return Err(DeriveError::UnknownParam);
    }
    let generics = extend_bounds(generics, &repr, bound);
    Ok(DeriveData { ident, repr, generics, direction: dir })
}

/// Derives the encoding of the given flavor.
pub fn derive_to_variant(trait_kind: ToVariantTrait, input: Declaration) -> (r: Result<DeriveData, DeriveError>)
    ensures
        r is Ok <==> derivable(input),
        r matches Ok(d) ==> derived_from(d, input, trait_kind.trait_path_spec(), Direction::To),
        r matches Err(e) ==> derive_fault(input) == Some(e),
{
    let bound = trait_kind.trait_path().to_owned();
    parse_derive_input(input, &bound, Direction::To)
}

/// Derives the decoding.
pub fn derive_from_variant(input: Declaration) -> (r: Result<DeriveData, DeriveError>)
    ensures
        r is Ok <==> derivable(input),
        r matches Ok(d) ==> derived_from(d, input, "::gdnative::core_types::FromVariant"@, Direction::From),
        r matches Err(e) ==> derive_fault(input) == Some(e),
{
    let bound = from_variant_path().to_owned();
    parse_derive_input(input, &bound, Direction::From)
}

impl ToVariantTrait {
    pub open spec fn trait_path_spec(self) -> Seq<char> {
        match self {
            ToVariantTrait::ToVariant => "::gdnative::core_types::ToVariant"@,
            ToVariantTrait::OwnedToVariant => "::gdnative::core_types::OwnedToVariant"@,
        }
    }
}

} // verus!
