//! The dynamic type detector and its closed tag set.
//!
//! The dynamic codec classifies a value into exactly one tag of a closed
//! enumeration, writes the tag's byte, and dispatches on it.  The byte
//! assignment is a wire constant: renumbering it would break every stream
//! written by an earlier build.

use vstd::prelude::*;

use crate::value::{ElementKind, Value, ValueModel};

verus! {

/// One tag of the closed classification set: one per scalar kind, one per
/// numeric-array element kind, one each for the container kinds, and a
/// catch-all for everything else.
#[derive(Clone, Copy, Debug, PartialEq, Eq, Structural)]
pub enum TypeTag {
    Bool,
    Bytes,
    Complex,
    Dict,
    Float,
    Int,
    List,
    Array(ElementKind),
    Other,
    SetOf,
    Str,
    Tuple,
}

/// The wire byte of a tag.
pub open spec fn spec_tag_byte(t: TypeTag) -> u8 {
    match t {
        TypeTag::Bool => 0,
        TypeTag::Bytes => 1,
        TypeTag::Complex => 2,
        TypeTag::Dict => 3,
        TypeTag::Float => 4,
        TypeTag::Int => 5,
        TypeTag::List => 6,
        TypeTag::Array(k) => match k {
            ElementKind::Int8 => 7,
            ElementKind::Int16 => 8,
            ElementKind::Int32 => 9,
            ElementKind::Int64 => 10,
            ElementKind::Uint8 => 11,
            ElementKind::Uint16 => 12,
            ElementKind::Uint32 => 13,
            ElementKind::Uint64 => 14,
            ElementKind::Float32 => 15,
            ElementKind::Float64 => 16,
        },
        TypeTag::Other => 17,
        TypeTag::SetOf => 18,
        TypeTag::Str => 19,
        TypeTag::Tuple => 20,
    }
}

/// Computes the wire byte of a tag.
pub fn get_type_tag_byte(t: TypeTag) -> (r: u8)
    ensures
        r == spec_tag_byte(t),
{
    match t {
        TypeTag::Bool => 0,
        TypeTag::Bytes => 1,
        TypeTag::Complex => 2,
        TypeTag::Dict => 3,
        TypeTag::Float => 4,
        TypeTag::Int => 5,
        TypeTag::List => 6,
        TypeTag::Array(k) => match k {
            ElementKind::Int8 => 7,
            ElementKind::Int16 => 8,
            ElementKind::Int32 => 9,
            ElementKind::Int64 => 10,
            ElementKind::Uint8 => 11,
            ElementKind::Uint16 => 12,
            ElementKind::Uint32 => 13,
            ElementKind::Uint64 => 14,
            ElementKind::Float32 => 15,
            ElementKind::Float64 => 16,
        },
        TypeTag::Other => 17,
        TypeTag::SetOf => 18,
        TypeTag::Str => 19,
        TypeTag::Tuple => 20,
    }
}

/// The tag a wire byte names, if any.
pub open spec fn spec_tag_of_byte(b: u8) -> Option<TypeTag> {
    if b == 0 {
        Some(TypeTag::Bool)
    } else if b == 1 {
        Some(TypeTag::Bytes)
    } else if b == 2 {
        Some(TypeTag::Complex)
    } else if b == 3 {
        Some(TypeTag::Dict)
    } else if b == 4 {
        Some(TypeTag::Float)
    } else if b == 5 {
        Some(TypeTag::Int)
    } else if b == 6 {
        Some(TypeTag::List)
    } else if b == 7 {
        Some(TypeTag::Array(ElementKind::Int8))
    } else if b == 8 {
        Some(TypeTag::Array(ElementKind::Int16))
    } else if b == 9 {
        Some(TypeTag::Array(ElementKind::Int32))
    } else if b == 10 {
        Some(TypeTag::Array(ElementKind::Int64))
    } else if b == 11 {
        Some(TypeTag::Array(ElementKind::Uint8))
    } else if b == 12 {
        Some(TypeTag::Array(ElementKind::Uint16))
    } else if b == 13 {
        Some(TypeTag::Array(ElementKind::Uint32))
    } else if b == 14 {
        Some(TypeTag::Array(ElementKind::Uint64))
    } else if b == 15 {
        Some(TypeTag::Array(ElementKind::Float32))
    } else if b == 16 {
        Some(TypeTag::Array(ElementKind::Float64))
    } else if b == 17 {
        Some(TypeTag::Other)
    } else if b == 18 {
        Some(TypeTag::SetOf)
    } else if b == 19 {
        Some(TypeTag::Str)
    } else if b == 20 {
        Some(TypeTag::Tuple)
    } else {
        None
    }
}

/// Reads the tag a wire byte names, if any.
pub fn retrieve_type_tag(b: u8) -> (r: Option<TypeTag>)
    ensures
        r == spec_tag_of_byte(b),
{
    if b == 0 {
        Some(TypeTag::Bool)
    } else if b == 1 {
        Some(TypeTag::Bytes)
    } else if b == 2 {
        Some(TypeTag::Complex)
    } else if b == 3 {
        Some(TypeTag::Dict)
    } else if b == 4 {
        Some(TypeTag::Float)
    } else if b == 5 {
        Some(TypeTag::Int)
    } else if b == 6 {
        Some(TypeTag::List)
    } else if b == 7 {
        Some(TypeTag::Array(ElementKind::Int8))
    } else if b == 8 {
        Some(TypeTag::Array(ElementKind::Int16))
    } else if b == 9 {
        Some(TypeTag::Array(ElementKind::Int32))
    } else if b == 10 {
        Some(TypeTag::Array(ElementKind::Int64))
    } else if b == 11 {
        Some(TypeTag::Array(ElementKind::Uint8))
    } else if b == 12 {
        Some(TypeTag::Array(ElementKind::Uint16))
    } else if b == 13 {
        Some(TypeTag::Array(ElementKind::Uint32))
    } else if b == 14 {
        Some(TypeTag::Array(ElementKind::Uint64))
    } else if b == 15 {
        Some(TypeTag::Array(ElementKind::Float32))
    } else if b == 16 {
        Some(TypeTag::Array(ElementKind::Float64))
    } else if b == 17 {
        Some(TypeTag::Other)
    } else if b == 18 {
        Some(TypeTag::SetOf)
    } else if b == 19 {
        Some(TypeTag::Str)
    } else if b == 20 {
        Some(TypeTag::Tuple)
    } else {
        None
    }
}

/// The tag the detector assigns to a value: one exact check per kind, and
/// the catch-all for every value with no structural classification of its
/// own (records, absent values, and pre-serialized opaque payloads).
pub open spec fn spec_detect(v: ValueModel) -> TypeTag {
    match v {
        ValueModel::Bool(_) => TypeTag::Bool,
        ValueModel::Int(_) => TypeTag::Int,
        ValueModel::Float(_) => TypeTag::Float,
        ValueModel::Complex(_, _) => TypeTag::Complex,
        ValueModel::Str(_) => TypeTag::Str,
        ValueModel::Bytes(_) => TypeTag::Bytes,
        ValueModel::Array(a) => TypeTag::Array(a.kind),
        ValueModel::List(_) => TypeTag::List,
        ValueModel::SetOf(_) => TypeTag::SetOf,
        ValueModel::Tuple(_) => TypeTag::Tuple,
        ValueModel::Dict(_) => TypeTag::Dict,
        ValueModel::Record(_) => TypeTag::Other,
        ValueModel::Null => TypeTag::Other,
        ValueModel::Opaque(_) => TypeTag::Other,
    }
}

/// Classifies a value into its tag.
pub fn detect_type(v: &Value) -> (r: TypeTag)
    ensures
        r == spec_detect(v@),
{
    match v {
        Value::Bool(_) => TypeTag::Bool,
        Value::Int(_) => TypeTag::Int,
        Value::Float(_) => TypeTag::Float,
        Value::Complex(_, _) => TypeTag::Complex,
        Value::Str(_) => TypeTag::Str,
        Value::Bytes(_) => TypeTag::Bytes,
        Value::Array(a) => TypeTag::Array(a.kind),
        Value::List(_) => TypeTag::List,
        Value::SetOf(_) => TypeTag::SetOf,
        Value::Tuple(_) => TypeTag::Tuple,
        Value::Dict(_) => TypeTag::Dict,
        Value::Record(_) => TypeTag::Other,
        Value::Null => TypeTag::Other,
        Value::Opaque(_) => TypeTag::Other,
    }
}

/// Every tag byte round-trips, and every byte the classifier can emit is
/// in the closed set.
pub proof fn lemma_tag_byte_roundtrip(t: TypeTag)
    ensures
        spec_tag_of_byte(spec_tag_byte(t)) == Some(t),
        spec_tag_byte(t) <= 20,
{
}

/// Dynamic tag coverage: the classifier assigns every value of the model a
/// tag in the closed set, and a value with no structural classification
/// still lands on the catch-all tag rather than falling through.
pub proof fn lemma_detect_covers(v: ValueModel)
    ensures
        spec_tag_of_byte(spec_tag_byte(spec_detect(v))) == Some(spec_detect(v)),
        spec_tag_byte(spec_detect(v)) <= 20,
{
    lemma_tag_byte_roundtrip(spec_detect(v));
}

} // verus!
