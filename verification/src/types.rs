//! Core data model of the type registry: dense identifiers, the `Type` tag,
//! and per-property metadata.

use vstd::prelude::*;

verus! {

/// Dense identifier of a class; ids are minted sequentially starting at 1,
/// id 0 is reserved.
pub type ClassID = u32;

/// Dense identifier of a property; ids are minted sequentially starting at 1,
/// id 0 is reserved.
pub type PropertyID = u32;

/// Returned when a class or a non-sentinel property is defined a second time.
#[derive(Debug)]
pub struct DuplicateDef;

/// The type of a property: a primitive, a class reference, or the sentinel
/// `Invalid` that marks a reserved-but-undefined slot.
#[derive(Debug, Clone, Copy, PartialEq, Eq, Structural, Hash)]
pub enum Type {
    Int,
    Float,
    String,
    Class(ClassID),
    Invalid,
}

impl Type {
    /// True for every variant but the `Invalid` sentinel.
    pub fn is_valid(self) -> (r: bool)
        ensures
            r == (self != Type::Invalid),
    {
        match self {
            Type::Invalid => false,
            _ => true,
        }
    }
}

impl Default for Type {
    /// The default type is the `Invalid` sentinel.
    fn default() -> (r: Self)
        ensures
            r == Type::Invalid,
    {
        Type::Invalid
    }
}

/// The packed 64-bit encoding of a `Type`: discriminants 0 to 2 and 4 for the
/// primitives and the sentinel, discriminant 3 with the class id in the high
/// 32 bits for a class reference.
pub open spec fn type_code(t: Type) -> u64 {
    match t {
        Type::Int => 0u64,
        Type::Float => 1u64,
        Type::String => 2u64,
        Type::Class(id) => (3u64 | ((id as u64) << 32)) as u64,
        Type::Invalid => 4u64,
    }
}

impl From<Type> for u64 {
    /// Packs the tag into 64 bits; a class id is shifted above the
    /// discriminant range.
    fn from(t: Type) -> (r: Self)
        ensures
            r == type_code(t),
    {
        match t {
            Type::Int => 0u64,
            Type::Float => 1u64,
            Type::String => 2u64,
            Type::Class(id) => 3u64 | ((id as u64) << 32),
            Type::Invalid => 4u64,
        }
    }
}

impl vstd::std_specs::convert::FromSpecImpl<Type> for u64 {
    open spec fn obeys_from_spec() -> bool {
        true
    }

    open spec fn from_spec(t: Type) -> u64 {
        type_code(t)
    }
}

impl From<Type> for usize {
    /// The packed encoding, truncated to the machine word.
    fn from(t: Type) -> (r: Self)
        ensures
            r == type_code(t) as usize,
    {
        #[verifier::truncate]
        let r = u64::from(t) as usize;
        r
    }
}

impl vstd::std_specs::convert::FromSpecImpl<Type> for usize {
    open spec fn obeys_from_spec() -> bool {
        true
    }

    open spec fn from_spec(t: Type) -> usize {
        type_code(t) as usize
    }
}

/// Per-property metadata. `source` is the class that originally defined the
/// property, not a class that inherits it. `inner_type == Type::Invalid`
/// marks a reserved-but-undefined slot.
#[derive(Debug, Clone, Copy, PartialEq, Eq, Structural, Hash)]
pub struct Property {
    pub id: PropertyID,
    pub inner_type: Type,
    pub source: ClassID,
}

/// The sentinel record a slot reserved under `id` holds until it is
/// defined.
pub open spec fn reserved_property(id: u32) -> Property {
    Property { id: id, inner_type: Type::Invalid, source: 0 }
}

impl Default for Property {
    /// The all-zero record: id 0, `Invalid` type, source 0.
    fn default() -> (r: Self)
        ensures
            r == reserved_property(0),
    {
        Property { id: 0, inner_type: Type::Invalid, source: 0 }
    }
}

} // verus!
