use vstd::prelude::*;
use crate::error::DecodeError;

verus! {

/// The primitive kinds a registry entry can name.
#[derive(Clone, Copy, Debug, PartialEq, Eq, Structural)]
pub enum Primitive {
    Bool,
    Char,
    Str,
    U8,
    U16,
    U32,
    U64,
    U128,
    U256,
    I8,
    I16,
    I32,
    I64,
    I128,
    I256,
}

/// Number of distinct primitive kinds.
pub const PRIMITIVE_KINDS: usize = 15;

/// The position of a primitive kind in declaration order.
pub open spec fn kind_index(k: Primitive) -> nat {
    match k {
        Primitive::Bool => 0,
        Primitive::Char => 1,
        Primitive::Str => 2,
        Primitive::U8 => 3,
        Primitive::U16 => 4,
        Primitive::U32 => 5,
        Primitive::U64 => 6,
        Primitive::U128 => 7,
        Primitive::U256 => 8,
        Primitive::I8 => 9,
        Primitive::I16 => 10,
        Primitive::I32 => 11,
        Primitive::I64 => 12,
        Primitive::I128 => 13,
        Primitive::I256 => 14,
    }
}

/// The position of a primitive kind in declaration order.
pub fn primitive_index(k: &Primitive) -> (r: usize)
    ensures
        r == kind_index(*k),
        r < PRIMITIVE_KINDS,
{
    match k {
        Primitive::Bool => 0,
        Primitive::Char => 1,
        Primitive::Str => 2,
        Primitive::U8 => 3,
        Primitive::U16 => 4,
        Primitive::U32 => 5,
        Primitive::U64 => 6,
        Primitive::U128 => 7,
        Primitive::U256 => 8,
        Primitive::I8 => 9,
        Primitive::I16 => 10,
        Primitive::I32 => 11,
        Primitive::I64 => 12,
        Primitive::I128 => 13,
        Primitive::I256 => 14,
    }
}

/// One field of a composite record: an optional name and the field's type.
#[derive(Clone, Debug)]
pub struct Field {
    pub name: Option<String>,
    pub ty: u32,
}

/// The shape of one registry entry.
#[derive(Clone, Debug)]
pub enum TypeDef {
    Primitive(Primitive),
    Composite(Vec<Field>),
    Sequence(u32),
    Array(u32, u32),
    Tuple(Vec<u32>),
    Compact(u32),
    /// An enumeration; carried but not decoded.
    Variant,
    /// A bit sequence; carried but not decoded.
    BitSequence,
}

/// A registry entry: its declared path (possibly empty) and its shape.
#[derive(Clone, Debug)]
pub struct Type {
    pub path: Vec<String>,
    pub def: TypeDef,
}

/// An immutable type registry. The identifier of an entry is its position.
#[derive(Clone, Debug)]
pub struct Registry {
    pub types: Vec<Type>,
}

impl Registry {
    /// True when `id` names an entry.
    pub open spec fn has(&self, id: u32) -> bool {
        (id as int) < self.types@.len()
    }

    /// The entry at `id`, when present.
    pub open spec fn entry(&self, id: u32) -> Type
        recommends
            self.has(id),
    {
        self.types@[id as int]
    }

    pub fn new(types: Vec<Type>) -> (r: Registry)
        ensures
            r.types@ == types@,
    {
        Registry { types }
    }

    pub fn len(&self) -> (r: usize)
        ensures
            r == self.types@.len(),
    {
        self.types.len()
    }

    /// Looks up an entry; fails with `UnknownTypeId` when `id` is absent.
    pub fn resolve(&self, id: u32) -> (r: Result<&Type, DecodeError>)
        ensures
            self.has(id) ==> r == Ok::<&Type, DecodeError>(&self.types@[id as int]),
            !self.has(id) ==> r == Err::<&Type, DecodeError>(DecodeError::UnknownTypeId),
    {
        if (id as usize) < self.types.len() {
            Ok(&self.types[id as usize])
        } else {
            Err(DecodeError::UnknownTypeId)
        }
    }
}

/// The ids of a composite's fields, in declared order.
pub open spec fn field_ids(fields: Seq<Field>) -> Seq<u32> {
    Seq::new(fields.len(), |i: int| fields[i].ty)
}

/// Collects the type ids of `fields` in order.
pub fn collect_field_ids(fields: &Vec<Field>) -> (r: Vec<u32>)
    ensures
        r@ == field_ids(fields@),
{
    let mut out: Vec<u32> = Vec::new();
    let mut i: usize = 0;
    while i < fields.len()
        invariant
            i <= fields@.len(),
            out@ == field_ids(fields@).subrange(0, i as int),
        decreases fields@.len() - i,
    {
        out.push(fields[i].ty);
        i += 1;
        assert(out@ =~= field_ids(fields@).subrange(0, i as int));
    }
    assert(out@ =~= field_ids(fields@));
    out
}

} // verus!
