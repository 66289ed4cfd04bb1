//! Decoded value trees and their mathematical model.
use vstd::prelude::*;

verus! {

/// A decoded value; its shape mirrors the type it was decoded as.
#[derive(Debug, PartialEq, Eq)]
pub enum DecodedValue {
    Bool(bool),
    Char(String),
    Str(String),
    /// `u8` to `u128`.
    Unsigned(u128),
    /// `i8` to `i128`.
    Signed(i128),
    /// `u256` or `i256`: the 32 little-endian bytes.
    Wide(Vec<u8>),
    Compact(u128),
    Composite(Vec<DecodedValue>),
    Tuple(Vec<DecodedValue>),
    Array(Vec<DecodedValue>),
    Sequence(Vec<DecodedValue>),
}

/// The mathematical counterpart of [`DecodedValue`].
pub enum ValueModel {
    Bool(bool),
    Char(Seq<char>),
    Str(Seq<char>),
    Unsigned(u128),
    Signed(i128),
    Wide(Seq<u8>),
    Compact(u128),
    Composite(Seq<ValueModel>),
    Tuple(Seq<ValueModel>),
    Array(Seq<ValueModel>),
    Sequence(Seq<ValueModel>),
}

/// The model of a decoded value.
pub open spec fn model(v: DecodedValue) -> ValueModel
    decreases v,
{
    match v {
        DecodedValue::Bool(b) => ValueModel::Bool(b),
        DecodedValue::Char(s) => ValueModel::Char(s@),
        DecodedValue::Str(s) => ValueModel::Str(s@),
        DecodedValue::Unsigned(u) => ValueModel::Unsigned(u),
        DecodedValue::Signed(i) => ValueModel::Signed(i),
        DecodedValue::Wide(b) => ValueModel::Wide(b@),
        DecodedValue::Compact(u) => ValueModel::Compact(u),
        DecodedValue::Composite(vs) => ValueModel::Composite(models(vs@)),
        DecodedValue::Tuple(vs) => ValueModel::Tuple(models(vs@)),
        DecodedValue::Array(vs) => ValueModel::Array(models(vs@)),
        DecodedValue::Sequence(vs) => ValueModel::Sequence(models(vs@)),
    }
}

/// The models of a list of decoded values, in order.
pub open spec fn models(s: Seq<DecodedValue>) -> Seq<ValueModel>
    decreases s,
{
    if s.len() == 0 {
        seq![]
    } else {
        models(s.drop_last()).push(model(s.last()))
    }
}

pub proof fn lemma_models_push(s: Seq<DecodedValue>, v: DecodedValue)
    ensures
        models(s.push(v)) == models(s).push(model(v)),
        models(s).len() == s.len(),
    decreases s.len(),
{
    assert(s.push(v).drop_last() =~= s);
    if s.len() > 0 {
        lemma_models_push(s.drop_last(), s.last());
    }
}

} // verus!
