//! The structural decoder: walks a registry type against a byte buffer.
use vstd::prelude::*;
use vstd::utf8::{decode_utf8, valid_utf8};
use crate::compact::{compact_decoding, decode_compact, le_value, pow256, read_le, lemma_pow256_16};
use crate::error::DecodeError;
use crate::registry::{Primitive, Registry, TypeDef, collect_field_ids, field_ids};
use crate::render::MAX_DEPTH;
use crate::resolver::{TypeIndex, lookup_in};
use crate::value::{DecodedValue, ValueModel, lemma_models_push, model, models};

verus! {

/// The byte width of a fixed-width integer kind, zero for the others.
pub open spec fn int_width(k: Primitive) -> nat {
    match k {
        Primitive::U8 | Primitive::I8 => 1,
        Primitive::U16 | Primitive::I16 => 2,
        Primitive::U32 | Primitive::I32 => 4,
        Primitive::U64 | Primitive::I64 => 8,
        Primitive::U128 | Primitive::I128 => 16,
        _ => 0,
    }
}

/// True for the signed fixed-width integer kinds up to 128 bits.
pub open spec fn is_signed(k: Primitive) -> bool {
    matches!(k, Primitive::I8 | Primitive::I16 | Primitive::I32 | Primitive::I64 | Primitive::I128)
}

/// The two's complement reading of the `w`-byte unsigned value `u`.
pub open spec fn signed_of(u: nat, w: nat) -> int {
    if u >= pow256(w) / 2 {
        u - pow256(w)
    } else {
        u as int
    }
}

/// Text framed by a compact byte count; `char` and `str` are read alike.
pub open spec fn decoded_text(b: Seq<u8>) -> Result<(Seq<char>, nat), DecodeError> {
    match compact_decoding(b) {
        Err(e) => Err(e),
        Ok((len, m)) => {
            let end = m + len as nat;
            if b.len() < end {
                Err(DecodeError::BufferUnderrun)
            } else if !valid_utf8(b.subrange(m as int, end as int)) {
                Err(DecodeError::InvalidUtf8)
            } else {
                Ok((decode_utf8(b.subrange(m as int, end as int)), end))
            }
        },
    }
}

/// What decoding a primitive of kind `k` at the start of `b` gives.
pub open spec fn decoded_primitive(k: Primitive, b: Seq<u8>) -> Result<(ValueModel, nat), DecodeError> {
    match k {
        Primitive::Bool => if b.len() < 1 {
            Err(DecodeError::BufferUnderrun)
        } else if b[0] > 1 {
            Err(DecodeError::InvalidBooleanEncoding)
        } else {
            Ok((ValueModel::Bool(b[0] == 1), 1nat))
        },
        Primitive::Char => match decoded_text(b) {
            Err(e) => Err(e),
            Ok((t, n)) => Ok((ValueModel::Char(t), n)),
        },
        Primitive::Str => match decoded_text(b) {
            Err(e) => Err(e),
            Ok((t, n)) => Ok((ValueModel::Str(t), n)),
        },
        Primitive::U256 | Primitive::I256 => if b.len() < 32 {
            Err(DecodeError::BufferUnderrun)
        } else {
            Ok((ValueModel::Wide(b.take(32)), 32nat))
        },
        _ => {
            let w = int_width(k);
            if b.len() < w {
                Err(DecodeError::BufferUnderrun)
            } else if is_signed(k) {
                Ok((ValueModel::Signed(signed_of(le_value(b.take(w as int)), w) as i128), w))
            } else {
                Ok((ValueModel::Unsigned(le_value(b.take(w as int)) as u128), w))
            }
        },
    }
}

/// Relies on `String::from_utf8`: it accepts exactly the valid UTF-8 byte
/// strings, and the text holds the characters they encode.
#[verifier::external_body]
fn string_from_utf8(bytes: Vec<u8>) -> (r: Option<String>)
    ensures
        r is Some <==> valid_utf8(bytes@),
        r matches Some(s) ==> s@ == decode_utf8(bytes@),
{
    String::from_utf8(bytes).ok()
}

/// Copies `data[start..end]`.
fn copy_range(data: &[u8], start: usize, end: usize) -> (r: Vec<u8>)
    requires
        start <= end <= data@.len(),
    ensures
        r@ == data@.subrange(start as int, end as int),
{
    let mut out: Vec<u8> = Vec::new();
    let mut i: usize = start;
    while i < end
        invariant
            start <= i <= end <= data@.len(),
            out@ == data@.subrange(start as int, i as int),
        decreases end - i,
    {
        out.push(data[i]);
        i += 1;
        assert(out@ =~= data@.subrange(start as int, i as int));
    }
    out
}

/// Reads compact-framed UTF-8 text at `pos`.
fn decode_text(data: &[u8], pos: usize) -> (r: Result<(String, usize), DecodeError>)
    requires
        pos <= data@.len(),
    ensures
        match r {
            Ok((s, p)) => pos <= p <= data@.len() && decoded_text(data@.skip(pos as int)) == Ok::<
                (Seq<char>, nat),
                DecodeError,
            >((s@, (p - pos) as nat)),
            Err(e) => decoded_text(data@.skip(pos as int)) == Err::<(Seq<char>, nat), DecodeError>(e),
        },
{
    let ghost b = data@.skip(pos as int);
    let (len, start) = decode_compact(data, pos)?;
    if ((data.len() - start) as u128) < len {
        return Err(DecodeError::BufferUnderrun);
    }
    let end = start + len as usize;
    let bytes = copy_range(data, start, end);
    assert(bytes@ =~= b.subrange((start - pos) as int, (start - pos) + len as nat));
    match string_from_utf8(bytes) {
        Some(s) => Ok((s, end)),
        None => Err(DecodeError::InvalidUtf8),
    }
}

/// Half the range and the largest value of a `w`-byte integer.
fn int_bounds(w: usize) -> (r: (u128, u128))
    requires
        w == 1 || w == 2 || w == 4 || w == 8 || w == 16,
    ensures
        r.0 == pow256(w as nat) / 2,
        r.1 == pow256(w as nat) - 1,
{
    reveal_with_fuel(pow256, 17);
    if w == 1 {
        (0x80, 0xff)
    } else if w == 2 {
        (0x8000, 0xffff)
    } else if w == 4 {
        (0x8000_0000, 0xffff_ffff)
    } else if w == 8 {
        (0x8000_0000_0000_0000, 0xffff_ffff_ffff_ffff)
    } else {
        (0x8000_0000_0000_0000_0000_0000_0000_0000, 0xffff_ffff_ffff_ffff_ffff_ffff_ffff_ffff)
    }
}

/// Decodes a primitive of kind `k` at `pos`.
fn decode_primitive(k: Primitive, data: &[u8], pos: usize) -> (r: Result<(DecodedValue, usize), DecodeError>)
    requires
        pos <= data@.len(),
    ensures
        step_matches(r, pos, data@.len(), decoded_primitive(k, data@.skip(pos as int))),
{
    let ghost b = data@.skip(pos as int);
    let avail = data.len() - pos;
    match k {
        Primitive::Bool => {
            if avail < 1 {
                return Err(DecodeError::BufferUnderrun);
            }
            let x = data[pos];
            if x > 1 {
                Err(DecodeError::InvalidBooleanEncoding)
            } else {
                Ok((DecodedValue::Bool(x == 1), pos + 1))
            }
        },
        Primitive::Char => {
            let (s, p) = decode_text(data, pos)?;
            Ok((DecodedValue::Char(s), p))
        },
        Primitive::Str => {
            let (s, p) = decode_text(data, pos)?;
            Ok((DecodedValue::Str(s), p))
        },
        Primitive::U256 | Primitive::I256 => {
            if avail < 32 {
                return Err(DecodeError::BufferUnderrun);
            }
            let bytes = copy_range(data, pos, pos + 32);
            assert(bytes@ =~= b.take(32));
            Ok((DecodedValue::Wide(bytes), pos + 32))
        },
        _ => {
            let w: usize = match k {
                Primitive::U8 | Primitive::I8 => 1,
                Primitive::U16 | Primitive::I16 => 2,
                Primitive::U32 | Primitive::I32 => 4,
                Primitive::U64 | Primitive::I64 => 8,
                _ => 16,
            };
            if avail < w {
                return Err(DecodeError::BufferUnderrun);
            }
            let u = read_le(data, pos, w);
            assert(data@.subrange(pos as int, pos + w) =~= b.take(w as int));
            let signed = match k {
                Primitive::I8 | Primitive::I16 | Primitive::I32 | Primitive::I64 | Primitive::I128 => true,
                _ => false,
            };
            if signed {
                let (half, max) = int_bounds(w);
                proof {
                    crate::compact::lemma_le_value_bound(b.take(w as int));
                }
                let v: i128 = if u >= half {
                    -((max - u) as i128) - 1
                } else {
                    u as i128
                };
                Ok((DecodedValue::Signed(v), pos + w))
            } else {
                Ok((DecodedValue::Unsigned(u), pos + w))
            }
        },
    }
}

/// True when an executable decoding result, begun at `pos` in a buffer of
/// `len` bytes, agrees with the outcome `s`.
pub open spec fn step_matches(
    r: Result<(DecodedValue, usize), DecodeError>,
    pos: usize,
    len: nat,
    s: Result<(ValueModel, nat), DecodeError>,
) -> bool {
    match r {
        Ok((v, p)) => pos <= p <= len && s == Ok::<(ValueModel, nat), DecodeError>(
            (model(v), (p - pos) as nat),
        ),
        Err(e) => s == Err::<(ValueModel, nat), DecodeError>(e),
    }
}

/// `n` copies of the type id `e`.
pub open spec fn repeated(e: u32, n: nat) -> Seq<u32> {
    Seq::new(n, |_i: int| e)
}

/// Puts already decoded values and their byte count in front of an outcome.
pub open spec fn prepend(
    vs: Seq<ValueModel>,
    n: nat,
    r: Result<(Seq<ValueModel>, nat), DecodeError>,
) -> Result<(Seq<ValueModel>, nat), DecodeError> {
    match r {
        Ok((ws, m)) => Ok((vs + ws, n + m)),
        Err(e) => Err(e),
    }
}

/// What decoding the entry `id` at the start of `b` gives, with `fuel` levels
/// of nesting left: the value and the bytes taken, or the failure.
pub open spec fn decoded(reg: Registry, id: u32, b: Seq<u8>, fuel: nat) -> Result<(ValueModel, nat), DecodeError>
    decreases fuel, 0nat, 0nat,
{
    if !reg.has(id) {
        Err(DecodeError::UnknownTypeId)
    } else if fuel == 0 {
        Err(DecodeError::TypeTooDeep)
    } else {
        decoded_def(reg, reg.entry(id).def, b, (fuel - 1) as nat)
    }
}

/// What decoding a type of shape `def` at the start of `b` gives.
pub open spec fn decoded_def(reg: Registry, def: TypeDef, b: Seq<u8>, fuel: nat) -> Result<(ValueModel, nat), DecodeError>
    decreases fuel, 2nat, 0nat,
{
    match def {
        TypeDef::Primitive(k) => decoded_primitive(k, b),
        TypeDef::Composite(fields) => match decoded_list(reg, field_ids(fields@), b, fuel) {
            Ok((vs, n)) => Ok((ValueModel::Composite(vs), n)),
            Err(e) => Err(e),
        },
        TypeDef::Tuple(ids) => match decoded_list(reg, ids@, b, fuel) {
            Ok((vs, n)) => Ok((ValueModel::Tuple(vs), n)),
            Err(e) => Err(e),
        },
        TypeDef::Array(e, len) => match decoded_list(reg, repeated(e, len as nat), b, fuel) {
            Ok((vs, n)) => Ok((ValueModel::Array(vs), n)),
            Err(x) => Err(x),
        },
        TypeDef::Sequence(e) => match compact_decoding(b) {
            Err(x) => Err(x),
            Ok((k, m)) => match decoded_list(reg, repeated(e, k as nat), b.skip(m as int), fuel) {
                Ok((vs, n)) => Ok((ValueModel::Sequence(vs), m + n)),
                Err(x) => Err(x),
            },
        },
        TypeDef::Compact(e) => if !reg.has(e) {
            Err(DecodeError::UnknownTypeId)
        } else {
            match compact_decoding(b) {
                Ok((v, m)) => Ok((ValueModel::Compact(v), m)),
                Err(x) => Err(x),
            }
        },
        _ => Err(DecodeError::UnsupportedType),
    }
}

/// Decodes the types `ids` back to back from the start of `b`.
pub open spec fn decoded_list(reg: Registry, ids: Seq<u32>, b: Seq<u8>, fuel: nat) -> Result<(Seq<ValueModel>, nat), DecodeError>
    decreases fuel, 1nat, ids.len(),
{
    if ids.len() == 0 {
        Ok((seq![], 0nat))
    } else {
        match decoded(reg, ids[0], b, fuel) {
            Err(e) => Err(e),
            Ok((v, n)) => prepend(seq![v], n, decoded_list(reg, ids.drop_first(), b.skip(n as int), fuel)),
        }
    }
}

/// Decoding a list whose first element decoded to `v` over `n` bytes.
proof fn lemma_list_step(reg: Registry, ids: Seq<u32>, b: Seq<u8>, fuel: nat, i: int, pos: int, n: nat)
    requires
        0 <= i < ids.len(),
        0 <= pos,
        pos + n <= b.len(),
        decoded(reg, ids[i], b.skip(pos), fuel) is Ok,
        decoded(reg, ids[i], b.skip(pos), fuel)->Ok_0.1 == n,
    ensures
        decoded_list(reg, ids.skip(i), b.skip(pos), fuel) == prepend(
            seq![decoded(reg, ids[i], b.skip(pos), fuel)->Ok_0.0],
            n,
            decoded_list(reg, ids.skip(i + 1), b.skip(pos + n), fuel),
        ),
{
    assert(ids.skip(i).drop_first() =~= ids.skip(i + 1));
    assert(b.skip(pos).skip(n as int) =~= b.skip(pos + n));
    assert(ids.skip(i)[0] == ids[i]);
}

/// Decodes the entry `id` at `pos` with `fuel` levels of nesting left.
fn decode_id(registry: &Registry, id: u32, data: &[u8], pos: usize, fuel: u32) -> (r: Result<(DecodedValue, usize), DecodeError>)
    requires
        pos <= data@.len(),
    ensures
        step_matches(r, pos, data@.len(), decoded(*registry, id, data@.skip(pos as int), fuel as nat)),
    decreases fuel, 0nat,
{
    let ty = registry.resolve(id)?;
    if fuel == 0 {
        return Err(DecodeError::TypeTooDeep);
    }
    decode_def(registry, &ty.def, data, pos, fuel - 1)
}

/// Decodes the types `ids` back to back from `pos`.
fn decode_each(registry: &Registry, ids: &Vec<u32>, data: &[u8], pos: usize, fuel: u32) -> (r: Result<(Vec<DecodedValue>, usize), DecodeError>)
    requires
        pos <= data@.len(),
    ensures
        match r {
            Ok((vs, p)) => pos <= p <= data@.len() && decoded_list(*registry, ids@, data@.skip(pos as int), fuel as nat)
                == Ok::<(Seq<ValueModel>, nat), DecodeError>((models(vs@), (p - pos) as nat)),
            Err(e) => decoded_list(*registry, ids@, data@.skip(pos as int), fuel as nat) == Err::<(Seq<ValueModel>, nat), DecodeError>(e),
        },
    decreases fuel, 1nat,
{
    let ghost b = data@;
    let ghost whole = decoded_list(*registry, ids@, data@.skip(pos as int), fuel as nat);
    let mut out: Vec<DecodedValue> = Vec::new();
    let mut cur: usize = pos;
    let mut i: usize = 0;
    proof {
        assert(ids@.skip(0) =~= ids@);
        assert(models(out@) =~= seq![]);
        assert(seq![] + (Seq::<ValueModel>::empty()) =~= Seq::<ValueModel>::empty());
        match decoded_list(*registry, ids@, data@.skip(pos as int), fuel as nat) {
            Ok((ws, m)) => { assert(Seq::<ValueModel>::empty() + ws =~= ws); },
            Err(_) => {},
        }
    }
    while i < ids.len()
        invariant
            i <= ids@.len(),
            pos <= cur <= data@.len(),
            b == data@,
            whole == decoded_list(*registry, ids@, data@.skip(pos as int), fuel as nat),
            whole == prepend(models(out@), (cur - pos) as nat, decoded_list(*registry, ids@.skip(i as int), data@.skip(cur as int), fuel as nat)),
        decreases ids@.len() - i,
    {
        let r = decode_id(registry, ids[i], data, cur, fuel);
        match r {
            Err(e) => {
                proof {
                    assert(ids@.skip(i as int)[0] == ids@[i as int]);
                }
                return Err(e);
            },
            Ok((v, p)) => {
                proof {
                    lemma_list_step(*registry, ids@, data@, fuel as nat, i as int, cur as int, (p - cur) as nat);
                    lemma_models_push(out@, v);
                    let rest = decoded_list(*registry, ids@.skip(i + 1), data@.skip(p as int), fuel as nat);
                    match rest {
                        Ok((ws, m)) => {
                            assert(models(out@) + (seq![model(v)] + ws) =~= models(out@).push(model(v)) + ws);
                        },
                        Err(_) => {},
                    }
                }
                out.push(v);
                cur = p;
            },
        }
        i += 1;
    }
    proof {
        assert(ids@.skip(i as int) =~= Seq::<u32>::empty());
        assert(models(out@) + Seq::<ValueModel>::empty() =~= models(out@));
    }
    Ok((out, cur))
}

/// Decodes `count` values of the type `e` back to back from `pos`.
fn decode_repeat(registry: &Registry, e: u32, count: u128, data: &[u8], pos: usize, fuel: u32) -> (r: Result<(Vec<DecodedValue>, usize), DecodeError>)
    requires
        pos <= data@.len(),
    ensures
        match r {
            Ok((vs, p)) => pos <= p <= data@.len() && decoded_list(*registry, repeated(e, count as nat), data@.skip(pos as int), fuel as nat)
                == Ok::<(Seq<ValueModel>, nat), DecodeError>((models(vs@), (p - pos) as nat)),
            Err(x) => decoded_list(*registry, repeated(e, count as nat), data@.skip(pos as int), fuel as nat) == Err::<(Seq<ValueModel>, nat), DecodeError>(x),
        },
    decreases fuel, 1nat,
{
    let ghost ids = repeated(e, count as nat);
    let ghost whole = decoded_list(*registry, ids, data@.skip(pos as int), fuel as nat);
    let mut out: Vec<DecodedValue> = Vec::new();
    let mut cur: usize = pos;
    let mut i: u128 = 0;
    proof {
        assert(ids.skip(0) =~= ids);
        assert(models(out@) =~= seq![]);
        match whole {
            Ok((ws, m)) => { assert(Seq::<ValueModel>::empty() + ws =~= ws); },
            Err(_) => {},
        }
    }
    while i < count
        invariant
            i <= count,
            ids == repeated(e, count as nat),
            pos <= cur <= data@.len(),
            whole == decoded_list(*registry, ids, data@.skip(pos as int), fuel as nat),
            whole == prepend(models(out@), (cur - pos) as nat, decoded_list(*registry, ids.skip(i as int), data@.skip(cur as int), fuel as nat)),
        decreases count - i,
    {
        let r = decode_id(registry, e, data, cur, fuel);
        match r {
            Err(x) => {
                proof {
                    assert(ids.skip(i as int)[0] == e);
                }
                return Err(x);
            },
            Ok((v, p)) => {
                proof {
                    assert(ids[i as int] == e);
                    lemma_list_step(*registry, ids, data@, fuel as nat, i as int, cur as int, (p - cur) as nat);
                    lemma_models_push(out@, v);
                    let rest = decoded_list(*registry, ids.skip(i + 1), data@.skip(p as int), fuel as nat);
                    match rest {
                        Ok((ws, m)) => {
                            assert(models(out@) + (seq![model(v)] + ws) =~= models(out@).push(model(v)) + ws);
                        },
                        Err(_) => {},
                    }
                }
                out.push(v);
                cur = p;
            },
        }
        i += 1;
    }
    proof {
        assert(ids.skip(i as int) =~= Seq::<u32>::empty());
        assert(models(out@) + Seq::<ValueModel>::empty() =~= models(out@));
    }
    Ok((out, cur))
}

/// Decodes a type of shape `def` at `pos`; its children may nest `fuel`
/// levels.
fn decode_def(registry: &Registry, def: &TypeDef, data: &[u8], pos: usize, fuel: u32) -> (r: Result<(DecodedValue, usize), DecodeError>)
    requires
        pos <= data@.len(),
    ensures
        step_matches(r, pos, data@.len(), decoded_def(*registry, *def, data@.skip(pos as int), fuel as nat)),
    decreases fuel, 2nat,
{
    match def {
        TypeDef::Primitive(k) => decode_primitive(*k, data, pos),
        TypeDef::Composite(fields) => {
            let ids = collect_field_ids(fields);
            let (vs, p) = decode_each(registry, &ids, data, pos, fuel)?;
            Ok((DecodedValue::Composite(vs), p))
        },
        TypeDef::Tuple(ids) => {
            let (vs, p) = decode_each(registry, ids, data, pos, fuel)?;
            Ok((DecodedValue::Tuple(vs), p))
        },
        TypeDef::Array(e, len) => {
            let (vs, p) = decode_repeat(registry, *e, *len as u128, data, pos, fuel)?;
            Ok((DecodedValue::Array(vs), p))
        },
        TypeDef::Sequence(e) => {
            let (k, start) = decode_compact(data, pos)?;
            assert(data@.skip(pos as int).skip((start - pos) as int) =~= data@.skip(start as int));
            let (vs, p) = decode_repeat(registry, *e, k, data, start, fuel)?;
            Ok((DecodedValue::Sequence(vs), p))
        },
        TypeDef::Compact(e) => {
            registry.resolve(*e)?;
            let (v, p) = decode_compact(data, pos)?;
            Ok((DecodedValue::Compact(v), p))
        },
        _ => Err(DecodeError::UnsupportedType),
    }
}

/// Decodes the registry entry `id` from `data` at `*cursor`. On success the
/// cursor moves past exactly the bytes taken; on failure it stays put and no
/// value is returned.
pub fn decode(registry: &Registry, id: u32, data: &[u8], cursor: &mut usize) -> (r: Result<DecodedValue, DecodeError>)
    requires
        *old(cursor) <= data@.len(),
    ensures
        match r {
            Ok(v) => *old(cursor) <= *final(cursor) <= data@.len()
                && decoded(*registry, id, data@.skip(*old(cursor) as int), MAX_DEPTH as nat)
                == Ok::<(ValueModel, nat), DecodeError>((model(v), (*final(cursor) - *old(cursor)) as nat)),
            Err(e) => *final(cursor) == *old(cursor)
                && decoded(*registry, id, data@.skip(*old(cursor) as int), MAX_DEPTH as nat)
                == Err::<(ValueModel, nat), DecodeError>(e),
        },
{
    let (v, p) = decode_id(registry, id, data, *cursor, MAX_DEPTH)?;
    *cursor = p;
    Ok(v)
}

/// Resolves `type_string` through `index` and decodes that type from `data`
/// at `*cursor`. `None` when the index does not know the string: the cursor
/// then stays put.
pub fn decode_by_type_string(
    registry: &Registry,
    index: &TypeIndex,
    type_string: &str,
    data: &[u8],
    cursor: &mut usize,
) -> (r: Option<Result<DecodedValue, DecodeError>>)
    requires
        *old(cursor) <= data@.len(),
    ensures
        match lookup_in(index@, type_string@) {
            None => r is None && *final(cursor) == *old(cursor),
            Some(id) => match r {
                Some(Ok(v)) => *old(cursor) <= *final(cursor) <= data@.len()
                    && decoded(*registry, id, data@.skip(*old(cursor) as int), MAX_DEPTH as nat)
                    == Ok::<(ValueModel, nat), DecodeError>((model(v), (*final(cursor) - *old(cursor)) as nat)),
                Some(Err(e)) => *final(cursor) == *old(cursor)
                    && decoded(*registry, id, data@.skip(*old(cursor) as int), MAX_DEPTH as nat)
                    == Err::<(ValueModel, nat), DecodeError>(e),
                None => false,
            },
        },
{
    match index.lookup(type_string) {
        None => None,
        Some(id) => Some(decode(registry, id, data, cursor)),
    }
}

} // verus!
