//! Canonical type strings for registry entries.
use vstd::prelude::*;
use crate::error::DecodeError;
use crate::registry::{Primitive, Registry, Type, TypeDef};

verus! {

/// How deep rendering and decoding may nest before giving up.
pub const MAX_DEPTH: u32 = 64;

/// The view of a string-valued result.
pub open spec fn text_result(r: Result<String, DecodeError>) -> Result<Seq<char>, DecodeError> {
    match r {
        Ok(s) => Ok(s@),
        Err(e) => Err(e),
    }
}

/// The lowercase name of a primitive kind.
pub open spec fn primitive_name(k: Primitive) -> Seq<char> {
    match k {
        Primitive::Bool => "bool"@,
        Primitive::Char => "char"@,
        Primitive::Str => "str"@,
        Primitive::U8 => "u8"@,
        Primitive::U16 => "u16"@,
        Primitive::U32 => "u32"@,
        Primitive::U64 => "u64"@,
        Primitive::U128 => "u128"@,
        Primitive::U256 => "u256"@,
        Primitive::I8 => "i8"@,
        Primitive::I16 => "i16"@,
        Primitive::I32 => "i32"@,
        Primitive::I64 => "i64"@,
        Primitive::I128 => "i128"@,
        Primitive::I256 => "i256"@,
    }
}

/// One decimal digit.
pub open spec fn digit(d: nat) -> Seq<char> {
    if d == 0 {
        "0"@
    } else if d == 1 {
        "1"@
    } else if d == 2 {
        "2"@
    } else if d == 3 {
        "3"@
    } else if d == 4 {
        "4"@
    } else if d == 5 {
        "5"@
    } else if d == 6 {
        "6"@
    } else if d == 7 {
        "7"@
    } else if d == 8 {
        "8"@
    } else {
        "9"@
    }
}

/// The decimal numeral of `n`.
pub open spec fn decimal(n: nat) -> Seq<char>
    decreases n,
{
    if n < 10 {
        digit(n)
    } else {
        decimal(n / 10) + digit(n % 10)
    }
}

/// The canonical string of the entry `id`, with `fuel` levels of nesting left.
pub open spec fn rendered(reg: Registry, id: u32, fuel: nat) -> Result<Seq<char>, DecodeError>
    decreases fuel, 0nat, 0nat,
{
    if !reg.has(id) {
        Err(DecodeError::UnknownTypeId)
    } else if fuel == 0 {
        Err(DecodeError::TypeTooDeep)
    } else {
        rendered_type(reg, reg.entry(id), (fuel - 1) as nat)
    }
}

/// The canonical string of a type node whose children may nest `fuel` deep.
pub open spec fn rendered_type(reg: Registry, ty: Type, fuel: nat) -> Result<Seq<char>, DecodeError>
    decreases fuel, 2nat, 0nat,
{
    if ty.path@.len() > 0 {
        Ok(ty.path@.last()@)
    } else {
        match ty.def {
            TypeDef::Primitive(k) => Ok(primitive_name(k)),
            TypeDef::Array(e, n) => match rendered(reg, e, fuel) {
                Ok(s) => Ok("["@ + s + "; "@ + decimal(n as nat) + "]"@),
                Err(x) => Err(x),
            },
            TypeDef::Compact(e) => match rendered(reg, e, fuel) {
                Ok(s) => Ok("Compact<"@ + s + ">"@),
                Err(x) => Err(x),
            },
            TypeDef::Sequence(e) => match rendered(reg, e, fuel) {
                Ok(s) => Ok("Vec<"@ + s + ">"@),
                Err(x) => Err(x),
            },
            TypeDef::Tuple(ids) => match rendered_list(reg, ids@, fuel) {
                Ok(s) => Ok("("@ + s + ")"@),
                Err(x) => Err(x),
            },
            _ => Ok("Unknown"@),
        }
    }
}

/// The strings of `ids` joined by `", "`; the first failure, left to right.
pub open spec fn rendered_list(reg: Registry, ids: Seq<u32>, fuel: nat) -> Result<
    Seq<char>,
    DecodeError,
>
    decreases fuel, 1nat, ids.len(),
{
    if ids.len() == 0 {
        Ok(seq![])
    } else {
        match rendered_list(reg, ids.drop_last(), fuel) {
            Err(x) => Err(x),
            Ok(p) => match rendered(reg, ids.last(), fuel) {
                Err(x) => Err(x),
                Ok(s) => Ok(
                    if ids.len() == 1 {
                        s
                    } else {
                        p + ", "@ + s
                    },
                ),
            },
        }
    }
}

proof fn lemma_rendered_list_err(reg: Registry, ids: Seq<u32>, fuel: nat, i: int)
    requires
        0 <= i <= ids.len(),
        rendered_list(reg, ids.take(i), fuel) is Err,
    ensures
        rendered_list(reg, ids, fuel) == rendered_list(reg, ids.take(i), fuel),
    decreases ids.len() - i,
{
    if i == ids.len() {
        assert(ids.take(i) =~= ids);
    } else {
        assert(ids.take(i + 1).drop_last() =~= ids.take(i));
        lemma_rendered_list_err(reg, ids, fuel, i + 1);
    }
}

/// The lowercase name of a primitive kind.
pub fn primitive_to_type_string(primitive: &Primitive) -> (r: String)
    ensures
        r@ == primitive_name(*primitive),
{
    let s = match primitive {
        Primitive::Bool => "bool",
        Primitive::Char => "char",
        Primitive::Str => "str",
        Primitive::U8 => "u8",
        Primitive::U16 => "u16",
        Primitive::U32 => "u32",
        Primitive::U64 => "u64",
        Primitive::U128 => "u128",
        Primitive::U256 => "u256",
        Primitive::I8 => "i8",
        Primitive::I16 => "i16",
        Primitive::I32 => "i32",
        Primitive::I64 => "i64",
        Primitive::I128 => "i128",
        Primitive::I256 => "i256",
    };
    String::from_str(s)
}

fn digit_str(d: u32) -> (r: &'static str)
    requires
        d < 10,
    ensures
        r@ == digit(d as nat),
{
    if d == 0 {
        "0"
    } else if d == 1 {
        "1"
    } else if d == 2 {
        "2"
    } else if d == 3 {
        "3"
    } else if d == 4 {
        "4"
    } else if d == 5 {
        "5"
    } else if d == 6 {
        "6"
    } else if d == 7 {
        "7"
    } else if d == 8 {
        "8"
    } else {
        "9"
    }
}

/// Appends the decimal numeral of `n`.
fn append_decimal(out: &mut String, n: u32)
    ensures
        final(out)@ == old(out)@ + decimal(n as nat),
    decreases n,
{
    if n >= 10 {
        append_decimal(out, n / 10);
    }
    out.append(digit_str(n % 10));
    assert(final(out)@ =~= old(out)@ + decimal(n as nat));
}

/// Renders the entry `id` with `fuel` levels of nesting left.
fn render_id(registry: &Registry, id: u32, fuel: u32) -> (r: Result<String, DecodeError>)
    ensures
        text_result(r) == rendered(*registry, id, fuel as nat),
    decreases fuel, 0nat,
{
    let ty = registry.resolve(id)?;
    if fuel == 0 {
        return Err(DecodeError::TypeTooDeep);
    }
    transform_type_to_string(ty, registry, fuel - 1)
}

/// Renders a type node as its canonical string: the last path segment for a
/// named type, else a form built from its shape; children may nest `depth`
/// levels.
pub fn transform_type_to_string(ty: &Type, registry: &Registry, depth: u32) -> (r: Result<
    String,
    DecodeError,
>)
    ensures
        text_result(r) == rendered_type(*registry, *ty, depth as nat),
    decreases depth, 1nat,
{
    if ty.path.len() > 0 {
        let last = ty.path[ty.path.len() - 1].clone();
        return Ok(last);
    }
    match &ty.def {
        TypeDef::Primitive(k) => Ok(primitive_to_type_string(k)),
        TypeDef::Array(e, n) => {
            let inner = render_id(registry, *e, depth)?;
            let mut s = String::from_str("[");
            s.append(inner.as_str());
            s.append("; ");
            append_decimal(&mut s, *n);
            s.append("]");
            Ok(s)
        },
        TypeDef::Compact(e) => {
            let inner = render_id(registry, *e, depth)?;
            let mut s = String::from_str("Compact<");
            s.append(inner.as_str());
            s.append(">");
            Ok(s)
        },
        TypeDef::Sequence(e) => {
            let inner = render_id(registry, *e, depth)?;
            let mut s = String::from_str("Vec<");
            s.append(inner.as_str());
            s.append(">");
            Ok(s)
        },
        TypeDef::Tuple(ids) => {
            let mut acc = String::new();
            let mut i: usize = 0;
            assert(ids@.take(0) =~= seq![]);
            while i < ids.len()
                invariant
                    i <= ids@.len(),
                    ty.path@.len() == 0,
                    ty.def == TypeDef::Tuple(*ids),
                    rendered_list(*registry, ids@.take(i as int), depth as nat) == Ok::<
                        Seq<char>,
                        DecodeError,
                    >(acc@),
                decreases ids@.len() - i,
            {
                assert(ids@.take(i + 1).drop_last() =~= ids@.take(i as int));
                assert(ids@.take(i + 1).last() == ids@[i as int]);
                let elem = render_id(registry, ids[i], depth);
                match elem {
                    Err(e) => {
                        proof {
                            assert(ids@.take(i + 1).last() == ids@[i as int]);
                            assert(rendered_list(*registry, ids@.take(i + 1), depth as nat)
                                == Err::<Seq<char>, DecodeError>(e));
                            lemma_rendered_list_err(*registry, ids@, depth as nat, i + 1);
                        }
                        return Err(e);
                    },
                    Ok(s) => {
                        if i > 0 {
                            acc.append(", ");
                        }
                        acc.append(s.as_str());
                    },
                }
                i += 1;
            }
            assert(ids@.take(i as int) =~= ids@);
            let mut s = String::from_str("(");
            s.append(acc.as_str());
            s.append(")");
            Ok(s)
        },
        _ => Ok(String::from_str("Unknown")),
    }
}

/// Renders the registry entry `id` as its canonical string.
pub fn render(registry: &Registry, id: u32) -> (r: Result<String, DecodeError>)
    ensures
        text_result(r) == rendered(*registry, id, MAX_DEPTH as nat),
{
    render_id(registry, id, MAX_DEPTH)
}

/// Rendering is a function of the registry and the id: any two results that
/// `render` may give for the same arguments are equal.
pub proof fn lemma_render_deterministic(
    registry: Registry,
    id: u32,
    r1: Result<String, DecodeError>,
    r2: Result<String, DecodeError>,
)
    requires
        text_result(r1) == rendered(registry, id, MAX_DEPTH as nat),
        text_result(r2) == rendered(registry, id, MAX_DEPTH as nat),
    ensures
        text_result(r1) == text_result(r2),
{
}

} // verus!
