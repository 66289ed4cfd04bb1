use bt_decode::registry::{Primitive, Registry, Type, TypeDef};
use bt_decode::render::{primitive_to_type_string, render, transform_type_to_string};
use bt_decode::error::DecodeError;
use bt_decode::resolver::{
    fill_memo_using_well_known_types, get_inner_string, get_type_id_from_type_string, TypeIndex,
};

fn anon(def: TypeDef) -> Type {
    Type { path: vec![], def }
}

fn prim(k: Primitive) -> Type {
    anon(TypeDef::Primitive(k))
}

fn sample() -> Registry {
    Registry::new(vec![
        prim(Primitive::U8),
        anon(TypeDef::Array(0, 32)),
        prim(Primitive::U64),
        anon(TypeDef::Compact(2)),
        anon(TypeDef::Tuple(vec![1, 3])),
        anon(TypeDef::Sequence(4)),
        Type { path: vec!["pallet".to_string(), "AxonInfo".to_string()], def: TypeDef::Composite(vec![]) },
        prim(Primitive::Bool),
        anon(TypeDef::Variant),
    ])
}

#[test]
fn array_renders_and_resolves() {
    let reg = Registry::new(vec![prim(Primitive::U8), anon(TypeDef::Array(0, 32))]);
    assert_eq!(render(&reg, 1), Ok("[u8; 32]".to_string()));
    let index = TypeIndex::build(&reg).unwrap();
    assert_eq!(index.lookup("[u8; 32]"), Some(1));
}

#[test]
fn canonical_strings() {
    let reg = sample();
    let expected = [
        "u8",
        "[u8; 32]",
        "u64",
        "Compact<u64>",
        "([u8; 32], Compact<u64>)",
        "Vec<([u8; 32], Compact<u64>)>",
        "AxonInfo",
        "bool",
        "Unknown",
    ];
    for (id, s) in expected.iter().enumerate() {
        assert_eq!(render(&reg, id as u32), Ok(s.to_string()));
    }
}

#[test]
fn rendering_is_deterministic() {
    let reg = sample();
    for id in 0..reg.len() as u32 {
        assert_eq!(render(&reg, id), render(&reg, id));
    }
}

#[test]
fn every_entry_resolves_to_itself() {
    let reg = sample();
    let index = TypeIndex::build(&reg).unwrap();
    for id in 0..reg.len() as u32 {
        let s = render(&reg, id).unwrap();
        assert_eq!(index.lookup(&s), Some(id));
        assert_eq!(get_type_id_from_type_string(&index, &s), Some(id));
    }
}

#[test]
fn duplicate_strings_last_write_wins() {
    let reg = Registry::new(vec![prim(Primitive::U8), prim(Primitive::U16), prim(Primitive::U8)]);
    let index = TypeIndex::build(&reg).unwrap();
    assert_eq!(index.lookup("u8"), Some(2));
    assert_eq!(index.lookup("u16"), Some(1));
}

#[test]
fn lookup_is_exact() {
    let index = TypeIndex::build(&sample()).unwrap();
    assert_eq!(index.lookup("Vec<u8>"), None);
    assert_eq!(index.lookup("U8"), None);
    assert_eq!(index.lookup(" u8"), None);
    assert_eq!(get_type_id_from_type_string(&index, "Vec<(AccountId, Compact<u64>)>"), None);
}

#[test]
fn fill_fails_on_a_dangling_id_and_keeps_the_index() {
    let good = Registry::new(vec![prim(Primitive::U32)]);
    let mut index = TypeIndex::new();
    assert_eq!(fill_memo_using_well_known_types(&mut index, &good), Ok(()));
    let bad = Registry::new(vec![prim(Primitive::U8), anon(TypeDef::Sequence(9))]);
    assert_eq!(
        fill_memo_using_well_known_types(&mut index, &bad),
        Err(DecodeError::UnknownTypeId)
    );
    assert_eq!(index.lookup("u32"), Some(0));
    assert_eq!(index.lookup("u8"), None);
}

#[test]
fn self_nesting_render_is_too_deep() {
    let reg = Registry::new(vec![anon(TypeDef::Sequence(0))]);
    assert_eq!(render(&reg, 0), Err(DecodeError::TypeTooDeep));
    assert_eq!(render(&reg, 4), Err(DecodeError::UnknownTypeId));
}

#[test]
fn primitive_names() {
    assert_eq!(primitive_to_type_string(&Primitive::Str), "str");
    assert_eq!(primitive_to_type_string(&Primitive::I256), "i256");
    let reg = Registry::new(vec![]);
    assert_eq!(transform_type_to_string(&prim(Primitive::Char), &reg, 0), Ok("char".to_string()));
}

#[test]
fn inner_strings() {
    assert_eq!(get_inner_string("Vec<u8>"), "u8");
    assert_eq!(get_inner_string("[u8; 4]"), "u8; 4");
    assert_eq!(get_inner_string("(a, b)"), "a, b");
    assert_eq!(get_inner_string("Vec<Vec<u8>>"), "Vec<u8>");
}

#[test]
fn priming_goes_on_until_every_kind_is_mapped() {
    // Fifteen entries of one kind do not map every kind: the named u8
    // entry after them is still primed under "u8".
    let mut types: Vec<Type> = (0..15).map(|_| prim(Primitive::Bool)).collect();
    types.push(Type { path: vec!["Foo".to_string()], def: TypeDef::Primitive(Primitive::U8) });
    let reg = Registry::new(types);
    let index = TypeIndex::build(&reg).unwrap();
    assert_eq!(index.lookup("u8"), Some(15));
    assert_eq!(index.lookup("Foo"), Some(15));
    assert_eq!(index.lookup("bool"), Some(14));
}

#[test]
fn priming_stops_once_every_kind_is_mapped() {
    let kinds = [
        Primitive::Bool,
        Primitive::Char,
        Primitive::Str,
        Primitive::U8,
        Primitive::U16,
        Primitive::U32,
        Primitive::U64,
        Primitive::U128,
        Primitive::U256,
        Primitive::I8,
        Primitive::I16,
        Primitive::I32,
        Primitive::I64,
        Primitive::I128,
        Primitive::I256,
    ];
    let mut types: Vec<Type> = kinds
        .iter()
        .enumerate()
        .map(|(i, k)| Type { path: vec![format!("N{}", i)], def: TypeDef::Primitive(*k) })
        .collect();
    types.push(Type { path: vec!["Bar".to_string()], def: TypeDef::Primitive(Primitive::U8) });
    let reg = Registry::new(types);
    let index = TypeIndex::build(&reg).unwrap();
    assert_eq!(index.lookup("u8"), Some(3));
    assert_eq!(index.lookup("i256"), Some(14));
    assert_eq!(index.lookup("Bar"), Some(15));
}
