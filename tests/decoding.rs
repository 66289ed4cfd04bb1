use bt_decode::decoder::{decode, decode_by_type_string};
use bt_decode::resolver::TypeIndex;
use bt_decode::error::DecodeError;
use bt_decode::registry::{Field, Primitive, Registry, Type, TypeDef};
use bt_decode::value::DecodedValue;

fn anon(def: TypeDef) -> Type {
    Type { path: vec![], def }
}

fn prim(k: Primitive) -> Type {
    anon(TypeDef::Primitive(k))
}

fn run(reg: &Registry, id: u32, data: &[u8]) -> (Result<DecodedValue, DecodeError>, usize) {
    let mut cursor: usize = 0;
    let r = decode(reg, id, data, &mut cursor);
    (r, cursor)
}

#[test]
fn u8_entry_decodes_single_byte() {
    let reg = Registry::new(vec![prim(Primitive::U8)]);
    let (r, cursor) = run(&reg, 0, &[7]);
    assert_eq!(r, Ok(DecodedValue::Unsigned(7)));
    assert_eq!(cursor, 1);
}

#[test]
fn compact_u32_single_byte_mode() {
    let reg = Registry::new(vec![prim(Primitive::U32), anon(TypeDef::Compact(0))]);
    let (r, cursor) = run(&reg, 1, &[0x04]);
    assert_eq!(r, Ok(DecodedValue::Compact(1)));
    assert_eq!(cursor, 1);
}

#[test]
fn compact_u32_low_bits_pick_the_mode() {
    // 0xfd ends in 0b01: the two-byte mode, value 0xfffd >> 2.
    let reg = Registry::new(vec![prim(Primitive::U32), anon(TypeDef::Compact(0))]);
    let (r, cursor) = run(&reg, 1, &[0xfd, 0xff, 0xff, 0xff]);
    assert_eq!(r, Ok(DecodedValue::Compact(0xfffd >> 2)));
    assert_eq!(cursor, 2);
}

#[test]
fn compact_four_byte_mode() {
    let reg = Registry::new(vec![prim(Primitive::U32), anon(TypeDef::Compact(0))]);
    let (r, cursor) = run(&reg, 1, &[0xfe, 0xff, 0xff, 0xff]);
    assert_eq!(r, Ok(DecodedValue::Compact(0xffff_fffe >> 2)));
    assert_eq!(cursor, 4);
}

#[test]
fn sequence_of_u16() {
    let reg = Registry::new(vec![prim(Primitive::U16), anon(TypeDef::Sequence(0))]);
    let (r, cursor) = run(&reg, 1, &[0x08, 0x01, 0x00, 0x02, 0x00]);
    assert_eq!(
        r,
        Ok(DecodedValue::Sequence(vec![DecodedValue::Unsigned(1), DecodedValue::Unsigned(2)]))
    );
    assert_eq!(cursor, 5);
}

#[test]
fn composite_consumes_sum_of_fields() {
    let reg = Registry::new(vec![
        prim(Primitive::U8),
        prim(Primitive::U16),
        anon(TypeDef::Compact(1)),
        anon(TypeDef::Composite(vec![
            Field { name: Some("a".to_string()), ty: 0 },
            Field { name: Some("b".to_string()), ty: 1 },
            Field { name: None, ty: 2 },
        ])),
    ]);
    let data = [9, 0x34, 0x12, 0x14, 0xaa];
    let (r, cursor) = run(&reg, 3, &data);
    assert_eq!(
        r,
        Ok(DecodedValue::Composite(vec![
            DecodedValue::Unsigned(9),
            DecodedValue::Unsigned(0x1234),
            DecodedValue::Compact(5),
        ]))
    );
    assert_eq!(cursor, 1 + 2 + 1);
}

#[test]
fn sequence_consumes_prefix_and_fixed_widths() {
    let reg = Registry::new(vec![prim(Primitive::U32), anon(TypeDef::Sequence(0))]);
    let mut data = vec![0x0c];
    data.extend_from_slice(&[1, 0, 0, 0, 2, 0, 0, 0, 3, 0, 0, 0, 0xee]);
    let (r, cursor) = run(&reg, 1, &data);
    assert!(r.is_ok());
    assert_eq!(cursor, 1 + 3 * 4);
}

#[test]
fn truncated_buffers_underrun() {
    let reg = Registry::new(vec![
        prim(Primitive::U64),
        anon(TypeDef::Sequence(0)),
        prim(Primitive::Str),
        anon(TypeDef::Tuple(vec![0, 2])),
        anon(TypeDef::Array(0, 2)),
        prim(Primitive::Bool),
    ]);
    let cases: Vec<(u32, Vec<u8>)> = vec![
        (0, vec![1, 2, 3, 4, 5, 6, 7, 8]),
        (1, vec![0x04, 1, 2, 3, 4, 5, 6, 7, 8]),
        (2, vec![0x08, b'h', b'i']),
        (3, vec![1, 0, 0, 0, 0, 0, 0, 0, 0x04, b'x']),
        (4, vec![0; 16]),
        (5, vec![1]),
    ];
    for (id, full) in cases {
        let (ok, used) = run(&reg, id, &full);
        assert!(ok.is_ok());
        assert_eq!(used, full.len());
        let (r, cursor) = run(&reg, id, &full[..full.len() - 1]);
        assert_eq!(r, Err(DecodeError::BufferUnderrun));
        assert_eq!(cursor, 0);
    }
}

#[test]
fn text_is_decoded() {
    let reg = Registry::new(vec![prim(Primitive::Str), prim(Primitive::Char)]);
    let (r, cursor) = run(&reg, 0, &[0x0c, b'a', b'b', b'c', 0x00]);
    assert_eq!(r, Ok(DecodedValue::Str("abc".to_string())));
    assert_eq!(cursor, 4);
    let (r, cursor) = run(&reg, 1, &[0x08, 0xc3, 0xa9]);
    assert_eq!(r, Ok(DecodedValue::Char("\u{e9}".to_string())));
    assert_eq!(cursor, 3);
}

#[test]
fn invalid_utf8_is_refused() {
    let reg = Registry::new(vec![prim(Primitive::Str)]);
    let (r, cursor) = run(&reg, 0, &[0x04, 0xff]);
    assert_eq!(r, Err(DecodeError::InvalidUtf8));
    assert_eq!(cursor, 0);
}

#[test]
fn booleans() {
    let reg = Registry::new(vec![prim(Primitive::Bool)]);
    assert_eq!(run(&reg, 0, &[1]).0, Ok(DecodedValue::Bool(true)));
    assert_eq!(run(&reg, 0, &[0]).0, Ok(DecodedValue::Bool(false)));
    assert_eq!(run(&reg, 0, &[2]).0, Err(DecodeError::InvalidBooleanEncoding));
}

#[test]
fn signed_integers() {
    let reg = Registry::new(vec![
        prim(Primitive::I8),
        prim(Primitive::I16),
        prim(Primitive::I128),
        prim(Primitive::I32),
    ]);
    assert_eq!(run(&reg, 0, &[0x80]).0, Ok(DecodedValue::Signed(-128)));
    assert_eq!(run(&reg, 1, &[0xfe, 0xff]).0, Ok(DecodedValue::Signed(-2)));
    let mut min = vec![0u8; 15];
    min.push(0x80);
    assert_eq!(run(&reg, 2, &min).0, Ok(DecodedValue::Signed(i128::MIN)));
    assert_eq!(run(&reg, 3, &[5, 0, 0, 0]).0, Ok(DecodedValue::Signed(5)));
}

#[test]
fn wide_integers_keep_their_bytes() {
    let reg = Registry::new(vec![prim(Primitive::U256)]);
    let data: Vec<u8> = (0u8..33).collect();
    let (r, cursor) = run(&reg, 0, &data);
    assert_eq!(r, Ok(DecodedValue::Wide(data[..32].to_vec())));
    assert_eq!(cursor, 32);
}

#[test]
fn array_length_comes_from_the_type() {
    let reg = Registry::new(vec![prim(Primitive::U8), anon(TypeDef::Array(0, 3))]);
    let (r, cursor) = run(&reg, 1, &[1, 2, 3, 4]);
    assert_eq!(
        r,
        Ok(DecodedValue::Array(vec![
            DecodedValue::Unsigned(1),
            DecodedValue::Unsigned(2),
            DecodedValue::Unsigned(3),
        ]))
    );
    assert_eq!(cursor, 3);
}

#[test]
fn unknown_ids_fail() {
    let reg = Registry::new(vec![anon(TypeDef::Sequence(7))]);
    assert_eq!(run(&reg, 3, &[0]).0, Err(DecodeError::UnknownTypeId));
    assert_eq!(run(&reg, 0, &[0x04, 0]).0, Err(DecodeError::UnknownTypeId));
}

#[test]
fn self_nesting_type_is_too_deep() {
    let reg = Registry::new(vec![anon(TypeDef::Tuple(vec![0]))]);
    assert_eq!(run(&reg, 0, &[]).0, Err(DecodeError::TypeTooDeep));
}

#[test]
fn variants_are_unsupported() {
    let reg = Registry::new(vec![anon(TypeDef::Variant), anon(TypeDef::BitSequence)]);
    assert_eq!(run(&reg, 0, &[0]).0, Err(DecodeError::UnsupportedType));
    assert_eq!(run(&reg, 1, &[0]).0, Err(DecodeError::UnsupportedType));
}

#[test]
fn cursor_starts_where_given() {
    let reg = Registry::new(vec![prim(Primitive::U16)]);
    let data = [0xff, 0x02, 0x01];
    let mut cursor: usize = 1;
    let r = decode(&reg, 0, &data, &mut cursor);
    assert_eq!(r, Ok(DecodedValue::Unsigned(0x0102)));
    assert_eq!(cursor, 3);
}

#[test]
fn decode_through_a_type_string() {
    let reg = Registry::new(vec![
        prim(Primitive::U8),
        anon(TypeDef::Array(0, 2)),
        prim(Primitive::U64),
        anon(TypeDef::Compact(2)),
        anon(TypeDef::Tuple(vec![1, 3])),
        anon(TypeDef::Sequence(4)),
    ]);
    let index = TypeIndex::build(&reg).unwrap();
    let data = [0x04, 0xaa, 0xbb, 0x08];
    let mut cursor: usize = 0;
    let r = decode_by_type_string(&reg, &index, "Vec<([u8; 2], Compact<u64>)>", &data, &mut cursor);
    assert_eq!(
        r,
        Some(Ok(DecodedValue::Sequence(vec![DecodedValue::Tuple(vec![
            DecodedValue::Array(vec![DecodedValue::Unsigned(0xaa), DecodedValue::Unsigned(0xbb)]),
            DecodedValue::Compact(2),
        ])])))
    );
    assert_eq!(cursor, 4);
    let mut cursor: usize = 0;
    assert_eq!(decode_by_type_string(&reg, &index, "Vec<AccountId>", &data, &mut cursor), None);
    assert_eq!(cursor, 0);
}
