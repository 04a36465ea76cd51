use ref_safety::parser::{
    parse_u128, parse_u64, parse_u8, NumberFormat, ParseError, ParsedAddress, ParsedStructType,
    ParsedType, ParsedValue,
};

fn bytes(s: &str) -> Vec<u8> {
    s.as_bytes().to_vec()
}

#[test]
fn numbers_parse_exactly() {
    assert_eq!(parse_u8(&bytes("0")).unwrap(), (0, NumberFormat::Decimal));
    assert_eq!(parse_u8(&bytes("255")).unwrap(), (255, NumberFormat::Decimal));
    assert_eq!(parse_u8(&bytes("0xff")).unwrap(), (255, NumberFormat::Hex));
    assert_eq!(parse_u8(&bytes("256")).unwrap_err(), ParseError::InvalidNumber);
    assert_eq!(parse_u64(&bytes("18446744073709551615")).unwrap(), (u64::MAX, NumberFormat::Decimal));
    assert_eq!(parse_u64(&bytes("18446744073709551616")).unwrap_err(), ParseError::InvalidNumber);
    assert_eq!(parse_u64(&bytes("0x10")).unwrap(), (16, NumberFormat::Hex));
    assert_eq!(
        parse_u128(&bytes("340282366920938463463374607431768211455")).unwrap(),
        (u128::MAX, NumberFormat::Decimal)
    );
    assert_eq!(
        parse_u128(&bytes("340282366920938463463374607431768211456")).unwrap_err(),
        ParseError::InvalidNumber
    );
    assert_eq!(parse_u128(&bytes("")).unwrap_err(), ParseError::InvalidNumber);
    assert_eq!(parse_u128(&bytes("0x")).unwrap_err(), ParseError::InvalidNumber);
    assert_eq!(parse_u128(&bytes("12a")).unwrap_err(), ParseError::InvalidNumber);
    assert_eq!(parse_u128(&bytes("0x00000000004")).unwrap(), (4, NumberFormat::Hex));
}

#[test]
fn value_literals_positive() {
    assert!(matches!(ParsedValue::parse("  0u8").unwrap(), ParsedValue::U8(0)));
    assert!(matches!(ParsedValue::parse("255u8").unwrap(), ParsedValue::U8(255)));
    assert!(matches!(ParsedValue::parse("0").unwrap(), ParsedValue::InferredNum(0)));
    assert!(matches!(ParsedValue::parse("0123").unwrap(), ParsedValue::InferredNum(123)));
    assert!(matches!(ParsedValue::parse("0u64").unwrap(), ParsedValue::U64(0)));
    assert!(matches!(
        ParsedValue::parse("18446744073709551615u64").unwrap(),
        ParsedValue::U64(u64::MAX)
    ));
    assert!(matches!(ParsedValue::parse("0u128").unwrap(), ParsedValue::U128(0)));
    assert!(matches!(ParsedValue::parse("true").unwrap(), ParsedValue::Bool(true)));
    assert!(matches!(ParsedValue::parse("false").unwrap(), ParsedValue::Bool(false)));
    match ParsedValue::parse("x\"7fff\"").unwrap() {
        ParsedValue::Vector(v) => {
            assert_eq!(v.len(), 2);
            assert!(matches!(v[0], ParsedValue::U8(0x7f)));
            assert!(matches!(v[1], ParsedValue::U8(0xff)));
        }
        other => panic!("expected vector, got {:?}", other),
    }
    match ParsedValue::parse("x\"\"").unwrap() {
        ParsedValue::Vector(v) => assert_eq!(v.len(), 0),
        other => panic!("expected vector, got {:?}", other),
    }
    match ParsedValue::parse("x\"deadbeef\"").unwrap() {
        ParsedValue::Vector(v) => {
            assert_eq!(v.len(), 4);
            assert!(matches!(v[0], ParsedValue::U8(0xde)));
            assert!(matches!(v[3], ParsedValue::U8(0xef)));
        }
        other => panic!("expected vector, got {:?}", other),
    }
    match ParsedValue::parse("b\"ab\"").unwrap() {
        ParsedValue::Vector(v) => {
            assert_eq!(v.len(), 2);
            assert!(matches!(v[0], ParsedValue::U8(97)));
            assert!(matches!(v[1], ParsedValue::U8(98)));
        }
        other => panic!("expected vector, got {:?}", other),
    }
    match ParsedValue::parse("@0x54afa3526").unwrap() {
        ParsedValue::Address(ParsedAddress::Numerical(a)) => {
            assert_eq!(a.value, 0x54afa3526);
            assert_eq!(a.format, NumberFormat::Hex);
        }
        other => panic!("expected address, got {:?}", other),
    }
    match ParsedValue::parse("vector[1, 2, 3]").unwrap() {
        ParsedValue::Vector(v) => assert_eq!(v.len(), 3),
        other => panic!("expected vector, got {:?}", other),
    }
    match ParsedValue::parse("0x1::M::S { f: 1, g: true }").unwrap() {
        ParsedValue::Struct(ParsedAddress::Numerical(a), module, name, fields) => {
            assert_eq!(a.value, 1);
            assert_eq!(module, b"M".to_vec());
            assert_eq!(name, b"S".to_vec());
            assert_eq!(fields.len(), 2);
            assert_eq!(fields[0].0, b"f".to_vec());
        }
        other => panic!("expected struct, got {:?}", other),
    }
}

#[test]
fn value_literals_negative() {
    for s in &[
        "-3", "0u42", "0u645", "0u64x", "0u6 4", "0u", "256u8", "0xg", "0x00g0", "0x", "0x_", "",
        "x\"ffff", "x\"a \"", "x\" \"", "x\"0g\"", "x\"0\"", "garbage", "true3", "3false",
        "3 false", "0x1::M::S { f: 1, f: 2 }",
    ] {
        assert!(ParsedValue::parse(s).is_err(), "expected failure for {:?}", s);
    }
}

#[test]
fn type_literals() {
    for s in &[
        "u64",
        "bool",
        "vector<u8>",
        "vector<vector<u64>>",
        "signer",
        "0x1::M::S",
        "0x2::M::S_",
        "0x3::M_::S",
        "0x00000000004::M::S",
        "0x1::M::S<u64>",
        "0x1::M::S<0x2::P::Q>",
        "vector<0x1::M::S>",
        "0x1::M::S<vector<u8>>",
        "0x1::M::S<u8,   bool>",
        "0x1::M::S<u8 , bool  ,    vector<u8>,address,signer>",
    ] {
        assert!(ParsedType::parse(s).is_ok(), "failed to parse type {:?}", s);
    }
    assert!(matches!(ParsedType::parse("address").unwrap(), ParsedType::Address));
    match ParsedType::parse("vector<u8>").unwrap() {
        ParsedType::Vector(inner) => assert!(matches!(*inner, ParsedType::U8)),
        other => panic!("expected vector, got {:?}", other),
    }
    for s in &["", "vector", "vector<", "vector<u8", "<u8>", "8u::M::S", "u64 u64"] {
        assert!(ParsedType::parse(s).is_err(), "expected failure for {:?}", s);
    }
}

#[test]
fn struct_types_and_addresses() {
    let st = ParsedStructType::parse("0x1::Coin::Coin<u8, bool>").unwrap();
    assert_eq!(st.module, b"Coin".to_vec());
    assert_eq!(st.name, b"Coin".to_vec());
    assert_eq!(st.type_args.len(), 2);
    assert!(ParsedStructType::parse("u64").is_err());
    match ParsedAddress::parse("0x2a").unwrap() {
        ParsedAddress::Numerical(a) => {
            assert_eq!(a.value, 42);
            assert_eq!(a.format, NumberFormat::Hex);
        }
        other => panic!("expected numeric address, got {:?}", other),
    }
    match ParsedAddress::parse("std").unwrap() {
        ParsedAddress::Named(n) => assert_eq!(n, b"std".to_vec()),
        other => panic!("expected named address, got {:?}", other),
    }
    assert!(ParsedAddress::parse("42 extra").is_err());
}
