//! Literal payload encoding and decoding, and the registry's partial-match
//! queries.

use ankha::eval::literal_from_body;
use ankha::install::{install_core_types, register_struct, FieldDecl};
use ankha::kind::{AnkhaValueKind, Visibility, TH_I32, TH_U64};
use ankha::literal::AnkhaLiteral;
use ankha::registry::{AnkhaTypeQuery, FieldInit, Registry};
use ankha::value::Body;

fn round_trip(lit: AnkhaLiteral) {
    let th = lit.type_hash();
    let body = match &lit {
        AnkhaLiteral::String(s) => Body::Text(s.clone()),
        other => Body::Raw(other.to_bytes()),
    };
    assert_eq!(literal_from_body(th, &body), Some(lit));
}

#[test]
fn literal_payloads_round_trip() {
    round_trip(AnkhaLiteral::Unit);
    round_trip(AnkhaLiteral::Bool(true));
    round_trip(AnkhaLiteral::Bool(false));
    round_trip(AnkhaLiteral::I8(-5));
    round_trip(AnkhaLiteral::I16(-300));
    round_trip(AnkhaLiteral::I32(-70000));
    round_trip(AnkhaLiteral::I64(-1));
    round_trip(AnkhaLiteral::I128(-1));
    round_trip(AnkhaLiteral::Isize(-9));
    round_trip(AnkhaLiteral::U8(200));
    round_trip(AnkhaLiteral::U16(60000));
    round_trip(AnkhaLiteral::U32(4000000000));
    round_trip(AnkhaLiteral::U64(u64::MAX));
    round_trip(AnkhaLiteral::U128(u128::MAX));
    round_trip(AnkhaLiteral::Usize(77));
    round_trip(AnkhaLiteral::F32Bits(1.5f32.to_bits()));
    round_trip(AnkhaLiteral::F64Bits(13.8f64.to_bits()));
    round_trip(AnkhaLiteral::String("Hello World!".to_string()));
}

#[test]
fn i32_encoding_is_little_endian() {
    assert_eq!(AnkhaLiteral::I32(42).to_bytes(), vec![42, 0, 0, 0]);
    assert_eq!(AnkhaLiteral::I32(-1).to_bytes(), vec![255, 255, 255, 255]);
    assert_eq!(
        AnkhaLiteral::U64(0x0102030405060708).to_bytes(),
        vec![8, 7, 6, 5, 4, 3, 2, 1]
    );
}

#[test]
fn mismatched_type_or_length_does_not_decode() {
    assert_eq!(literal_from_body(TH_I32, &Body::Raw(vec![1, 2])), None);
    assert_eq!(
        literal_from_body(TH_U64, &Body::Text("x".to_string())),
        None
    );
}

#[test]
fn type_queries_match_partially() {
    let mut reg = Registry::new();
    install_core_types(&mut reg).unwrap();
    register_struct(
        &mut reg,
        "Widget",
        Some("shop"),
        Visibility::Public,
        300,
        false,
        vec![FieldDecl {
            name: "w".to_string(),
            visibility: Visibility::Public,
            kind: AnkhaValueKind::Owned,
            type_hash: 0,
            init: FieldInit::Required,
        }],
    )
    .unwrap();
    // by name only
    let q = AnkhaTypeQuery {
        name: Some("Widget".to_string()),
        module_name: None,
        type_hash: None,
        visibility: None,
    };
    let (_, td) = reg.find_type(&q).unwrap();
    assert_eq!(td.type_hash, 300);
    // by module and hash
    let q = AnkhaTypeQuery {
        name: None,
        module_name: Some("shop".to_string()),
        type_hash: Some(300),
        visibility: Some(Visibility::Public),
    };
    assert!(reg.find_type(&q).is_some());
    // a mismatching module fails
    let q = AnkhaTypeQuery {
        name: Some("Widget".to_string()),
        module_name: Some("elsewhere".to_string()),
        type_hash: None,
        visibility: None,
    };
    assert!(reg.find_type(&q).is_none());
    // duplicate hashes are refused: two types are the same type exactly when
    // their hashes are equal
    let r = register_struct(
        &mut reg,
        "Gadget",
        None,
        Visibility::Public,
        300,
        false,
        vec![],
    );
    assert!(r.is_err());
}

#[test]
fn struct_registration_computes_aligned_offsets() {
    let mut reg = Registry::new();
    install_core_types(&mut reg).unwrap();
    register_struct(
        &mut reg,
        "Mixed",
        None,
        Visibility::Public,
        301,
        false,
        vec![
            FieldDecl {
                name: "small".to_string(),
                visibility: Visibility::Public,
                kind: AnkhaValueKind::Any,
                type_hash: ankha::kind::TH_U8,
                init: FieldInit::Raw(vec![0]),
            },
            FieldDecl {
                name: "wide".to_string(),
                visibility: Visibility::Public,
                kind: AnkhaValueKind::Any,
                type_hash: TH_U64,
                init: FieldInit::Raw(vec![0; 8]),
            },
        ],
    )
    .unwrap();
    let q = AnkhaTypeQuery {
        name: Some("Mixed".to_string()),
        module_name: None,
        type_hash: None,
        visibility: None,
    };
    let (_, td) = reg.find_type(&q).unwrap();
    match &td.shape {
        ankha::registry::TypeShape::Struct(fields) => {
            assert_eq!(fields[0].offset, 0);
            assert_eq!(fields[1].offset, 8);
        }
        _ => panic!("expected a struct shape"),
    }
    assert_eq!(td.size, 16);
    assert_eq!(td.align, 8);
}
