use jvmclass::class::{ConstantInfo, ConstantPool};
use jvmclass::error::ParseError;

#[test]
fn utf8_entry_decodes_text() {
    let b = [1, 0x00, 0x04, b'C', b'o', b'd', b'e', 0xFF];
    let (c, end) = ConstantInfo::parse(&b, 0).unwrap();
    assert_eq!(end, 7);
    match c {
        ConstantInfo::UTF8 { text } => assert_eq!(text, "Code"),
        _ => panic!("expected a UTF8 entry"),
    }
}

#[test]
fn utf8_entry_non_ascii() {
    let b = [1, 0x00, 0x02, 0xC3, 0xA9];
    match ConstantInfo::parse(&b, 0).unwrap().0 {
        ConstantInfo::UTF8 { text } => assert_eq!(text, "\u{e9}"),
        _ => panic!("expected a UTF8 entry"),
    }
}

#[test]
fn utf8_entry_invalid_bytes() {
    let b = [1, 0x00, 0x02, 0xFF, 0xFE];
    assert!(matches!(ConstantInfo::parse(&b, 0), Err(ParseError::UtfDecodeError)));
}

#[test]
fn unknown_constant_tag() {
    assert!(matches!(ConstantInfo::parse(&[2, 0, 0], 0), Err(ParseError::UnknownConstantTag)));
}

#[test]
fn fixed_size_entries() {
    let (c, end) = ConstantInfo::parse(&[10, 0x00, 0x03, 0x00, 0x07], 0).unwrap();
    assert_eq!(end, 5);
    assert!(matches!(c, ConstantInfo::Method { class_index: 3, name_and_type_index: 7 }));
    let (c, end) = ConstantInfo::parse(&[3, 0x12, 0x34, 0x56, 0x78], 0).unwrap();
    assert_eq!(end, 5);
    assert!(matches!(c, ConstantInfo::Integer { bytes: 0x12345678 }));
    let (c, end) = ConstantInfo::parse(&[15, 5, 0x01, 0x02], 0).unwrap();
    assert_eq!(end, 4);
    assert!(matches!(c, ConstantInfo::MethodHandle { reference_kind: 5, reference_index: 0x0102 }));
    assert!(matches!(ConstantInfo::parse(&[9, 0, 1, 0], 0), Err(ParseError::UnexpectedEof)));
}

#[test]
fn long_takes_two_slots() {
    let mut b = vec![0x00, 0x04];
    b.extend_from_slice(&[5, 0, 0, 0, 0, 0, 0, 0, 42]);
    b.extend_from_slice(&[1, 0x00, 0x01, b'x']);
    let (pool, end) = ConstantPool::parse(&b, 0).unwrap();
    assert_eq!(end, b.len());
    assert_eq!(pool.0.len(), 3);
    assert!(matches!(pool.0[0], ConstantInfo::Long { bytes: 42 }));
    assert!(matches!(pool.0[1], ConstantInfo::Reserved));
    match pool.get(3) {
        Some(ConstantInfo::UTF8 { text }) => assert_eq!(text, "x"),
        _ => panic!("index 3 should be the UTF8 entry"),
    }
}

#[test]
fn pool_get_bounds() {
    let pool = ConstantPool(vec![ConstantInfo::Integer { bytes: 1 }]);
    assert!(pool.get(0).is_none());
    assert!(matches!(pool.get(1), Some(ConstantInfo::Integer { bytes: 1 })));
    assert!(pool.get(2).is_none());
}

#[test]
fn pool_count_zero_and_one() {
    let (pool, end) = ConstantPool::parse(&[0, 1], 0).unwrap();
    assert_eq!(pool.0.len(), 0);
    assert_eq!(end, 2);
    let (pool, _) = ConstantPool::parse(&[0, 0], 0).unwrap();
    assert_eq!(pool.0.len(), 0);
}

#[test]
fn method_descriptor_lookup() {
    let pool = ConstantPool(vec![
        ConstantInfo::Method { class_index: 2, name_and_type_index: 3 },
        ConstantInfo::Class { name_index: 4 },
        ConstantInfo::NameAndType { name_index: 4, descriptor_index: 5 },
        ConstantInfo::UTF8 { text: "f".to_string() },
        ConstantInfo::UTF8 { text: "(IJ)V".to_string() },
    ]);
    let md = pool.called_method_descriptor(1).unwrap();
    assert_eq!(md.params.len(), 2);
    assert!(matches!(md.return_type, jvmclass::types::Type::Void));
    assert!(matches!(pool.called_method_descriptor(2), Err(ParseError::InvalidPoolIndex)));
    assert!(matches!(pool.called_method_descriptor(9), Err(ParseError::InvalidPoolIndex)));
    let md = pool.get_method_descriptor(5).unwrap();
    assert_eq!(md.params.len(), 2);
    assert!(matches!(pool.get_method_descriptor(1), Err(ParseError::InvalidPoolIndex)));
    assert!(matches!(pool.get_method_descriptor(0), Err(ParseError::InvalidPoolIndex)));
    let bad = ConstantPool(vec![
        ConstantInfo::Method { class_index: 1, name_and_type_index: 2 },
        ConstantInfo::NameAndType { name_index: 3, descriptor_index: 3 },
        ConstantInfo::UTF8 { text: "(X)V".to_string() },
    ]);
    assert!(matches!(bad.called_method_descriptor(1), Err(ParseError::InvalidDescriptor)));
    assert!(matches!(bad.get_method_descriptor(3), Err(ParseError::InvalidDescriptor)));
}

#[test]
fn descriptor_at_utf8_index() {
    let pool = ConstantPool(vec![ConstantInfo::UTF8 { text: "(I)V".to_string() }]);
    let md = pool.get_method_descriptor(1).unwrap();
    assert_eq!(md.params, vec![jvmclass::types::Type::Int]);
    assert_eq!(md.return_type, jvmclass::types::Type::Void);
}
