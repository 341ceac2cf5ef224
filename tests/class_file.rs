use jvmclass::class::{
    AttributeInfo, ClassInfo, ConstantInfo, ConstantPool, FieldInfo, MethodInfo, ACC_PRIVATE,
    ACC_PUBLIC, ACC_STATIC,
};
use jvmclass::error::ParseError;

fn u16be(v: u16) -> [u8; 2] {
    v.to_be_bytes()
}

fn utf8_entry(text: &str) -> Vec<u8> {
    let mut b = vec![1u8];
    b.extend_from_slice(&u16be(text.len() as u16));
    b.extend_from_slice(text.as_bytes());
    b
}

fn empty_class() -> Vec<u8> {
    vec![
        0xCA, 0xFE, 0xBA, 0xBE, 0x00, 0x00, 0x00, 0x34, 0x00, 0x01, 0x00, 0x01, 0x00, 0x00, 0x00,
        0x00, 0x00, 0x00, 0x00, 0x00, 0x00, 0x00, 0x00, 0x00,
    ]
}

/// A class whose pool holds "Code", "main" and "()V", and one method
/// `main` whose body is `code`.
fn class_with_method(code: &[u8]) -> Vec<u8> {
    let mut b = vec![0xCA, 0xFE, 0xBA, 0xBE, 0x00, 0x00, 0x00, 0x34];
    b.extend_from_slice(&u16be(4));
    b.extend(utf8_entry("Code"));
    b.extend(utf8_entry("main"));
    b.extend(utf8_entry("()V"));
    b.extend_from_slice(&u16be(0x0021));
    b.extend_from_slice(&u16be(0));
    b.extend_from_slice(&u16be(0));
    b.extend_from_slice(&u16be(0));
    b.extend_from_slice(&u16be(0));
    b.extend_from_slice(&u16be(1));
    b.extend_from_slice(&u16be(0x0009));
    b.extend_from_slice(&u16be(2));
    b.extend_from_slice(&u16be(3));
    b.extend_from_slice(&u16be(1));
    b.extend_from_slice(&u16be(1));
    let body_len = 2 + 2 + 4 + code.len() + 2 + 2;
    b.extend_from_slice(&(body_len as u32).to_be_bytes());
    b.extend_from_slice(&u16be(1));
    b.extend_from_slice(&u16be(1));
    b.extend_from_slice(&(code.len() as u32).to_be_bytes());
    b.extend_from_slice(code);
    b.extend_from_slice(&u16be(0));
    b.extend_from_slice(&u16be(0));
    b.extend_from_slice(&u16be(0));
    b
}

#[test]
fn magic_rejection() {
    let r = ClassInfo::parse(&[0xDE, 0xAD, 0xBE, 0xEF, 0, 0, 0, 0x34]);
    assert!(matches!(r, Err(ParseError::BadMagic)));
}

#[test]
fn empty_class_parses() {
    let c = ClassInfo::parse(&empty_class()).unwrap();
    assert_eq!(c.minor_version, 0);
    assert_eq!(c.major_version, 52);
    assert_eq!(c.constant_pool.0.len(), 0);
    assert_eq!(c.access_flags.bits, ACC_PUBLIC);
    assert!(c.access_flags.contains(ACC_PUBLIC));
    assert_eq!(c.this_class, 0);
    assert_eq!(c.super_class, 0);
    assert!(c.interfaces.is_empty());
    assert!(c.fields.is_empty());
    assert!(c.methods.is_empty());
    assert!(c.attributes.is_empty());
}

#[test]
fn short_input_is_eof() {
    assert!(matches!(ClassInfo::parse(&[0xCA, 0xFE]), Err(ParseError::UnexpectedEof)));
    let mut b = empty_class();
    b.truncate(20);
    assert!(matches!(ClassInfo::parse(&b), Err(ParseError::UnexpectedEof)));
}

#[test]
fn unknown_class_flags() {
    let mut b = empty_class();
    b[10] = 0x01;
    b[11] = 0x00;
    assert!(matches!(ClassInfo::parse(&b), Err(ParseError::UnknownAccessFlags)));
}

#[test]
fn method_with_code_attribute() {
    let c = ClassInfo::parse(&class_with_method(&[0xB1])).unwrap();
    assert_eq!(c.constant_pool.0.len(), 3);
    assert_eq!(c.methods.len(), 1);
    let m: &MethodInfo = &c.methods[0];
    assert!(m.access_flags.contains(ACC_PUBLIC));
    assert!(m.access_flags.contains(ACC_STATIC));
    assert!(!m.access_flags.contains(ACC_PRIVATE));
    assert_eq!(m.name_index, 2);
    assert_eq!(m.descriptor_index, 3);
    assert_eq!(m.attribute_info.len(), 1);
    match &m.attribute_info[0] {
        AttributeInfo::CodeAttribute { code } => {
            assert_eq!(code.max_stack, 1);
            assert_eq!(code.max_locals, 1);
            assert_eq!(code.code.len(), 1);
            assert_eq!(code.code[0].op, 0xB1);
            assert_eq!(code.code_chunks.len(), 1);
            assert!(code.exception_table.is_empty());
        }
        _ => panic!("expected a Code attribute"),
    }
}

#[test]
fn unknown_attribute_is_skipped_by_length() {
    let mut b = vec![0xCA, 0xFE, 0xBA, 0xBE, 0x00, 0x00, 0x00, 0x34];
    b.extend_from_slice(&u16be(2));
    b.extend(utf8_entry("Whatever"));
    b.extend_from_slice(&u16be(0x0001));
    b.extend_from_slice(&u16be(0));
    b.extend_from_slice(&u16be(0));
    b.extend_from_slice(&u16be(0));
    b.extend_from_slice(&u16be(0));
    b.extend_from_slice(&u16be(0));
    b.extend_from_slice(&u16be(2));
    b.extend_from_slice(&u16be(1));
    b.extend_from_slice(&3u32.to_be_bytes());
    b.extend_from_slice(&[9, 9, 9]);
    b.extend_from_slice(&u16be(1));
    b.extend_from_slice(&0u32.to_be_bytes());
    let c = ClassInfo::parse(&b).unwrap();
    assert_eq!(c.attributes.len(), 2);
    assert!(matches!(c.attributes[0], AttributeInfo::Unparsed { length: 3 }));
    assert!(matches!(c.attributes[1], AttributeInfo::Unparsed { length: 0 }));
}

#[test]
fn attribute_with_bad_name_index() {
    let mut b = empty_class();
    let n = b.len();
    b[n - 2] = 0x00;
    b[n - 1] = 0x01;
    b.extend_from_slice(&u16be(1));
    b.extend_from_slice(&0u32.to_be_bytes());
    assert!(matches!(ClassInfo::parse(&b), Err(ParseError::InvalidPoolIndex)));
}

#[test]
fn field_name_must_be_in_pool() {
    let mut b = vec![0xCA, 0xFE, 0xBA, 0xBE, 0x00, 0x00, 0x00, 0x34];
    b.extend_from_slice(&u16be(2));
    b.extend(utf8_entry("x"));
    b.extend_from_slice(&u16be(0x0001));
    b.extend_from_slice(&u16be(0));
    b.extend_from_slice(&u16be(0));
    b.extend_from_slice(&u16be(0));
    b.extend_from_slice(&u16be(1));
    b.extend_from_slice(&u16be(0x0002));
    b.extend_from_slice(&u16be(5));
    b.extend_from_slice(&u16be(1));
    b.extend_from_slice(&u16be(0));
    b.extend_from_slice(&u16be(0));
    b.extend_from_slice(&u16be(0));
    assert!(matches!(ClassInfo::parse(&b), Err(ParseError::InvalidPoolIndex)));
}

#[test]
fn field_parses_alone() {
    let pool = ConstantPool(vec![ConstantInfo::UTF8 { text: "x".to_string() }, ConstantInfo::UTF8 { text: "I".to_string() }]);
    let b = [0x00, 0x02, 0x00, 0x01, 0x00, 0x02, 0x00, 0x00];
    let (f, end): (FieldInfo, usize) = FieldInfo::parse(&b, 0, &pool).unwrap();
    assert_eq!(end, 8);
    assert!(f.access_flags.contains(ACC_PRIVATE));
    assert_eq!(f.name_index, 1);
    assert_eq!(f.descriptor_index, 2);
    let bad = [0x80, 0x00, 0x00, 0x01, 0x00, 0x02, 0x00, 0x00];
    assert!(matches!(FieldInfo::parse(&bad, 0, &pool), Err(ParseError::UnknownAccessFlags)));
}

#[test]
fn pool_reference_out_of_range() {
    let mut b = vec![0xCA, 0xFE, 0xBA, 0xBE, 0x00, 0x00, 0x00, 0x34];
    b.extend_from_slice(&u16be(2));
    b.extend_from_slice(&[7, 0x00, 0x09]);
    b.extend_from_slice(&[0; 16]);
    assert!(matches!(ClassInfo::parse(&b), Err(ParseError::InvalidPoolIndex)));
}

#[test]
fn parsed_class_references_are_valid() {
    let c = ClassInfo::parse(&class_with_method(&[0xB1])).unwrap();
    let len = c.constant_pool.0.len() as u16;
    for m in &c.methods {
        assert!(m.name_index >= 1 && m.name_index <= len);
        assert!(m.descriptor_index >= 1 && m.descriptor_index <= len);
    }
}

fn named_pool(names: &[&str]) -> ConstantPool {
    ConstantPool(names.iter().map(|n| ConstantInfo::UTF8 { text: n.to_string() }).collect())
}

#[test]
fn table_attributes() {
    let pool = named_pool(&["LineNumberTable", "InnerClasses", "SourceFile", "Exceptions", "Deprecated"]);
    let b = [0x00, 0x01, 0x00, 0x00, 0x00, 0x0A, 0x00, 0x02, 0x00, 0x00, 0x00, 0x07, 0x00, 0x04, 0x00, 0x09];
    let (a, end) = AttributeInfo::parse(&b, 0, &pool).unwrap();
    assert_eq!(end, 16);
    match a {
        AttributeInfo::LineNumberTable { line_number_table } => {
            assert_eq!(line_number_table.len(), 2);
            assert_eq!((line_number_table[0].start_pc, line_number_table[0].line_number), (0, 7));
            assert_eq!((line_number_table[1].start_pc, line_number_table[1].line_number), (4, 9));
        }
        _ => panic!("expected a line number table"),
    }
    let b = [0x00, 0x02, 0x00, 0x00, 0x00, 0x0A, 0x00, 0x01, 0x00, 0x03, 0x00, 0x04, 0x00, 0x05, 0x00, 0x08];
    match AttributeInfo::parse(&b, 0, &pool).unwrap().0 {
        AttributeInfo::InnerClasses { classes } => {
            assert_eq!(classes.len(), 1);
            assert_eq!(classes[0].inner_class_info_index, 3);
            assert_eq!(classes[0].outer_class_info_index, 4);
            assert_eq!(classes[0].inner_name_index, 5);
            assert_eq!(classes[0].inner_class_access_flags, 8);
        }
        _ => panic!("expected inner classes"),
    }
    let b = [0x00, 0x03, 0x00, 0x00, 0x00, 0x02, 0x00, 0x01];
    assert!(matches!(AttributeInfo::parse(&b, 0, &pool).unwrap().0, AttributeInfo::SourceFile { source_file_index: 1 }));
    let b = [0x00, 0x04, 0x00, 0x00, 0x00, 0x06, 0x00, 0x02, 0x00, 0x02, 0x00, 0x03];
    match AttributeInfo::parse(&b, 0, &pool).unwrap().0 {
        AttributeInfo::Exceptions { exception_index_table } => assert_eq!(exception_index_table, vec![2, 3]),
        _ => panic!("expected an exception list"),
    }
    let b = [0x00, 0x05, 0x00, 0x00, 0x00, 0x00];
    assert!(matches!(AttributeInfo::parse(&b, 0, &pool).unwrap().0, AttributeInfo::Deprecated));
}

#[test]
fn attribute_body_past_end() {
    let pool = named_pool(&["SourceFile"]);
    let b = [0x00, 0x01, 0x00, 0x00, 0x00, 0x04, 0x00, 0x01];
    assert!(matches!(AttributeInfo::parse(&b, 0, &pool), Err(ParseError::UnexpectedEof)));
}

#[test]
fn more_attribute_kinds() {
    let pool = named_pool(&[
        "ConstantValue",
        "Signature",
        "EnclosingMethod",
        "SourceDebugExtension",
        "LocalVariableTable",
        "LocalVariableTypeTable",
        "BootstrapMethods",
        "Synthetic",
    ]);
    let b = [0x00, 0x01, 0x00, 0x00, 0x00, 0x02, 0x00, 0x07];
    assert!(matches!(AttributeInfo::parse(&b, 0, &pool).unwrap().0, AttributeInfo::ConstantValue { constant_index: 7 }));
    let b = [0x00, 0x02, 0x00, 0x00, 0x00, 0x02, 0x00, 0x03];
    assert!(matches!(AttributeInfo::parse(&b, 0, &pool).unwrap().0, AttributeInfo::Signature { signature_index: 3 }));
    let b = [0x00, 0x03, 0x00, 0x00, 0x00, 0x04, 0x00, 0x02, 0x00, 0x05];
    assert!(matches!(
        AttributeInfo::parse(&b, 0, &pool).unwrap().0,
        AttributeInfo::EnclosingMethod { class_index: 2, method_index: 5 }
    ));
    let b = [0x00, 0x04, 0x00, 0x00, 0x00, 0x03, b'a', b'b', b'c'];
    match AttributeInfo::parse(&b, 0, &pool).unwrap().0 {
        AttributeInfo::SourceDebugExtension { debug_extension } => assert_eq!(debug_extension, b"abc".to_vec()),
        _ => panic!("expected a debug extension"),
    }
    let b = [0x00, 0x05, 0x00, 0x00, 0x00, 0x0C, 0x00, 0x01, 0x00, 0x00, 0x00, 0x05, 0x00, 0x01, 0x00, 0x02, 0x00, 0x03];
    match AttributeInfo::parse(&b, 0, &pool).unwrap().0 {
        AttributeInfo::LocalVariableTable { local_variable_table } => {
            assert_eq!(local_variable_table.len(), 1);
            let v = local_variable_table[0];
            assert_eq!((v.start_pc, v.length, v.name_index, v.descriptor_index, v.index), (0, 5, 1, 2, 3));
        }
        _ => panic!("expected a local variable table"),
    }
    let b = [0x00, 0x06, 0x00, 0x00, 0x00, 0x0C, 0x00, 0x01, 0x00, 0x01, 0x00, 0x04, 0x00, 0x02, 0x00, 0x02, 0x00, 0x00];
    match AttributeInfo::parse(&b, 0, &pool).unwrap().0 {
        AttributeInfo::LocalVariableTypeTable { local_variable_type_table } => {
            let v = local_variable_type_table[0];
            assert_eq!((v.start_pc, v.length, v.name_index, v.signature_index, v.index), (1, 4, 2, 2, 0));
        }
        _ => panic!("expected a local variable type table"),
    }
    let b = [0x00, 0x07, 0x00, 0x00, 0x00, 0x08, 0x00, 0x01, 0x00, 0x03, 0x00, 0x01, 0x00, 0x06];
    match AttributeInfo::parse(&b, 0, &pool).unwrap().0 {
        AttributeInfo::BootstrapMethods { bootstrap_methods } => {
            assert_eq!(bootstrap_methods.len(), 1);
            assert_eq!(bootstrap_methods[0].bootstrap_method_ref, 3);
            assert_eq!(bootstrap_methods[0].bootstrap_arguments, vec![6]);
        }
        _ => panic!("expected bootstrap methods"),
    }
    let b = [0x00, 0x08, 0x00, 0x00, 0x00, 0x00];
    assert!(matches!(AttributeInfo::parse(&b, 0, &pool).unwrap().0, AttributeInfo::Synthetic));
}

#[test]
fn code_body_parses_to_its_end() {
    let pool = ConstantPool(Vec::new());
    let b = [0x00, 0x02, 0x00, 0x02, 0x00, 0x00, 0x00, 0x04, 0x1A, 0x1B, 0x2A, 0xAC, 0x00, 0x00, 0x00, 0x00];
    let (c, end) = jvmclass::code::Code::parse(&b, 0, &pool).unwrap();
    assert_eq!(end, b.len());
    assert_eq!(c.code.len(), 4);
    assert_eq!(c.code[0].op, 21);
    assert_eq!(c.code[2].op, 25);
    assert_eq!(c.code[3].op, 0xAC);
    let b = [0x00, 0x01, 0x00, 0x01, 0x00, 0x00, 0x00, 0x05, 0x00, 0xA7, 0x00, 0x03, 0x00, 0x00, 0x00, 0x00, 0x00];
    let (c, end) = jvmclass::code::Code::parse(&b, 0, &pool).unwrap();
    assert_eq!(end, b.len());
    assert_eq!(c.code.len(), 3);
    assert_eq!(c.code_chunks.len(), 2);
}

#[test]
fn code_body_errors() {
    let pool = ConstantPool(Vec::new());
    let b = [0x00, 0x01, 0x00, 0x01, 0x00, 0x00, 0x00, 0x01, 0x10, 0x00, 0x00, 0x00, 0x00];
    assert!(matches!(jvmclass::code::Code::parse(&b, 0, &pool), Err(ParseError::TruncatedCode)));
    let b = [0x00, 0x01, 0x00, 0x01, 0x00, 0x00, 0x00, 0x03, 0xA7, 0x00, 0x09, 0x00, 0x00, 0x00, 0x00];
    assert!(matches!(jvmclass::code::Code::parse(&b, 0, &pool), Err(ParseError::JumpOutOfRange)));
}

#[test]
fn wide_constant_keeps_wire_numbering() {
    let mut b = vec![0xCA, 0xFE, 0xBA, 0xBE, 0x00, 0x00, 0x00, 0x34];
    b.extend_from_slice(&u16be(5));
    b.extend_from_slice(&[6, 0, 0, 0, 0, 0, 0, 0, 1]);
    b.extend(utf8_entry("a"));
    b.extend(utf8_entry("b"));
    b.extend_from_slice(&u16be(0x0001));
    b.extend_from_slice(&[0; 12]);
    let c = ClassInfo::parse(&b).unwrap();
    assert_eq!(c.constant_pool.0.len(), 4);
    assert!(matches!(c.constant_pool.get(1), Some(ConstantInfo::Double { bytes: 1 })));
    assert!(matches!(c.constant_pool.get(2), Some(ConstantInfo::Reserved)));
    match c.constant_pool.get(3) {
        Some(ConstantInfo::UTF8 { text }) => assert_eq!(text, "a"),
        _ => panic!("index 3 should be the first UTF8 entry"),
    }
    match c.constant_pool.get(4) {
        Some(ConstantInfo::UTF8 { text }) => assert_eq!(text, "b"),
        _ => panic!("index 4 should be the second UTF8 entry"),
    }
}

#[test]
fn invalid_this_class() {
    let mut b = empty_class();
    b[13] = 0x01;
    assert!(matches!(ClassInfo::parse(&b), Err(ParseError::InvalidPoolIndex)));
}

#[test]
fn class_flags_before_short_header() {
    let b = [0xCA, 0xFE, 0xBA, 0xBE, 0x00, 0x00, 0x00, 0x34, 0x00, 0x01, 0xFF, 0xFF];
    assert!(matches!(ClassInfo::parse(&b), Err(ParseError::UnknownAccessFlags)));
    let b = [0xCA, 0xFE, 0xBA, 0xBE, 0x00, 0x00, 0x00, 0x34, 0x00, 0x01, 0x00, 0x01];
    assert!(matches!(ClassInfo::parse(&b), Err(ParseError::UnexpectedEof)));
}

#[test]
fn member_flags_before_short_member() {
    let pool = ConstantPool(Vec::new());
    assert!(matches!(MethodInfo::parse(&[0xFF, 0xFF], 0, &pool), Err(ParseError::UnknownAccessFlags)));
    assert!(matches!(FieldInfo::parse(&[0x80, 0x00, 0x00], 0, &pool), Err(ParseError::UnknownAccessFlags)));
    assert!(matches!(MethodInfo::parse(&[0x00, 0x01], 0, &pool), Err(ParseError::UnexpectedEof)));
}

#[test]
fn attribute_index_checks() {
    let pool = named_pool(&["ConstantValue", "EnclosingMethod", "LocalVariableTable"]);
    let b = [0x00, 0x01, 0x00, 0x00, 0x00, 0x02, 0x00, 0x09];
    assert!(matches!(AttributeInfo::parse(&b, 0, &pool), Err(ParseError::InvalidPoolIndex)));
    let b = [0x00, 0x02, 0x00, 0x00, 0x00, 0x04, 0x00, 0x01, 0x00, 0x00];
    assert!(matches!(AttributeInfo::parse(&b, 0, &pool).unwrap().0, AttributeInfo::EnclosingMethod { class_index: 1, method_index: 0 }));
    let b = [0x00, 0x03, 0x00, 0x00, 0x00, 0x0C, 0x00, 0x01, 0x00, 0x00, 0x00, 0x05, 0x00, 0x00, 0x00, 0x02, 0x00, 0x03];
    assert!(matches!(AttributeInfo::parse(&b, 0, &pool), Err(ParseError::InvalidPoolIndex)));
}

#[test]
fn code_index_checks() {
    let pool = ConstantPool(vec![ConstantInfo::Integer { bytes: 4 }]);
    // ldc #1 is fine, ldc #2 is past the pool
    let ok = [0x00, 0x01, 0x00, 0x01, 0x00, 0x00, 0x00, 0x03, 0x12, 0x01, 0xAC, 0x00, 0x00, 0x00, 0x00];
    assert!(jvmclass::code::Code::parse(&ok, 0, &pool).is_ok());
    let bad = [0x00, 0x01, 0x00, 0x01, 0x00, 0x00, 0x00, 0x03, 0x12, 0x02, 0xAC, 0x00, 0x00, 0x00, 0x00];
    assert!(matches!(jvmclass::code::Code::parse(&bad, 0, &pool), Err(ParseError::InvalidPoolIndex)));
    // one exception row whose catch type is past the pool
    let rows = [0x00, 0x01, 0x00, 0x01, 0x00, 0x00, 0x00, 0x01, 0xB1, 0x00, 0x01, 0x00, 0x00, 0x00, 0x01, 0x00, 0x00, 0x00, 0x07, 0x00, 0x00];
    assert!(matches!(jvmclass::code::Code::parse(&rows, 0, &pool), Err(ParseError::InvalidPoolIndex)));
    let zero = [0x00, 0x01, 0x00, 0x01, 0x00, 0x00, 0x00, 0x01, 0xB1, 0x00, 0x01, 0x00, 0x00, 0x00, 0x01, 0x00, 0x00, 0x00, 0x00, 0x00, 0x00];
    assert_eq!(jvmclass::code::Code::parse(&zero, 0, &pool).unwrap().0.exception_table.len(), 1);
}

#[test]
fn code_shorter_than_declared() {
    let pool = ConstantPool(Vec::new());
    let b = [0x00, 0x01, 0x00, 0x01, 0x00, 0x00, 0x00, 0x05, 0x00, 0x00];
    assert!(matches!(jvmclass::code::Code::parse(&b, 0, &pool), Err(ParseError::TruncatedCode)));
}
