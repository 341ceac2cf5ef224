use jvmclass::class::ConstantInfo;
use jvmclass::types::Type;

#[test]
fn primitive_field_types() {
    assert!(matches!(Type::parse_str("I"), Some(Type::Int)));
    assert!(matches!(Type::parse_str("J"), Some(Type::Long)));
    assert!(matches!(Type::parse_str("Z"), Some(Type::Boolean)));
    assert!(Type::parse_str("V").is_none());
    assert!(Type::parse_str("").is_none());
    assert!(Type::parse_str("II").is_none());
}

#[test]
fn class_and_array_types() {
    match Type::parse_str("[Ljava/lang/String;") {
        Some(Type::Array { component }) => match *component {
            Type::Class { name } => assert_eq!(name, "java/lang/String"),
            _ => panic!("expected a class component"),
        },
        _ => panic!("expected an array"),
    }
    assert!(Type::parse_str("L;").is_none());
    assert!(Type::parse_str("Ljava/lang/String").is_none());
}

#[test]
fn parse_at_position() {
    let b = b"([[DLa;)V";
    let (t, end) = Type::parse(b, 1, false).unwrap();
    assert_eq!(end, 4);
    assert_eq!(t, Type::Array { component: Box::new(Type::Array { component: Box::new(Type::Double) }) });
    let (t, end) = Type::parse(b, 8, true).unwrap();
    assert_eq!(end, 9);
    assert_eq!(t, Type::Void);
    assert!(Type::parse(b, 8, false).is_none());
}

#[test]
fn method_descriptors() {
    let md = ConstantInfo::parse_method_descriptor("(IJ[Ljava/lang/Object;)V").unwrap();
    assert_eq!(md.params.len(), 3);
    assert_eq!(md.params[0], Type::Int);
    assert_eq!(md.params[1], Type::Long);
    assert_eq!(md.return_type, Type::Void);
    let md = ConstantInfo::parse_method_descriptor("()Ljava/lang/String;").unwrap();
    assert!(md.params.is_empty());
    assert_eq!(md.return_type, Type::Class { name: "java/lang/String".to_string() });
    assert!(ConstantInfo::parse_method_descriptor("(V)V").is_none());
    assert!(ConstantInfo::parse_method_descriptor("(I").is_none());
    assert!(ConstantInfo::parse_method_descriptor("()").is_none());
    assert!(ConstantInfo::parse_method_descriptor("()VV").is_none());
}
