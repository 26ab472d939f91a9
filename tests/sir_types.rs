use scrap::generator::clone_name_string;
use scrap::sir::{decimal_string, field_name_string, BinaryOperation, DataType, Expression, PrimitiveDataType};

fn i64_type() -> DataType {
    DataType::Primitive(PrimitiveDataType::I64)
}

#[test]
fn mangled_names() {
    let t = DataType::Tuple(vec![i64_type(), DataType::Tuple(vec![i64_type(), i64_type()])]);
    let mut out = String::from(">");
    t.mangle(&mut out);
    assert_eq!(out, ">{I64,{I64,I64}}");
    let f = DataType::Primitive(PrimitiveDataType::Function { argument_types: vec![i64_type(), i64_type()], return_type: Box::new(t) });
    let mut out = String::new();
    f.mangle(&mut out);
    assert_eq!(out, "(I64,I64):{I64,{I64,I64}}");
    let mut out = String::new();
    DataType::Tuple(vec![]).mangle(&mut out);
    assert_eq!(out, "{}");
    assert_eq!(clone_name_string(&DataType::Tuple(vec![i64_type()])), "clone.{I64}");
}

#[test]
fn field_names_and_lookup() {
    let t = DataType::Tuple((0..12).map(|_| i64_type()).collect());
    let fields = t.fields();
    assert_eq!(fields.len(), 12);
    assert_eq!(fields[0].0, "elem_0");
    assert_eq!(fields[11].0, "elem_11");
    assert_eq!(t.field_index("elem_10"), Some(10));
    assert_eq!(t.field_index("elem_12"), None);
    assert_eq!(t.field_index("elem_01"), None);
    assert!(t.field_type("elem_3").is_some());
    assert!(t.field_type("x").is_none());
    assert!(i64_type().fields().is_empty());
    assert_eq!(i64_type().field_index("elem_0"), None);
}

#[test]
fn decimal_writing() {
    assert_eq!(decimal_string(0), "0");
    assert_eq!(decimal_string(120), "120");
    assert_eq!(decimal_string(usize::MAX), usize::MAX.to_string());
    assert_eq!(field_name_string(42), "elem_42");
}

#[test]
fn primitiveness_and_equality() {
    assert!(i64_type().is_primitive());
    assert!(!DataType::Tuple(vec![i64_type()]).is_primitive());
    let f = DataType::Primitive(PrimitiveDataType::Function { argument_types: vec![], return_type: Box::new(i64_type()) });
    assert!(f.is_primitive());
    assert!(f.same_as(&f.clone()));
    assert!(!f.same_as(&i64_type()));
    assert!(DataType::Tuple(vec![i64_type(), i64_type()]).same_as(&DataType::Tuple(vec![i64_type(), i64_type()])));
    assert!(!DataType::Tuple(vec![i64_type(), i64_type()]).same_as(&DataType::Tuple(vec![i64_type()])));
}

#[test]
fn expression_types() {
    let pair = Expression::Tuple { values: vec![Expression::I64Literal(1), Expression::I64Literal(2)] };
    let t = pair.data_type().unwrap();
    assert!(t.same_as(&DataType::Tuple(vec![i64_type(), i64_type()])));
    let second = Expression::MemberAccess { left: Box::new(pair.duplicate()), member: "elem_1".to_string() };
    assert!(second.data_type().unwrap().same_as(&i64_type()));
    let missing = Expression::MemberAccess { left: Box::new(pair), member: "elem_2".to_string() };
    assert!(missing.data_type().is_none());
    assert!(Expression::Reference { name: "x".to_string() }.data_type().is_none());
    let sum = Expression::BinaryOperation {
        operation: BinaryOperation::Add,
        left: Box::new(Expression::I64Literal(1)),
        right: Box::new(Expression::I64Literal(2)),
    };
    assert!(sum.data_type().unwrap().same_as(&i64_type()));
    let f = DataType::Primitive(PrimitiveDataType::Function { argument_types: vec![i64_type()], return_type: Box::new(DataType::Tuple(vec![i64_type()])) });
    let call = Expression::Call {
        function: Box::new(Expression::FunctionParam { index: 0, data_type: f }),
        arguments: vec![Expression::I64Literal(3)],
    };
    assert!(call.data_type().unwrap().same_as(&DataType::Tuple(vec![i64_type()])));
    let bad = Expression::Call { function: Box::new(Expression::I64Literal(3)), arguments: vec![] };
    assert!(bad.data_type().is_none());
}
