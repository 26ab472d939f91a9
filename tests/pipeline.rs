use scrap::compile::{compile as compile_module, CompileError};
use scrap::generator::{generate, Generator, LoweringError};
use scrap::passes::build_function_params::build_function_params;
use scrap::passes::build_global_references::{build_global_references, find_reference, global_type};
use scrap::passes::remove_scopes::remove_scopes;
use scrap::sir::{BinaryOperation, DataType, Expression, Global, Module, PrimitiveDataType};
use scrap::target::{Callee, Instruction, Passing, TargetModule};

fn i64_type() -> DataType {
    DataType::Primitive(PrimitiveDataType::I64)
}

fn tuple(elements: Vec<DataType>) -> DataType {
    DataType::Tuple(elements)
}

fn function(argument_types: Vec<DataType>, return_type: DataType) -> DataType {
    DataType::Primitive(PrimitiveDataType::Function { argument_types, return_type: Box::new(return_type) })
}

fn lit(value: i64) -> Expression {
    Expression::I64Literal(value)
}

fn add(left: Expression, right: Expression) -> Expression {
    Expression::BinaryOperation { operation: BinaryOperation::Add, left: Box::new(left), right: Box::new(right) }
}

fn reference(name: &str) -> Expression {
    Expression::Reference { name: name.to_string() }
}

fn scope(name: &str, value: Expression, body: Expression) -> Expression {
    Expression::Scope { name: name.to_string(), value: Box::new(value), body: Box::new(body) }
}

fn call(function: Expression, arguments: Vec<Expression>) -> Expression {
    Expression::Call { function: Box::new(function), arguments }
}

fn member(left: Expression, name: &str) -> Expression {
    Expression::MemberAccess { left: Box::new(left), member: name.to_string() }
}

fn tuple_of(values: Vec<Expression>) -> Expression {
    Expression::Tuple { values }
}

fn constant(data_type: DataType, body: Expression) -> Global {
    Global { arguments: Vec::new(), return_type: data_type, body }
}

fn func(arguments: Vec<(&str, DataType)>, return_type: DataType, body: Expression) -> Global {
    Global {
        arguments: arguments.into_iter().map(|(n, t)| (n.to_string(), t)).collect(),
        return_type,
        body,
    }
}

fn compile(globals: Vec<(&str, Global)>) -> TargetModule {
    let mut module = Module::new();
    for (name, global) in globals {
        module.insert(name.to_string(), global);
    }
    remove_scopes(&mut module);
    build_function_params(&mut module);
    build_global_references(&mut module).expect("every name resolves");
    generate(&module).expect("every global lowers")
}

fn size_of(t: &DataType) -> usize {
    match t {
        DataType::Primitive(_) => 1,
        DataType::Tuple(elements) => elements.iter().map(size_of).sum(),
    }
}

const FUNCTION_BASE: i64 = 1 << 40;

/// Runs lowered code: registers per call, one flat memory of words.
struct Machine<'a> {
    module: &'a TargetModule,
    memory: Vec<i64>,
}

impl<'a> Machine<'a> {
    fn new(module: &'a TargetModule) -> Self {
        Machine { module, memory: Vec::new() }
    }

    fn index_of(&self, name: &str) -> usize {
        self.module.functions.iter().position(|f| f.name == name).expect("function exists")
    }

    fn call(&mut self, name: &str, arguments: &[i64]) -> Option<i64> {
        let index = self.index_of(name);
        self.run(index, arguments)
    }

    fn allocate(&mut self, words: usize) -> i64 {
        let at = self.memory.len();
        self.memory.resize(at + words, 0);
        at as i64
    }

    fn run(&mut self, index: usize, arguments: &[i64]) -> Option<i64> {
        let module = self.module;
        let function = &module.functions[index];
        assert_eq!(function.signature.parameters.len(), arguments.len());
        let mut registers: Vec<i64> = Vec::new();
        let set = |registers: &mut Vec<i64>, r: usize, v: i64| {
            assert_eq!(registers.len(), r, "registers are defined in order");
            registers.push(v);
        };
        for instruction in function.body.iter() {
            match instruction {
                Instruction::Constant { result, constant } => set(&mut registers, *result, *constant),
                Instruction::Add { result, left, right } => {
                    let v = registers[*left].wrapping_add(registers[*right]);
                    set(&mut registers, *result, v)
                }
                Instruction::Parameter { result, index } => set(&mut registers, *result, arguments[*index as usize]),
                Instruction::FunctionAddress { result, name } => {
                    let v = FUNCTION_BASE + self.index_of(name) as i64;
                    set(&mut registers, *result, v)
                }
                Instruction::Call { output, callee, arguments } => {
                    let target = match callee {
                        Callee::Direct(name) => self.index_of(name),
                        Callee::Indirect(r) => (registers[*r] - FUNCTION_BASE) as usize,
                    };
                    let values: Vec<i64> = arguments.iter().map(|r| registers[*r]).collect();
                    let returned = self.run(target, &values);
                    if let Some(r) = output {
                        set(&mut registers, *r, returned.expect("a value is returned"));
                    }
                }
                Instruction::Allocate { result, data_type } => {
                    let at = self.allocate(size_of(data_type));
                    set(&mut registers, *result, at)
                }
                Instruction::FieldAddress { result, base, data_type, index } => {
                    let DataType::Tuple(elements) = data_type else { panic!("fields belong to tuples") };
                    let offset: usize = elements[..*index].iter().map(size_of).sum();
                    let v = registers[*base] + offset as i64;
                    set(&mut registers, *result, v)
                }
                Instruction::Load { result, address, .. } => {
                    let v = self.memory[registers[*address] as usize];
                    set(&mut registers, *result, v)
                }
                Instruction::Store { address, value } => {
                    self.memory[registers[*address] as usize] = registers[*value];
                }
                Instruction::Copy { destination, source, data_type } => {
                    let (d, s) = (registers[*destination] as usize, registers[*source] as usize);
                    for k in 0..size_of(data_type) {
                        self.memory[d + k] = self.memory[s + k];
                    }
                }
                Instruction::Return { returned } => return returned.map(|r| registers[r]),
            }
        }
        panic!("a body ends with a return")
    }
}

#[test]
fn literal_constant_evaluates() {
    let module = compile(vec![("test1", constant(i64_type(), lit(123)))]);
    assert_eq!(Machine::new(&module).call("test1", &[]), Some(123));
}

#[test]
fn nested_additions_evaluate() {
    let module = compile(vec![("test2", constant(i64_type(), add(add(lit(123), lit(456)), lit(789))))]);
    assert_eq!(Machine::new(&module).call("test2", &[]), Some(1368));
}

#[test]
fn block_bindings_are_substituted() {
    let body = scope("a", lit(123), scope("b", lit(456), add(reference("a"), reference("b"))));
    let mut module = Module::new();
    module.insert("test3".to_string(), constant(i64_type(), body));
    remove_scopes(&mut module);
    assert_eq!(format!("{:?}", module.globals[0].1.body), format!("{:?}", add(lit(123), lit(456))));
    build_function_params(&mut module);
    build_global_references(&mut module).unwrap();
    let lowered = generate(&module).unwrap();
    assert_eq!(Machine::new(&lowered).call("test3", &[]), Some(579));
}

#[test]
fn function_applied_to_a_constant() {
    let module = compile(vec![
        ("test2", constant(i64_type(), add(add(lit(123), lit(456)), lit(789)))),
        ("increment", func(vec![("i", i64_type())], i64_type(), add(reference("i"), lit(1)))),
        ("test4", constant(i64_type(), call(reference("increment"), vec![reference("test2")]))),
    ]);
    assert_eq!(Machine::new(&module).call("test4", &[]), Some(1369));
}

#[test]
fn forward_reference_between_globals() {
    let module = compile(vec![
        ("test4", constant(i64_type(), call(reference("increment"), vec![lit(41)]))),
        ("increment", func(vec![("i", i64_type())], i64_type(), add(reference("i"), lit(1)))),
    ]);
    assert_eq!(Machine::new(&module).call("test4", &[]), Some(42));
}

#[test]
fn pair_passed_by_pointer_is_not_mutated() {
    let pair = tuple(vec![i64_type(), i64_type()]);
    let module = compile(vec![
        ("add", func(vec![("pair", pair.clone())], i64_type(), add(member(reference("pair"), "elem_0"), member(reference("pair"), "elem_1")))),
        ("test5", constant(i64_type(), call(reference("add"), vec![tuple_of(vec![lit(3), lit(4)])]))),
    ]);
    let mut machine = Machine::new(&module);
    assert_eq!(machine.call("test5", &[]), Some(7));
    let at = machine.allocate(2);
    machine.memory[at as usize] = 3;
    machine.memory[at as usize + 1] = 4;
    assert_eq!(machine.call("add", &[at]), Some(7));
    assert_eq!(&machine.memory[at as usize..at as usize + 2], &[3, 4]);
    let add_function = &module.functions[0];
    assert!(matches!(add_function.signature.parameters[0], Passing::ByPointer(_)));
    assert!(!add_function.body.iter().any(|i| matches!(i, Instruction::Store { .. } | Instruction::Copy { .. })));
}

#[test]
fn tuple_constant_is_laid_out_in_field_order() {
    let t = tuple(vec![tuple(vec![i64_type(), i64_type()]), i64_type(), tuple(vec![i64_type(), i64_type(), i64_type()])]);
    let value = tuple_of(vec![
        tuple_of(vec![add(lit(1), lit(4)), lit(2)]),
        lit(1),
        tuple_of(vec![lit(1), lit(2), lit(3)]),
    ]);
    let module = compile(vec![("test", constant(t, value))]);
    let mut machine = Machine::new(&module);
    let at = machine.allocate(6);
    assert_eq!(machine.call("test", &[at]), None);
    assert_eq!(&machine.memory[at as usize..at as usize + 6], &[5, 2, 1, 1, 2, 3]);
    assert_eq!(machine.memory[at as usize], 5);
}

#[test]
fn tuple_parameter_is_copied_not_aliased() {
    let pair = tuple(vec![i64_type(), i64_type()]);
    let module = compile(vec![("identity", func(vec![("p", pair.clone())], pair.clone(), reference("p")))]);
    let names: Vec<&str> = module.functions.iter().map(|f| f.name.as_str()).collect();
    assert_eq!(names, vec!["identity", "clone.{I64,I64}"]);
    let mut machine = Machine::new(&module);
    let source = machine.allocate(2);
    machine.memory[source as usize] = 8;
    machine.memory[source as usize + 1] = 9;
    let destination = machine.allocate(2);
    assert_eq!(machine.call("identity", &[source, destination]), None);
    assert_eq!(&machine.memory[destination as usize..destination as usize + 2], &[8, 9]);
    machine.memory[destination as usize] = 100;
    assert_eq!(&machine.memory[source as usize..source as usize + 2], &[8, 9]);
}

#[test]
fn clone_routine_is_made_once_per_type() {
    let pair = tuple(vec![i64_type(), i64_type()]);
    let nested = tuple(vec![pair.clone(), i64_type()]);
    let module = compile(vec![
        ("first", func(vec![("p", nested.clone())], pair.clone(), member(reference("p"), "elem_0"))),
        ("again", func(vec![("q", pair.clone())], pair.clone(), reference("q"))),
        ("copy", func(vec![("n", nested.clone())], nested.clone(), reference("n"))),
    ]);
    let clones: Vec<&str> = module.functions.iter().map(|f| f.name.as_str()).filter(|n| n.starts_with("clone.")).collect();
    assert_eq!(clones, vec!["clone.{I64,I64}", "clone.{{I64,I64},I64}"]);
    let mut machine = Machine::new(&module);
    let source = machine.allocate(3);
    machine.memory[source as usize..source as usize + 3].copy_from_slice(&[1, 2, 3]);
    let destination = machine.allocate(2);
    machine.call("first", &[source, destination]);
    assert_eq!(&machine.memory[destination as usize..destination as usize + 2], &[1, 2]);
}

#[test]
fn higher_order_function_value() {
    let unary = function(vec![i64_type()], i64_type());
    let module = compile(vec![
        ("increment", func(vec![("i", i64_type())], i64_type(), add(reference("i"), lit(1)))),
        ("apply", func(vec![("f", unary.clone()), ("x", i64_type())], i64_type(), call(reference("f"), vec![reference("x")]))),
        ("test", constant(i64_type(), call(reference("apply"), vec![reference("increment"), lit(9)]))),
    ]);
    assert_eq!(Machine::new(&module).call("test", &[]), Some(10));
}

#[test]
fn call_returning_a_tuple_fills_caller_storage() {
    let pair = tuple(vec![i64_type(), i64_type()]);
    let module = compile(vec![
        ("make", func(vec![("x", i64_type())], pair.clone(), tuple_of(vec![reference("x"), add(reference("x"), lit(1))]))),
        ("second", constant(i64_type(), member(call(reference("make"), vec![lit(5)]), "elem_1"))),
    ]);
    assert_eq!(Machine::new(&module).call("second", &[]), Some(6));
    let make = &module.functions[0];
    assert_eq!(make.signature.parameters.len(), 2);
    assert!(matches!(make.signature.parameters[1], Passing::ByPointer(_)));
    assert!(make.signature.result.is_none());
}

#[test]
fn signature_follows_types() {
    let pair = tuple(vec![i64_type(), i64_type()]);
    let mut generator = Generator::new();
    generator.declare_global_function("f".to_string(), &[("a".to_string(), i64_type()), ("b".to_string(), pair.clone())], &pair);
    generator.declare_global_constant("c".to_string(), &i64_type());
    let module = generator.build();
    let f = &module.functions[0];
    assert_eq!(f.signature.parameters.len(), 3);
    assert!(matches!(f.signature.parameters[0], Passing::ByValue(_)));
    assert!(matches!(f.signature.parameters[1], Passing::ByPointer(_)));
    assert!(matches!(f.signature.parameters[2], Passing::ByPointer(_)));
    assert!(f.signature.result.is_none());
    let c = &module.functions[1];
    assert!(c.signature.parameters.is_empty());
    assert!(matches!(c.signature.result, Some(DataType::Primitive(PrimitiveDataType::I64))));
    assert!(c.body.is_empty());
}

#[test]
fn writing_an_undeclared_global_fails() {
    let mut generator = Generator::new();
    let r = generator.write_global_primitive_constant("missing", &lit(1));
    assert!(matches!(r, Err(LoweringError::Undeclared { global }) if global == "missing"));
}

#[test]
fn writing_a_global_twice_fails() {
    let mut generator = Generator::new();
    generator.declare_global_constant("c".to_string(), &i64_type());
    assert!(generator.write_global_primitive_constant("c", &lit(1)).is_ok());
    let r = generator.write_global_primitive_constant("c", &lit(2));
    assert!(matches!(r, Err(LoweringError::Redefined { global }) if global == "c"));
}

#[test]
fn unsupported_operator_fails() {
    let mut generator = Generator::new();
    generator.declare_global_constant("c".to_string(), &i64_type());
    let divide = Expression::BinaryOperation {
        operation: BinaryOperation::Divide,
        left: Box::new(lit(6)),
        right: Box::new(lit(3)),
    };
    let r = generator.write_global_primitive_constant("c", &divide);
    assert!(matches!(r, Err(LoweringError::Unsupported { global, .. }) if global == "c"));
}

#[test]
fn leftover_reference_fails_lowering() {
    let mut module = Module::new();
    module.insert("c".to_string(), constant(i64_type(), reference("nowhere")));
    let r = generate(&module);
    assert!(matches!(r, Err(LoweringError::Unsupported { global, expression: Expression::Reference { .. } }) if global == "c"));
}

#[test]
fn unbound_name_is_reported() {
    let mut module = Module::new();
    module.insert("f".to_string(), func(vec![("x", i64_type())], i64_type(), add(reference("x"), reference("y"))));
    build_function_params(&mut module);
    let r = build_global_references(&mut module);
    let error = r.unwrap_err();
    assert_eq!(error.global, "f");
    assert_eq!(error.name, "y");
}

#[test]
fn passes_leave_no_bindings_or_names() {
    let mut module = Module::new();
    module.insert("k".to_string(), constant(i64_type(), lit(2)));
    module.insert(
        "f".to_string(),
        func(vec![("x", i64_type())], i64_type(), scope("y", add(reference("x"), reference("k")), tuple_of(vec![reference("y"), reference("y")]))),
    );
    remove_scopes(&mut module);
    assert!(!format!("{:?}", module.globals[1].1.body).contains("Scope"));
    build_function_params(&mut module);
    let text = format!("{:?}", module.globals[1].1.body);
    assert!(!text.contains("name: \"x\""));
    assert!(text.contains("FunctionParam { index: 0"));
    build_global_references(&mut module).unwrap();
    assert!(find_reference(&module.globals[1].1.body).is_none());
    assert!(format!("{:?}", module.globals[1].1.body).contains("GlobalReference { name: \"k\""));
}

#[test]
fn first_parameter_of_a_duplicated_name_wins() {
    let mut module = Module::new();
    module.insert("f".to_string(), func(vec![("x", i64_type()), ("x", i64_type())], i64_type(), reference("x")));
    build_function_params(&mut module);
    assert!(format!("{:?}", module.globals[0].1.body).starts_with("FunctionParam { index: 0"));
}

#[test]
fn global_type_of_constant_and_function() {
    let c = constant(i64_type(), lit(1));
    assert!(matches!(global_type(&c), DataType::Primitive(PrimitiveDataType::I64)));
    let f = func(vec![("a", i64_type())], tuple(vec![i64_type()]), tuple_of(vec![reference("a")]));
    let mut text = String::new();
    global_type(&f).mangle(&mut text);
    assert_eq!(text, "(I64):{I64}");
}

#[test]
fn insert_replaces_a_global_of_the_same_name() {
    let mut module = Module::new();
    module.insert("a".to_string(), constant(i64_type(), lit(1)));
    module.insert("b".to_string(), constant(i64_type(), lit(2)));
    module.insert("a".to_string(), constant(i64_type(), lit(3)));
    assert_eq!(module.globals.len(), 2);
    assert_eq!(module.globals[0].0, "a");
    assert!(matches!(module.globals[0].1.body, Expression::I64Literal(3)));
}

#[test]
fn compile_runs_every_pass() {
    let mut module = Module::new();
    module.insert("increment".to_string(), func(vec![("i", i64_type())], i64_type(), add(reference("i"), lit(1))));
    module.insert(
        "test".to_string(),
        constant(i64_type(), scope("a", lit(2), call(reference("increment"), vec![reference("a")]))),
    );
    let lowered = compile_module(&mut module).unwrap();
    assert_eq!(Machine::new(&lowered).call("test", &[]), Some(3));
}

#[test]
fn compile_rejects_duplicate_names() {
    let mut module = Module::new();
    module.globals.push(("a".to_string(), constant(i64_type(), lit(1))));
    module.globals.push(("a".to_string(), constant(i64_type(), lit(2))));
    assert!(matches!(compile_module(&mut module), Err(CompileError::DuplicateGlobal { name }) if name == "a"));
}

#[test]
fn compile_reports_unbound_names() {
    let mut module = Module::new();
    module.insert("a".to_string(), constant(i64_type(), reference("b")));
    assert!(matches!(compile_module(&mut module), Err(CompileError::Unresolved(u)) if u.name == "b" && u.global == "a"));
}

#[test]
fn lowering_error_names_the_failing_part() {
    let mut module = Module::new();
    module.insert("c".to_string(), constant(i64_type(), add(lit(1), add(lit(2), reference("y")))));
    let r = generate(&module);
    match r {
        Err(LoweringError::Unsupported { global, expression }) => {
            assert_eq!(global, "c");
            assert!(format!("{:?}", expression).contains("Reference { name: \"y\" }"));
            assert!(expression.data_type().is_none());
        }
        other => panic!("expected a lowering error, got {:?}", other.is_ok()),
    }
}

#[test]
fn body_of_the_wrong_kind_is_reported_whole() {
    let mut generator = Generator::new();
    generator.declare_global_constant("c".to_string(), &i64_type());
    let pair = tuple_of(vec![lit(1), lit(2)]);
    let r = generator.write_global_primitive_constant("c", &pair);
    assert!(matches!(r, Err(LoweringError::Unsupported { global, expression: Expression::Tuple { .. } }) if global == "c"));
}
