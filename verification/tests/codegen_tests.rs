use rompiler::ast::Program;
use rompiler::codegen::{compile_program, get_llvm_type, CodegenError, IntOp, IrFunction, IrOp, IrType, LoadName};
use rompiler::ast::Type;
use rompiler::lexer::Lexer;
use rompiler::parser::Parser;

fn parse(input: &str) -> Program {
    let lexer = Lexer::new(input);
    let mut parser = Parser::new(lexer);
    parser.parse_program()
}

fn plan(input: &str) -> Result<Vec<IrFunction>, CodegenError> {
    compile_program(&parse(input))
}

fn body(input: &str) -> Vec<IrOp> {
    let mut fns = plan(input).unwrap();
    fns.remove(0).body
}

fn i64t() -> IrType {
    IrType::Int(64)
}

fn arr5() -> IrType {
    IrType::Array(Box::new(i64t()), 5)
}

#[test]
fn plan_return_constant() {
    assert_eq!(
        body("func main() : i64 { return 5; }"),
        vec![IrOp::ConstInt { bits: 64, value: 5 }, IrOp::Return { value: 0 }]
    );
}

#[test]
fn plan_arithmetic_keeps_operands_in_order() {
    assert_eq!(
        body("func main() : i64 { return 6 * 7 - 67;}"),
        vec![
            IrOp::ConstInt { bits: 64, value: 6 },
            IrOp::ConstInt { bits: 64, value: 7 },
            IrOp::IntBinary { op: IntOp::Mul, lhs: 0, rhs: 1 },
            IrOp::ConstInt { bits: 64, value: 67 },
            IrOp::IntBinary { op: IntOp::Sub, lhs: 2, rhs: 3 },
            IrOp::Return { value: 4 },
        ]
    );
}

#[test]
fn plan_variables() {
    assert_eq!(
        body("func main() : i64 {const x : i64 = 5; return x;}"),
        vec![
            IrOp::Alloca { ty: i64t(), name: "x".to_string() },
            IrOp::ConstInt { bits: 64, value: 5 },
            IrOp::Store { ptr: 0, value: 1 },
            IrOp::Load { ty: i64t(), ptr: 0, name: LoadName::Var("x".to_string()) },
            IrOp::Return { value: 3 },
        ]
    );
}

#[test]
fn plan_assignment_to_variable() {
    assert_eq!(
        body("func main() : i64 { var x : i64 = 5; x = x + 10; return x; }"),
        vec![
            IrOp::Alloca { ty: i64t(), name: "x".to_string() },
            IrOp::ConstInt { bits: 64, value: 5 },
            IrOp::Store { ptr: 0, value: 1 },
            IrOp::Load { ty: i64t(), ptr: 0, name: LoadName::Var("x".to_string()) },
            IrOp::ConstInt { bits: 64, value: 10 },
            IrOp::IntBinary { op: IntOp::Add, lhs: 3, rhs: 4 },
            IrOp::Store { ptr: 0, value: 5 },
            IrOp::Load { ty: i64t(), ptr: 0, name: LoadName::Var("x".to_string()) },
            IrOp::Return { value: 7 },
        ]
    );
}

#[test]
fn assignment_to_constant_is_refused() {
    assert_eq!(
        plan("func main() : i64 {const x : i64 = 5; x = 10; return x;}"),
        Err(CodegenError::ConstantMutation)
    );
}

#[test]
fn plan_small_integer_and_double() {
    assert_eq!(
        body("func main() : i64 {const x : i8 = 5; const pi : f64 = 3.14;}"),
        vec![
            IrOp::Alloca { ty: IrType::Int(8), name: "x".to_string() },
            IrOp::ConstInt { bits: 8, value: 5 },
            IrOp::Store { ptr: 0, value: 1 },
            IrOp::Alloca { ty: IrType::F64, name: "pi".to_string() },
            IrOp::ConstFloat { wide: true, text: "3.14".to_string() },
            IrOp::Store { ptr: 3, value: 4 },
        ]
    );
}

#[test]
fn plan_pointers() {
    assert_eq!(
        body("func main() : i64 {var x : i64 = 5; const p : *i64 = &x; return *p;}"),
        vec![
            IrOp::Alloca { ty: i64t(), name: "x".to_string() },
            IrOp::ConstInt { bits: 64, value: 5 },
            IrOp::Store { ptr: 0, value: 1 },
            IrOp::Alloca { ty: IrType::Ptr, name: "p".to_string() },
            IrOp::Store { ptr: 3, value: 0 },
            IrOp::Load { ty: IrType::Ptr, ptr: 3, name: LoadName::Var("p".to_string()) },
            IrOp::Load { ty: i64t(), ptr: 5, name: LoadName::Deref },
            IrOp::Return { value: 6 },
        ]
    );
}

#[test]
fn plan_arrays() {
    assert_eq!(
        body("func main() : i64 {var arr: [5]i64; arr[2] = 10; return arr[2];}"),
        vec![
            IrOp::Alloca { ty: IrType::Array(Box::new(i64t()), 5), name: "arr".to_string() },
            IrOp::ConstInt { bits: 64, value: 2 },
            IrOp::ConstInt { bits: 64, value: 10 },
            IrOp::ElementPtr { ty: arr5(), ptr: 0, index: 1, name: "arr".to_string() },
            IrOp::Store { ptr: 3, value: 2 },
            IrOp::ConstInt { bits: 64, value: 2 },
            IrOp::ElementPtr { ty: arr5(), ptr: 0, index: 5, name: "arr".to_string() },
            IrOp::Load { ty: i64t(), ptr: 6, name: LoadName::Element },
            IrOp::Return { value: 7 },
        ]
    );
}

#[test]
fn plan_function_with_parameter() {
    let fns = plan("func square(x: i64) : i64 { return x * x; }").unwrap();
    assert_eq!(fns[0].name, "square");
    assert_eq!(fns[0].params, vec![i64t()]);
    assert_eq!(fns[0].ret, i64t());
    assert_eq!(
        fns[0].body,
        vec![
            IrOp::Alloca { ty: i64t(), name: "x".to_string() },
            IrOp::Param { index: 0 },
            IrOp::Store { ptr: 0, value: 1 },
            IrOp::Load { ty: i64t(), ptr: 0, name: LoadName::Var("x".to_string()) },
            IrOp::Load { ty: i64t(), ptr: 0, name: LoadName::Var("x".to_string()) },
            IrOp::IntBinary { op: IntOp::Mul, lhs: 3, rhs: 4 },
            IrOp::Return { value: 5 },
        ]
    );
    assert_eq!(
        fns[0].kinds,
        vec![
            Some(IrType::Ptr),
            Some(i64t()),
            None,
            Some(i64t()),
            Some(i64t()),
            Some(i64t()),
            None,
        ]
    );
}

#[test]
fn plan_function_call() {
    let fns = plan(
        "func add(x: i64, y: i64) : i64 { return x + y; } func main() : i64 { return add(5, 10); }",
    )
    .unwrap();
    assert_eq!(fns.len(), 2);
    assert_eq!(
        fns[1].body,
        vec![
            IrOp::ConstInt { bits: 64, value: 5 },
            IrOp::ConstInt { bits: 64, value: 10 },
            IrOp::Call { callee: "add".to_string(), args: vec![0, 1] },
            IrOp::Return { value: 2 },
        ]
    );
}

#[test]
fn plan_syscall() {
    let ops = body(
        "func main() : i64 {
         var arr: [50]u8;
         arr[0] = 72;
         arr[1] = 101;
         arr[2] = 108;
         arr[3] = 108;
         arr[4] = 111;
         arr[5] = 10;
         return syscall(1, 2, &arr, 6); 
         }",
    );
    let arr = IrType::Array(Box::new(IrType::Int(8)), 50);
    let mut expected = vec![IrOp::Alloca { ty: arr.clone(), name: "arr".to_string() }];
    for (i, c) in [72u64, 101, 108, 108, 111, 10].iter().enumerate() {
        let base = 1 + 4 * i;
        expected.push(IrOp::ConstInt { bits: 64, value: i as u64 });
        expected.push(IrOp::ConstInt { bits: 8, value: *c });
        expected.push(IrOp::ElementPtr { ty: arr.clone(), ptr: 0, index: base, name: "arr".to_string() });
        expected.push(IrOp::Store { ptr: base + 2, value: base + 1 });
    }
    expected.push(IrOp::ConstInt { bits: 64, value: 1 });
    expected.push(IrOp::ConstInt { bits: 64, value: 2 });
    expected.push(IrOp::ConstInt { bits: 64, value: 6 });
    expected.push(IrOp::Syscall { args: vec![25, 26, 0, 27] });
    expected.push(IrOp::Return { value: 28 });
    assert_eq!(ops, expected);
}

#[test]
fn plan_assignment_of_a_constant_value() {
    assert_eq!(
        body("func main() : i64 { var x : i64 = 5; x = 10; return x; } "),
        vec![
            IrOp::Alloca { ty: i64t(), name: "x".to_string() },
            IrOp::ConstInt { bits: 64, value: 5 },
            IrOp::Store { ptr: 0, value: 1 },
            IrOp::ConstInt { bits: 64, value: 10 },
            IrOp::Store { ptr: 0, value: 3 },
            IrOp::Load { ty: i64t(), ptr: 0, name: LoadName::Var("x".to_string()) },
            IrOp::Return { value: 5 },
        ]
    );
}

#[test]
fn loads_read_the_type_the_context_expects() {
    let ops = body("func main() : i64 { var x : [20]i64; const y : u32 = x[12]; var b : i8 = 1; const p : *i8 = &b; return *p; }");
    assert_eq!(
        ops[4],
        IrOp::Load { ty: IrType::Int(32), ptr: 3, name: LoadName::Element }
    );
    assert_eq!(ops[5], IrOp::Store { ptr: 1, value: 4 });
    assert_eq!(ops[ops.len() - 2], IrOp::Load { ty: i64t(), ptr: ops.len() - 3, name: LoadName::Deref });
}

#[test]
fn division_is_signed() {
    assert_eq!(
        body("func main() : i64 { return 7 / 2; }")[2],
        IrOp::IntBinary { op: IntOp::SignedDiv, lhs: 0, rhs: 1 }
    );
}

#[test]
fn negative_literal_bits() {
    assert_eq!(
        body("func main() : i64 { return 0 - 1; }")[0],
        IrOp::ConstInt { bits: 64, value: 0 }
    );
}

#[test]
fn llvm_types_of_source_types() {
    assert_eq!(get_llvm_type(&Type::U16), IrType::Int(16));
    assert_eq!(get_llvm_type(&Type::F32), IrType::F32);
    assert_eq!(
        get_llvm_type(&Type::Pointer(Box::new(Type::Array(Box::new(Type::I32), 4)))),
        IrType::Ptr
    );
    assert_eq!(get_llvm_type(&Type::Pointer(Box::new(Type::I8))), IrType::Ptr);
    assert_eq!(get_llvm_type(&Type::Pointer(Box::new(Type::I64))), IrType::Ptr);
    assert_eq!(
        get_llvm_type(&Type::Array(Box::new(Type::U8), 4294967298)),
        IrType::Array(Box::new(IrType::Int(8)), 2)
    );
}

#[test]
fn each_error_is_reported() {
    assert_eq!(
        plan("func main() : i64 { y = 1; }"),
        Err(CodegenError::UndeclaredVariable)
    );
    assert_eq!(
        plan("func main() : i64 { return y; }"),
        Err(CodegenError::UndeclaredInExpression)
    );
    assert_eq!(
        plan("func main() : i64 { const a: [2]i64; a[0] = 1; }"),
        Err(CodegenError::ConstantArrayMutation)
    );
    assert_eq!(
        plan("func main() : i64 { return &5; }"),
        Err(CodegenError::AddressOfNonIdentifier)
    );
    assert_eq!(
        plan("func main() : i64 { return 5[1]; }"),
        Err(CodegenError::IndexOfNonIdentifier)
    );
    assert_eq!(
        plan("func main() : i64 { return nothing(); }"),
        Err(CodegenError::FunctionNotFound)
    );
    assert_eq!(
        plan("func one(a: i64) : i64 { return a; } func main() : i64 { return one(1, 2); }"),
        Err(CodegenError::MissingParameter)
    );
    assert_eq!(
        plan("func main() : i64 { const x: f64 = 1; }"),
        Err(CodegenError::NotIntType)
    );
    assert_eq!(
        plan("func main() : i64 { return 3.5; }"),
        Err(CodegenError::NotFloatType)
    );
    assert_eq!(
        plan("func main() : i64 { var f: f64 = 1.0; return f + 1; }"),
        Err(CodegenError::NotIntValue)
    );
    assert_eq!(
        plan("func main() : i64 { var n: i64 = 1; var f: f64 = n + 1.5; }"),
        Err(CodegenError::NotFloatValue)
    );
    assert_eq!(
        plan("func main() : i64 { var x: i64 = 1; return *x; }"),
        Err(CodegenError::NotPointerValue)
    );
    assert_eq!(
        plan("func main() : i64 { var x: i64; x[0] = 1; }"),
        Err(CodegenError::NotAnArray)
    );
}

#[test]
fn first_error_in_source_order_wins() {
    assert_eq!(
        plan("func a() : i64 { return q; } func b() : i64 { z = 1; }"),
        Err(CodegenError::UndeclaredInExpression)
    );
}

#[test]
fn body_of_a_repeated_name_uses_first_signature() {
    assert_eq!(
        plan("func f() : i64 { return 1; } func f(x: i64) : i64 { return x; }"),
        Err(CodegenError::MissingParameter)
    );
}

#[test]
fn later_declaration_shadows_earlier() {
    let ops = body("func main() : i64 { const x: i64 = 1; var x: i8 = 2; x = 3; }");
    assert_eq!(ops[6], IrOp::ConstInt { bits: 8, value: 3 });
    assert_eq!(ops[7], IrOp::Store { ptr: 3, value: 6 });
}
