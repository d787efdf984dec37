use lifeline::analysis::ProgramLifetimes;
use lifeline::ir::{BasicBlock, Function, Instruction, Load, Module, Name, Operand, Parameter, Store, Type};
use lifeline::results::pretty_print_module;

fn i32_ty() -> Type {
    Type::IntegerType { bits: 32 }
}

fn ptr(t: Type) -> Type {
    Type::PointerType { pointee_type: Box::new(t), addr_space: 0 }
}

fn local(n: usize, ty: Type) -> Operand {
    Operand::LocalOperand { name: Name::Number(n), ty }
}

/// The function that `clang -O0 -emit-llvm` (LLVM 14, typed pointers) emits
/// for `void test(T a) { U get = *a; }`, where `a` has type `param_ty` and
/// `get` has its pointee type:
///
/// ```text
/// %2 = alloca T
/// %3 = alloca U
/// store T %0, T* %2
/// %4 = load T, T* %2
/// %5 = load U, T %4
/// store U %5, U* %3
/// ret void
/// ```
fn deref_function(param_ty: Type, pointee_ty: Type) -> Function {
    let instrs = vec![
        Instruction::Alloca,
        Instruction::Alloca,
        Instruction::Store(Store {
            address: local(2, ptr(param_ty.clone())),
            value: local(0, param_ty.clone()),
        }),
        Instruction::Load(Load { address: local(2, ptr(param_ty.clone())), dest: Name::Number(4) }),
        Instruction::Load(Load { address: local(4, param_ty.clone()), dest: Name::Number(5) }),
        Instruction::Store(Store {
            address: local(3, ptr(pointee_ty.clone())),
            value: local(5, pointee_ty.clone()),
        }),
        Instruction::Other,
    ];
    Function {
        name: "test".to_string(),
        parameters: vec![Parameter { name: Name::Number(0), ty: param_ty }],
        basic_blocks: vec![BasicBlock { instrs }],
    }
}

/// The module that clang emits for the C source of one of the tests below.
fn compile(c_function: &str) -> Module {
    let function = if c_function.contains("int * * a") {
        deref_function(ptr(ptr(i32_ty())), ptr(i32_ty()))
    } else if c_function.contains("int * a") {
        deref_function(ptr(i32_ty()), i32_ty())
    } else {
        panic!("no module recorded for this source")
    };
    Module { functions: vec![function] }
}

fn run_inference(str: &str) -> String {
    let module = compile(str);
    let mut lifetimes: ProgramLifetimes = ProgramLifetimes::new(&module);
    pretty_print_module(&mut lifetimes, &module)
}

fn assert_lt(c_function: &str, contract: &str) {
    let compiled_contract = run_inference(&c_function);
    assert!(compiled_contract == contract);
}

#[test]
fn test_single_ptr() {
    assert_lt(
        "
    void test(int * a) {
        int get = *a;
    };
    ",
        "('a)",
    );
}

#[test]
fn test_double_ptr() {
    assert_lt(
        "
    void test(int * * a) {
        int * get = *a;
    };
    ",
        "('a, 'b)",
    );
}
