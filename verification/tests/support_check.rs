use lifeline::ir::{
    BasicBlock, BitCast, Call, Callee, Constant, Function, Instruction, Load, Module, Name, Operand,
    Parameter, Store, Type,
};
use lifeline::analysis::{try_analyse_function, IntraLifetimeAnalysis};
use lifeline::support::{analyse_module, function_ok, module_ok};

fn i32_ty() -> Type {
    Type::IntegerType { bits: 32 }
}

fn ptr(t: Type) -> Type {
    Type::PointerType { pointee_type: Box::new(t), addr_space: 0 }
}

fn local(n: usize, ty: Type) -> Operand {
    Operand::LocalOperand { name: Name::Number(n), ty }
}

fn function(name: &str, parameters: Vec<Parameter>, instrs: Vec<Instruction>) -> Function {
    Function { name: name.to_string(), parameters, basic_blocks: vec![BasicBlock { instrs }] }
}

fn param(n: usize, ty: Type) -> Parameter {
    Parameter { name: Name::Number(n), ty }
}

fn global_call(callee: &str, dest: Option<Name>) -> Instruction {
    Instruction::Call(Call {
        function: Callee::Operand(Operand::ConstantOperand(Constant::GlobalReference {
            name: Name::Name(callee.to_string()),
        })),
        dest,
    })
}

#[test]
fn pointer_chains_of_integers_are_supported() {
    let f = function(
        "f",
        vec![param(0, ptr(ptr(i32_ty())))],
        vec![
            Instruction::Alloca,
            Instruction::Load(Load { address: local(0, ptr(ptr(i32_ty()))), dest: Name::Number(1) }),
            Instruction::Store(Store { address: local(1, ptr(i32_ty())), value: local(2, i32_ty()) }),
            Instruction::BitCast(BitCast { operand: local(1, ptr(i32_ty())), dest: Name::Number(3) }),
            global_call("g", None),
            Instruction::Other,
        ],
    );
    assert!(function_ok(&f));
}

#[test]
fn a_parameter_of_another_type_is_refused() {
    let f = function("f", vec![param(0, ptr(Type::Other))], vec![]);
    assert!(!function_ok(&f));
}

#[test]
fn a_load_through_a_constant_is_refused() {
    let f = function(
        "f",
        vec![],
        vec![Instruction::Load(Load {
            address: Operand::ConstantOperand(Constant::Other),
            dest: Name::Number(1),
        })],
    );
    assert!(!function_ok(&f));
}

#[test]
fn a_store_of_a_constant_is_supported_wherever_it_goes() {
    let f = function(
        "f",
        vec![],
        vec![Instruction::Store(Store {
            address: Operand::ConstantOperand(Constant::Other),
            value: Operand::ConstantOperand(Constant::Other),
        })],
    );
    assert!(function_ok(&f));
}

#[test]
fn calls_through_locals_or_inline_assembly_are_refused() {
    let through_local = function(
        "f",
        vec![],
        vec![Instruction::Call(Call { function: Callee::Operand(local(0, ptr(i32_ty()))), dest: None })],
    );
    assert!(!function_ok(&through_local));
    let assembly = function(
        "f",
        vec![],
        vec![Instruction::Call(Call { function: Callee::InlineAssembly, dest: None })],
    );
    assert!(!function_ok(&assembly));
}

#[test]
fn a_global_call_is_supported_with_or_without_a_result() {
    let f = function(
        "f",
        vec![],
        vec![global_call("malloc", Some(Name::Number(1))), global_call("malloc", None)],
    );
    // a global's text starts with `%`, so neither call reads as `malloc`
    assert!(function_ok(&f));
}

#[test]
fn the_module_check_needs_every_function() {
    let good = function("good", vec![param(0, ptr(i32_ty()))], vec![Instruction::Other]);
    let bad = function("bad", vec![param(0, Type::Other)], vec![]);
    assert!(module_ok(&Module { functions: vec![] }));
    assert!(module_ok(&Module { functions: vec![good] }));
    let good = function("good", vec![param(0, ptr(i32_ty()))], vec![Instruction::Other]);
    assert!(!module_ok(&Module { functions: vec![good, bad] }));
}

#[test]
fn analyse_module_runs_on_supported_modules_only() {
    let good = function("good", vec![param(0, ptr(i32_ty()))], vec![Instruction::Other]);
    let result = analyse_module(&Module { functions: vec![good] });
    match result {
        Some(p) => {
            assert_eq!(p.results.len(), 1);
            assert_eq!(p.results[0].0, "good");
            assert_eq!(p.results[0].1.to_string(), "('a)");
        }
        None => panic!("a supported module is analysed"),
    }
    let bad = function("bad", vec![param(0, ptr(Type::Other))], vec![]);
    assert!(analyse_module(&Module { functions: vec![bad] }).is_none());
}

#[test]
fn try_analyse_function_tells_when_the_analysis_stops() {
    let good = function("good", vec![param(0, ptr(ptr(i32_ty())))], vec![Instruction::Other]);
    match try_analyse_function(&good) {
        Some(fl) => assert_eq!(fl.to_string(), "('a, 'b)"),
        None => panic!("a supported function is analysed"),
    }
    let bad_param = function("bad", vec![param(0, ptr(Type::Other))], vec![]);
    assert!(try_analyse_function(&bad_param).is_none());
    let bad_call = function(
        "bad",
        vec![],
        vec![Instruction::Call(Call { function: Callee::InlineAssembly, dest: None })],
    );
    assert!(try_analyse_function(&bad_call).is_none());
}

#[test]
fn try_transfer_refuses_a_store_to_a_constant() {
    let mut analysis = IntraLifetimeAnalysis::default();
    let store = Instruction::Store(Store {
        address: Operand::ConstantOperand(Constant::Other),
        value: local(1, ptr(i32_ty())),
    });
    assert!(!analysis.try_transfer(&store));
    let mut fresh = IntraLifetimeAnalysis::default();
    let load = Instruction::Load(Load { address: local(0, ptr(ptr(i32_ty()))), dest: Name::Number(1) });
    assert!(fresh.try_transfer(&load));
    assert_eq!(
        fresh.to_string(),
        "\r\n%0@1:var(1)\r\n%0@2:var(2)\r\n%1@1:var(3)\r\n\r\nvar(3) >= {var(2)}\r\n"
    );
}
