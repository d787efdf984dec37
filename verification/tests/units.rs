use lifeline::analysis::{IntraLifetimeAnalysis, ProgramLifetimes};
use lifeline::dsu::DSU;
use lifeline::framework::{run_function_pass, FunctionPass};
use lifeline::ir::{
    BasicBlock, BitCast, Call, Callee, Constant, Function, Instruction, Load, Module, Name, Operand,
    Parameter, Store, Type,
};
use lifeline::lifetimes::{FunctionLifetimes, Lifetime, LifetimeCtx};
use lifeline::results::pretty_print_module;
use lifeline::utilities::{dereference_type, usize_to_string};

fn i32_ty() -> Type {
    Type::IntegerType { bits: 32 }
}

fn ptr(t: Type) -> Type {
    Type::PointerType { pointee_type: Box::new(t), addr_space: 0 }
}

fn local(n: usize, ty: Type) -> Operand {
    Operand::LocalOperand { name: Name::Number(n), ty }
}

fn function(name: &str, parameters: Vec<Parameter>, instrs: Vec<Instruction>) -> Function {
    Function { name: name.to_string(), parameters, basic_blocks: vec![BasicBlock { instrs }] }
}

#[test]
fn labels_follow_the_alphabet_then_count() {
    assert_eq!(usize_to_string(0), "a");
    assert_eq!(usize_to_string(1), "b");
    assert_eq!(usize_to_string(25), "z");
    assert_eq!(usize_to_string(26), "a1");
    assert_eq!(usize_to_string(27), "b1");
    assert_eq!(usize_to_string(52), "a2");
    assert_eq!(usize_to_string(26 * 10 + 3), "d10");
}

#[test]
fn lifetimes_and_names_as_text() {
    assert_eq!(Lifetime::Local.to_string(), "local");
    assert_eq!(Lifetime::Heap.to_string(), "heap");
    assert_eq!(Lifetime::Var(17).to_string(), "var(17)");
    assert_eq!(Name::Name("buf".to_string()).to_string(), "%buf");
    assert_eq!(Name::Number(12).to_string(), "%12");
}

#[test]
fn lifetime_keys_round_trip() {
    for lt in [Lifetime::Local, Lifetime::Heap, Lifetime::Var(0), Lifetime::Var(u32::MAX)] {
        assert_eq!(Lifetime::from_key(lt.key()), lt);
    }
    assert_eq!(Lifetime::Var(5).key(), 7);
}

#[test]
fn dereference_gives_the_pointee() {
    assert!(matches!(dereference_type(&ptr(i32_ty())), Some(Type::IntegerType { bits: 32 })));
    assert!(dereference_type(&i32_ty()).is_none());
    assert!(dereference_type(&Type::Other).is_none());
}

#[test]
fn dsu_union_merges_classes() {
    let mut d: DSU<u64> = DSU::new();
    for x in 1..=5u64 {
        assert_eq!(d.add(x), x);
    }
    assert_eq!(d.find(3), 3);
    assert_eq!(d.union(1, 2), 2);
    assert_eq!(d.find(2), 1);
    assert_eq!(d.union(3, 2), 1);
    assert_eq!(d.find(1), 3);
    assert_eq!(d.find(2), 3);
    assert_eq!(d.find(4), 4);
    // an item never added is its own representative
    assert_eq!(d.find(99), 99);
    // union with an item never added links to it
    assert_eq!(d.union(100, 4), 4);
    assert_eq!(d.find(4), 100);
}

#[test]
fn dsu_add_detaches_an_item() {
    let mut d: DSU<u64> = DSU::new();
    d.add(1);
    d.add(2);
    d.union(1, 2);
    assert_eq!(d.find(2), 1);
    d.add(2);
    assert_eq!(d.find(2), 2);
    assert_eq!(d.find(1), 1);
}

#[test]
fn signature_text_labels_by_first_mention() {
    let fl = FunctionLifetimes::new(
        vec![
            vec![Lifetime::Local, Lifetime::Var(7), Lifetime::Var(3)],
            vec![Lifetime::Local, Lifetime::Var(3), Lifetime::Heap],
            vec![],
        ],
        vec![],
        vec![(Lifetime::Var(3), Lifetime::Var(9)), (Lifetime::Local, Lifetime::Var(7))],
    );
    assert_eq!(fl.to_string(), "('a, 'b) -> ('b, 'heap) -> () where 'b >= 'c, 'local >= 'a");
    let plain = FunctionLifetimes::new(vec![vec![Lifetime::Local]], vec![], vec![]);
    assert_eq!(plain.to_string(), "()");
    assert_eq!(FunctionLifetimes::default().to_string(), "");
}

#[test]
fn context_registers_each_level() {
    let mut ctx = LifetimeCtx::default();
    let a = Name::Name("a".to_string());
    let lts = ctx.register_lifetimes(&a, &ptr(ptr(i32_ty())));
    assert_eq!(lts, vec![Lifetime::Local, Lifetime::Var(1), Lifetime::Var(2)]);
    // registering again gives the same lifetimes
    let again = ctx.get_lifetimes(&a, &ptr(ptr(i32_ty())));
    assert_eq!(again, lts);
    let b = Name::Number(3);
    let lts_b = ctx.register_lifetimes(&b, &ptr(i32_ty()));
    assert_eq!(lts_b, vec![Lifetime::Local, Lifetime::Var(3)]);
    ctx.generate_outlives(Lifetime::Var(1), Lifetime::Var(3));
    ctx.generate_outlives(Lifetime::Var(2), Lifetime::Var(2));
    assert_eq!(
        ctx.to_string(),
        "\r\n%a@1:var(1)\r\n%a@2:var(2)\r\n%3@1:var(3)\r\n\r\nvar(3) >= {var(1)}\r\n"
    );
}

#[test]
fn finalize_reports_each_parameter_lifetime_as_registered() {
    // p: i32**, q: i32*; var(2) is made equal to var(1), but finalize
    // registers the parameters again, which makes each of their lifetimes a
    // representative of its own
    let mut ctx = LifetimeCtx::default();
    let p = Parameter { name: Name::Number(0), ty: ptr(ptr(i32_ty())) };
    let q = Parameter { name: Name::Number(1), ty: ptr(i32_ty()) };
    ctx.register_parameter_lifetimes(&p);
    ctx.register_parameter_lifetimes(&q);
    ctx.generate_equality(Lifetime::Var(1), Lifetime::Var(2));
    let f = function("f", vec![p, q], vec![]);
    let fl = ctx.finalize(&f);
    assert_eq!(fl.to_string(), "('a, 'b) -> ('c)");
}

#[test]
fn bitcast_equalities_do_not_survive_finalize() {
    let f = function(
        "g",
        vec![Parameter { name: Name::Number(0), ty: ptr(i32_ty()) }, Parameter {
            name: Name::Number(1),
            ty: ptr(i32_ty()),
        }],
        vec![Instruction::BitCast(BitCast { operand: local(0, ptr(i32_ty())), dest: Name::Number(1) })],
    );
    let mut analysis = IntraLifetimeAnalysis::default();
    let fl = run_function_pass(&mut analysis, &f);
    assert_eq!(fl.to_string(), "('a) -> ('b)");
}

#[test]
fn store_constant_and_calls_change_nothing() {
    let mut analysis = IntraLifetimeAnalysis::default();
    let p = Parameter { name: Name::Number(0), ty: ptr(i32_ty()) };
    analysis.init_param(&p);
    let before = analysis.to_string();
    analysis.transfer(&Instruction::Store(Store {
        address: local(0, ptr(i32_ty())),
        value: Operand::ConstantOperand(Constant::Other),
    }));
    analysis.transfer(&Instruction::Call(Call {
        function: Callee::Operand(Operand::ConstantOperand(Constant::GlobalReference {
            name: Name::Name("malloc".to_string()),
        })),
        dest: None,
    }));
    analysis.transfer(&Instruction::Alloca);
    analysis.transfer(&Instruction::Other);
    assert_eq!(analysis.to_string(), before);
}

#[test]
fn load_through_pointer_constrains_levels() {
    // %1 = load i32*, i32** %0 : level 1 of %1 outlives level 2 of %0
    let mut analysis = IntraLifetimeAnalysis::default();
    analysis.init_param(&Parameter { name: Name::Number(0), ty: ptr(ptr(i32_ty())) });
    analysis.transfer(&Instruction::Load(Load {
        address: local(0, ptr(ptr(i32_ty()))),
        dest: Name::Number(1),
    }));
    assert_eq!(
        analysis.to_string(),
        "\r\n%0@1:var(1)\r\n%0@2:var(2)\r\n%1@1:var(3)\r\n\r\nvar(3) >= {var(2)}\r\n"
    );
}

#[test]
fn module_text_has_one_line_per_function() {
    let module = Module {
        functions: vec![
            function("one", vec![Parameter { name: Name::Number(0), ty: ptr(i32_ty()) }], vec![]),
            function("two", vec![Parameter { name: Name::Number(0), ty: i32_ty() }], vec![]),
        ],
    };
    let mut pl = ProgramLifetimes::new(&module);
    assert_eq!(pretty_print_module(&mut pl, &module), "('a)\r\n()");
    assert_eq!(pl.to_string(), "one: ('a)\r\ntwo: ()\r\n");
    let other = Module { functions: vec![function("three", vec![], vec![])] };
    assert_eq!(
        pretty_print_module(&mut pl, &other),
        "Unable to generate lifetimes for function three"
    );
}

#[test]
fn a_later_function_of_the_same_name_replaces_the_result() {
    let module = Module {
        functions: vec![
            function("f", vec![Parameter { name: Name::Number(0), ty: ptr(i32_ty()) }], vec![]),
            function("f", vec![], vec![]),
        ],
    };
    let pl = ProgramLifetimes::new(&module);
    assert_eq!(pl.results.len(), 1);
    assert_eq!(pl.to_string(), "f: \r\n");
}

#[test]
fn finalize_with_components_joins_each_component() {
    // p: i32*, q: i32* (var(1), var(2)); %5: i32* (var(3)) outlives var(2)
    // and var(2) outlives it: one component of the nodes 0 (var(2)) and 1
    // (var(3))
    let mut ctx = LifetimeCtx::default();
    let p = Parameter { name: Name::Number(0), ty: ptr(i32_ty()) };
    let q = Parameter { name: Name::Number(1), ty: ptr(i32_ty()) };
    ctx.register_parameter_lifetimes(&p);
    ctx.register_parameter_lifetimes(&q);
    ctx.register_lifetimes(&Name::Number(5), &ptr(i32_ty()));
    ctx.generate_outlives(Lifetime::Var(2), Lifetime::Var(3));
    ctx.generate_outlives(Lifetime::Var(3), Lifetime::Var(2));
    let f = function("f", vec![p, q], vec![]);
    let fl = ctx.finalize_with_components(&f, &vec![vec![0, 1]]);
    assert_eq!(fl.to_string(), "('a) -> ('b)");
    // var(3) now has the representative of var(2)
    assert_eq!(ctx.unification.find(Lifetime::Var(3).key()), Lifetime::Var(2).key());
    assert_eq!(ctx.unification.find(Lifetime::Var(1).key()), Lifetime::Var(1).key());
}

#[test]
fn finalize_joins_a_cycle() {
    // %5 and %6 outlive each other; the function has no parameters
    let mut ctx = LifetimeCtx::default();
    ctx.register_lifetimes(&Name::Number(5), &ptr(i32_ty()));
    ctx.register_lifetimes(&Name::Number(6), &ptr(i32_ty()));
    ctx.register_lifetimes(&Name::Number(7), &ptr(i32_ty()));
    ctx.generate_outlives(Lifetime::Var(1), Lifetime::Var(2));
    ctx.generate_outlives(Lifetime::Var(2), Lifetime::Var(1));
    ctx.generate_outlives(Lifetime::Var(3), Lifetime::Var(1));
    let f = function("f", vec![], vec![]);
    let fl = ctx.finalize(&f);
    assert_eq!(fl.to_string(), "");
    let one = ctx.unification.find(Lifetime::Var(1).key());
    assert_eq!(ctx.unification.find(Lifetime::Var(2).key()), one);
    // var(3) is in no cycle: it keeps a class of its own
    assert_ne!(ctx.unification.find(Lifetime::Var(3).key()), one);
    assert_eq!(ctx.unification.find(Lifetime::Var(3).key()), Lifetime::Var(3).key());
}

#[test]
fn dsu_default_is_empty() {
    let mut d: DSU<u64> = DSU::default();
    assert_eq!(d.find(7), 7);
    assert_eq!(d.union(7, 8), 8);
    assert_eq!(d.find(8), 7);
}

#[test]
fn renaming_variables_keeps_the_signature_text() {
    let fl = FunctionLifetimes::new(
        vec![vec![Lifetime::Local, Lifetime::Var(7), Lifetime::Var(3)], vec![Lifetime::Local, Lifetime::Var(3)]],
        vec![],
        vec![(Lifetime::Var(3), Lifetime::Var(9))],
    );
    let renamed = FunctionLifetimes::new(
        vec![
            vec![Lifetime::Local, Lifetime::Var(100), Lifetime::Var(50)],
            vec![Lifetime::Local, Lifetime::Var(50)],
        ],
        vec![Lifetime::Var(1)],
        vec![(Lifetime::Var(50), Lifetime::Var(2))],
    );
    assert_eq!(fl.to_string(), "('a, 'b) -> ('b) where 'b >= 'c");
    assert_eq!(renamed.to_string(), fl.to_string());
}

#[test]
fn registering_a_value_twice_gives_the_same_lifetimes() {
    let mut ctx = LifetimeCtx::default();
    let a = Name::Name("a".to_string());
    let first = ctx.register_lifetimes(&a, &ptr(ptr(i32_ty())));
    let second = ctx.register_lifetimes(&a, &ptr(i32_ty()));
    assert_eq!(first, vec![Lifetime::Local, Lifetime::Var(1), Lifetime::Var(2)]);
    // the levels both registrations cover agree
    assert_eq!(second, vec![Lifetime::Local, Lifetime::Var(1)]);
    let third = ctx.register_lifetimes(&a, &ptr(ptr(i32_ty())));
    assert_eq!(third, first);
}

#[test]
fn locations_and_variables_correspond_one_to_one() {
    let mut ctx = LifetimeCtx::default();
    let a = ctx.register_lifetimes(&Name::Number(0), &ptr(ptr(i32_ty())));
    let b = ctx.register_lifetimes(&Name::Number(1), &ptr(ptr(i32_ty())));
    let c = ctx.register_lifetimes(&Name::Name("0".to_string()), &ptr(i32_ty()));
    assert_eq!(a, vec![Lifetime::Local, Lifetime::Var(1), Lifetime::Var(2)]);
    assert_eq!(b, vec![Lifetime::Local, Lifetime::Var(3), Lifetime::Var(4)]);
    // a string name that reads like a number is another location
    assert_eq!(c, vec![Lifetime::Local, Lifetime::Var(5)]);
    assert_eq!(ctx.lifetime_ids.len(), 5);
    for (i, entry) in ctx.lifetime_ids.iter().enumerate() {
        assert_eq!(entry.1, Lifetime::Var(i as u32 + 1));
    }
}

#[test]
fn each_transfer_adds_at_most_one_edge() {
    let mut analysis = IntraLifetimeAnalysis::default();
    analysis.init_param(&Parameter { name: Name::Number(0), ty: ptr(ptr(ptr(i32_ty()))) });
    analysis.transfer(&Instruction::Load(Load {
        address: local(0, ptr(ptr(ptr(i32_ty())))),
        dest: Name::Number(1),
    }));
    // level 1 of %1 outlives level 2 of %0; their deeper levels are made equal
    assert_eq!(
        analysis.to_string(),
        "\r\n%0@1:var(1)\r\n%0@2:var(2)\r\n%0@3:var(3)\r\n%1@1:var(4)\r\n%1@2:var(5)\r\n\r\nvar(4) >= {var(2)}\r\n"
    );
    analysis.transfer(&Instruction::Store(Store {
        address: local(0, ptr(ptr(ptr(i32_ty())))),
        value: local(1, ptr(ptr(i32_ty()))),
    }));
    // level 1 of %0 outlives level 0 of %1; the registrations stay as they were
    assert_eq!(
        analysis.to_string(),
        "\r\n%0@1:var(1)\r\n%0@2:var(2)\r\n%0@3:var(3)\r\n%1@1:var(4)\r\n%1@2:var(5)\r\n\r\nvar(4) >= {var(2)}\r\nvar(1) >= {local}\r\n"
    );
}
