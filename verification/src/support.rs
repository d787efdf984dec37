//! Which functions the analysis can go through. [`analyse_module`] runs the
//! analysis and tells exactly when it stops. Beside it stands a check that
//! needs no run: its shape part is exact (see
//! [`lemma_analysed_function_is_supported`]), and a function that passes it
//! is analysed without stopping (see [`lemma_supported_function_is_analysed`]);
//! its size bound is sufficient only.
use vstd::prelude::*;
use crate::analysis::{
    analysis_of, call_step, constrain_pairs, equate_pairs, malloc_text, param_step, set_equal_step,
    transfer_step,
};
use crate::framework::{block_insts, lemma_block_insts_split, run_insts, run_params};
use crate::ir::{BasicBlock, Callee, Constant, Function, Instruction, Module, Operand, Parameter, Type, name_text};
use crate::lifetimes::{
    CtxView, FunctionLifetimes, chain_step, empty_ctx, equate, equate_all, finalize_step,
    graph_components, node_step, outlives_step, reg_step, solve_params, unify_component,
    unify_components,
};
use crate::utilities::pointee_of;
use crate::analysis::{
    IntraLifetimeAnalysis, ProgramLifetimes, distinct_keys, program_results, try_analyse_function,
};

verus! {

/// The largest total weight (see [`function_weight`]) that the check admits;
/// it keeps every counter and index of the analysis far below `u32::MAX`.
pub const ANALYSIS_LIMIT: u64 = 0x7FFF_FFF0;

/// The type is a chain of pointers that ends at an integer type.
pub open spec fn chain_ok(ty: Type) -> bool
    decreases ty,
{
    match ty {
        Type::IntegerType { .. } => true,
        Type::PointerType { pointee_type, .. } => chain_ok(*pointee_type),
        Type::Other => false,
    }
}

/// The number of levels of a type: one, plus one per level of pointer.
pub open spec fn chain_len(ty: Type) -> nat
    decreases ty,
{
    match ty {
        Type::PointerType { pointee_type, .. } => 1 + chain_len(*pointee_type),
        _ => 1,
    }
}

/// The operand is a local value whose type is a chain of pointers ending at
/// an integer type.
pub open spec fn local_ok(op: Operand) -> bool {
    match op {
        Operand::LocalOperand { ty, .. } => chain_ok(ty),
        _ => false,
    }
}

/// The number of levels of a local operand (none for other operands).
pub open spec fn operand_weight(op: Operand) -> nat {
    match op {
        Operand::LocalOperand { ty, .. } => chain_len(ty),
        _ => 0,
    }
}

/// The instruction is one whose transfer the analysis knows: a load from a
/// local, a store of a constant, or of a local or metadata to a local or
/// metadata, a bitcast of a local, a call of a global function (not a call
/// of `malloc` whose result is dropped), or an instruction that touches no
/// memory.
pub open spec fn inst_supported(inst: Instruction) -> bool {
    match inst {
        Instruction::Load(l) => local_ok(l.address),
        Instruction::Store(st) => match st.value {
            Operand::ConstantOperand(_) => true,
            _ => (st.value is MetadataOperand || local_ok(st.value)) && (st.address is MetadataOperand
                || local_ok(st.address)),
        },
        Instruction::BitCast(bc) => local_ok(bc.operand),
        Instruction::Call(cl) => match cl.function {
            Callee::Operand(Operand::ConstantOperand(Constant::GlobalReference { name })) => name_text(
                name@,
            ) != malloc_text() || cl.dest is Some,
            _ => false,
        },
        _ => true,
    }
}

/// An upper bound on the registrations and constraints of an instruction.
pub open spec fn inst_weight(inst: Instruction) -> nat {
    match inst {
        Instruction::Load(l) => 2 * operand_weight(l.address) + 1,
        Instruction::Store(st) => match st.value {
            Operand::ConstantOperand(_) => 0,
            _ => operand_weight(st.value) + operand_weight(st.address) + 1,
        },
        Instruction::BitCast(bc) => 2 * operand_weight(bc.operand),
        _ => 0,
    }
}

/// The levels of all parameters.
pub open spec fn params_weight(ps: Seq<Parameter>) -> nat
    decreases ps.len(),
{
    if ps.len() == 0 {
        0
    } else {
        params_weight(ps.drop_last()) + chain_len(ps.last().ty)
    }
}

/// The weight of all instructions.
pub open spec fn insts_weight(xs: Seq<Instruction>) -> nat
    decreases xs.len(),
{
    if xs.len() == 0 {
        0
    } else {
        insts_weight(xs.drop_last()) + inst_weight(xs.last())
    }
}

/// Every parameter type is a chain of pointers ending at an integer type,
/// and every instruction is supported.
pub open spec fn function_supported(f: Function) -> bool {
    &&& forall|i: int| 0 <= i < f.parameters@.len() ==> chain_ok(#[trigger] f.parameters@[i].ty)
    &&& forall|i: int|
        0 <= i < block_insts(f.basic_blocks@).len() ==> inst_supported(
            #[trigger] block_insts(f.basic_blocks@)[i],
        )
}

/// An upper bound on what the analysis of `f` registers and constrains:
/// the parameters are registered twice (on entry and in finalize).
pub open spec fn function_weight(f: Function) -> nat {
    2 * params_weight(f.parameters@) + insts_weight(block_insts(f.basic_blocks@))
}

/// The context has made at most `u` variables and edges and `2u` nodes.
pub open spec fn bounded(v: CtxView, u: nat) -> bool {
    &&& v.counter <= u
    &&& v.links <= u
    &&& v.slots.len() <= 2 * u
}

proof fn lemma_reg_bounded(v: CtxView, u: nat, loc: crate::lifetimes::LocView)
    requires
        bounded(v, u),
        u + 1 <= ANALYSIS_LIMIT,
    ensures
        reg_step(v, loc) is Some,
        bounded(reg_step(v, loc)->Some_0.0, u + 1),
{
}

proof fn lemma_chain_bounded(
    v: CtxView,
    u: nat,
    name: crate::ir::NameView,
    ty: Type,
    ind: u32,
)
    requires
        chain_ok(ty),
        bounded(v, u),
        u + chain_len(ty) <= ANALYSIS_LIMIT,
        ind + chain_len(ty) <= u32::MAX,
    ensures
        chain_step(v, name, ty, ind) is Some,
        bounded(chain_step(v, name, ty, ind)->Some_0.0, u + chain_len(ty)),
        chain_step(v, name, ty, ind)->Some_0.1.len() == chain_len(ty),
    decreases ty,
{
    lemma_reg_bounded(v, u, (name, ind));
    let v1 = reg_step(v, (name, ind))->Some_0.0;
    if let Type::PointerType { pointee_type, .. } = ty {
        lemma_chain_bounded(v1, u + 1, name, *pointee_type, (ind + 1) as u32);
    }
}

proof fn lemma_outlives_bounded(v: CtxView, u: nat, l: crate::lifetimes::Lifetime, r: crate::lifetimes::Lifetime)
    requires
        bounded(v, u),
        u + 1 <= ANALYSIS_LIMIT,
    ensures
        outlives_step(v, l, r) is Some,
        bounded(outlives_step(v, l, r)->Some_0, u + 1),
{
    if l != r {
        let v1 = node_step(v, l)->Some_0.0;
        assert(v1.slots.len() <= v.slots.len() + 1);
        let v2 = node_step(v1, r)->Some_0.0;
        assert(v2.slots.len() <= v.slots.len() + 2);
    }
}

proof fn lemma_equate_pairs_sizes(v: CtxView, ps: Seq<(crate::lifetimes::Lifetime, crate::lifetimes::Lifetime)>)
    ensures
        equate_pairs(v, ps).counter == v.counter,
        equate_pairs(v, ps).links == v.links,
        equate_pairs(v, ps).slots == v.slots,
    decreases ps.len(),
{
    if ps.len() > 0 {
        lemma_equate_pairs_sizes(v, ps.drop_last());
    }
}

proof fn lemma_constrain_bounded(v: CtxView, u: nat, ps: Seq<(crate::lifetimes::Lifetime, crate::lifetimes::Lifetime)>)
    requires
        bounded(v, u),
        u + 1 <= ANALYSIS_LIMIT,
    ensures
        constrain_pairs(v, ps) is Some,
        bounded(constrain_pairs(v, ps)->Some_0, u + 1),
{
    if ps.len() > 0 {
        lemma_outlives_bounded(v, u, ps[0].0, ps[0].1);
        lemma_equate_pairs_sizes(outlives_step(v, ps[0].0, ps[0].1)->Some_0, ps.skip(1));
    }
}

proof fn lemma_pointee_chain(ty: Type)
    requires
        chain_ok(ty),
    ensures
        pointee_of(ty) matches Some(p) ==> chain_ok(p) && chain_len(p) + 1 == chain_len(ty),
{
}

proof fn lemma_transfer_bounded(v: CtxView, u: nat, inst: Instruction)
    requires
        inst_supported(inst),
        bounded(v, u),
        u + inst_weight(inst) <= ANALYSIS_LIMIT,
    ensures
        transfer_step(v, inst) is Some,
        bounded(transfer_step(v, inst)->Some_0, u + inst_weight(inst)),
{
    match inst {
        Instruction::Load(l) => {
            if let Operand::LocalOperand { name, ty } = l.address {
                let n = chain_len(ty);
                lemma_chain_bounded(v, u, name@, ty, 0);
                let (v1, src) = chain_step(v, name@, ty, 0)->Some_0;
                lemma_pointee_chain(ty);
                if let Some(dty) = pointee_of(ty) {
                    lemma_chain_bounded(v1, u + n, l.dest@, dty, 0);
                    let (v2, dst) = chain_step(v1, l.dest@, dty, 0)->Some_0;
                    assert(bounded(v2, u + 2 * n));
                    if src.len() >= 2 {
                        lemma_constrain_bounded(v2, u + 2 * n, crate::analysis::zip_lts(
                            src.skip(2),
                            crate::lifetimes::after_first(dst),
                        ));
                    }
                }
            }
        },
        Instruction::Store(st) => {
            match st.value {
                Operand::ConstantOperand(_) => {},
                _ => {
                    let nv = operand_weight(st.value);
                    let na = operand_weight(st.address);
                    let v1 = match st.value {
                        Operand::LocalOperand { name, ty } => {
                            lemma_chain_bounded(v, u, name@, ty, 0);
                            chain_step(v, name@, ty, 0)->Some_0.0
                        },
                        _ => v,
                    };
                    assert(bounded(v1, u + nv));
                    let v2 = match st.address {
                        Operand::LocalOperand { name, ty } => {
                            lemma_chain_bounded(v1, u + nv, name@, ty, 0);
                            chain_step(v1, name@, ty, 0)->Some_0.0
                        },
                        _ => v1,
                    };
                    assert(bounded(v2, u + nv + na));
                    let src = match st.value {
                        Operand::LocalOperand { name, ty } => chain_step(v, name@, ty, 0)->Some_0.1,
                        _ => seq![],
                    };
                    let dst = match st.address {
                        Operand::LocalOperand { name, ty } => chain_step(v1, name@, ty, 0)->Some_0.1,
                        _ => seq![],
                    };
                    if dst.len() >= 1 {
                        lemma_constrain_bounded(v2, u + nv + na, crate::analysis::zip_lts(src, dst.skip(1)));
                    }
                },
            }
        },
        Instruction::BitCast(bc) => {
            if let Operand::LocalOperand { name, ty } = bc.operand {
                let n = chain_len(ty);
                lemma_chain_bounded(v, u, name@, ty, 0);
                let (v1, src) = chain_step(v, name@, ty, 0)->Some_0;
                lemma_chain_bounded(v1, u + n, bc.dest@, ty, 0);
                let (v2, dst) = chain_step(v1, bc.dest@, ty, 0)->Some_0;
                lemma_equate_pairs_sizes(v2, crate::analysis::zip_lts(src, dst));
            }
        },
        _ => {},
    }
}

proof fn lemma_insts_bounded(v: CtxView, u: nat, xs: Seq<Instruction>)
    requires
        forall|i: int| 0 <= i < xs.len() ==> inst_supported(#[trigger] xs[i]),
        bounded(v, u),
        u + insts_weight(xs) <= ANALYSIS_LIMIT,
    ensures
        run_insts::<FunctionLifetimes, IntraLifetimeAnalysis>(v, xs) is Some,
        bounded(
            run_insts::<FunctionLifetimes, IntraLifetimeAnalysis>(v, xs)->Some_0,
            u + insts_weight(xs),
        ),
    decreases xs.len(),
{
    if xs.len() > 0 {
        assert forall|i: int| 0 <= i < xs.drop_last().len() implies inst_supported(
            #[trigger] xs.drop_last()[i],
        ) by {
            assert(xs.drop_last()[i] == xs[i]);
        }
        lemma_insts_bounded(v, u, xs.drop_last());
        let v1 = run_insts::<FunctionLifetimes, IntraLifetimeAnalysis>(v, xs.drop_last())->Some_0;
        assert(inst_supported(xs[xs.len() - 1]));
        lemma_transfer_bounded(v1, u + insts_weight(xs.drop_last()), xs.last());
    }
}

proof fn lemma_params_bounded(v: CtxView, u: nat, ps: Seq<Parameter>)
    requires
        forall|i: int| 0 <= i < ps.len() ==> chain_ok(#[trigger] ps[i].ty),
        bounded(v, u),
        u + params_weight(ps) <= ANALYSIS_LIMIT,
    ensures
        run_params::<FunctionLifetimes, IntraLifetimeAnalysis>(v, ps) is Some,
        bounded(
            run_params::<FunctionLifetimes, IntraLifetimeAnalysis>(v, ps)->Some_0,
            u + params_weight(ps),
        ),
        solve_params(v, ps) is Some,
        bounded(solve_params(v, ps)->Some_0.0, u + params_weight(ps)),
    decreases ps.len(),
{
    if ps.len() > 0 {
        assert forall|i: int| 0 <= i < ps.drop_last().len() implies chain_ok(
            #[trigger] ps.drop_last()[i].ty,
        ) by {
            assert(ps.drop_last()[i] == ps[i]);
        }
        lemma_params_bounded(v, u, ps.drop_last());
        let w = u + params_weight(ps.drop_last());
        let p = ps.last();
        assert(chain_ok(ps[ps.len() - 1].ty));
        let v1 = run_params::<FunctionLifetimes, IntraLifetimeAnalysis>(v, ps.drop_last())->Some_0;
        lemma_chain_bounded(v1, w, p.name@, p.ty, 0);
        let s1 = solve_params(v, ps.drop_last())->Some_0.0;
        lemma_chain_bounded(s1, w, p.name@, p.ty, 0);
    }
}

proof fn lemma_equate_all_sizes(v: CtxView, h: crate::lifetimes::Lifetime, t: Seq<crate::lifetimes::Lifetime>)
    ensures
        equate_all(v, h, t).counter == v.counter,
        equate_all(v, h, t).links == v.links,
        equate_all(v, h, t).slots == v.slots,
    decreases t.len(),
{
    if t.len() > 0 {
        lemma_equate_all_sizes(v, h, t.drop_last());
    }
}

proof fn lemma_unify_sizes(v: CtxView, comps: Seq<Seq<crate::lifetimes::Lifetime>>)
    ensures
        unify_components(v, comps).counter == v.counter,
        unify_components(v, comps).links == v.links,
        unify_components(v, comps).slots == v.slots,
    decreases comps.len(),
{
    if comps.len() > 0 {
        lemma_unify_sizes(v, comps.drop_last());
        let w = unify_components(v, comps.drop_last());
        let lts = comps.last();
        if lts.len() > 0 {
            lemma_equate_all_sizes(w, lts[0], lts.skip(1));
        }
    }
}

/// The analysis of a function that passes the check never stops.
pub proof fn lemma_supported_function_is_analysed(f: Function)
    requires
        function_supported(f),
        function_weight(f) <= ANALYSIS_LIMIT,
    ensures
        analysis_of(f) is Some,
{
    let ps = f.parameters@;
    let xs = block_insts(f.basic_blocks@);
    let pw = params_weight(ps);
    let iw = insts_weight(xs);
    assert(bounded(empty_ctx(), 0));
    lemma_params_bounded(empty_ctx(), 0, ps);
    let s1 = run_params::<FunctionLifetimes, IntraLifetimeAnalysis>(empty_ctx(), ps)->Some_0;
    lemma_insts_bounded(s1, pw, xs);
    let s2 = run_insts::<FunctionLifetimes, IntraLifetimeAnalysis>(s1, xs)->Some_0;
    let s3 = unify_components(s2, graph_components(s2));
    lemma_unify_sizes(s2, graph_components(s2));
    assert(bounded(s3, pw + iw));
    lemma_params_bounded(s3, pw + iw, ps);
}

proof fn lemma_chain_some_ok(v: CtxView, name: crate::ir::NameView, ty: Type, ind: u32)
    requires
        chain_step(v, name, ty, ind) is Some,
    ensures
        chain_ok(ty),
    decreases ty,
{
    let v1 = reg_step(v, (name, ind))->Some_0.0;
    if let Type::PointerType { pointee_type, .. } = ty {
        lemma_chain_some_ok(v1, name, *pointee_type, (ind + 1) as u32);
    }
}

proof fn lemma_transfer_some_ok(v: CtxView, inst: Instruction)
    requires
        transfer_step(v, inst) is Some,
    ensures
        inst_supported(inst),
{
    match inst {
        Instruction::Load(l) => {
            if let Operand::LocalOperand { name, ty } = l.address {
                lemma_chain_some_ok(v, name@, ty, 0);
            }
        },
        Instruction::Store(st) => {
            match st.value {
                Operand::ConstantOperand(_) => {},
                _ => {
                    let v1 = match st.value {
                        Operand::LocalOperand { name, ty } => {
                            lemma_chain_some_ok(v, name@, ty, 0);
                            chain_step(v, name@, ty, 0)->Some_0.0
                        },
                        _ => v,
                    };
                    if let Operand::LocalOperand { name, ty } = st.address {
                        lemma_chain_some_ok(v1, name@, ty, 0);
                    }
                },
            }
        },
        Instruction::BitCast(bc) => {
            if let Operand::LocalOperand { name, ty } = bc.operand {
                lemma_chain_some_ok(v, name@, ty, 0);
            }
        },
        _ => {},
    }
}

proof fn lemma_params_some_ok(v: CtxView, ps: Seq<Parameter>)
    requires
        run_params::<FunctionLifetimes, IntraLifetimeAnalysis>(v, ps) is Some,
    ensures
        forall|i: int| 0 <= i < ps.len() ==> chain_ok(#[trigger] ps[i].ty),
    decreases ps.len(),
{
    if ps.len() > 0 {
        lemma_params_some_ok(v, ps.drop_last());
        let s1 = run_params::<FunctionLifetimes, IntraLifetimeAnalysis>(v, ps.drop_last())->Some_0;
        lemma_chain_some_ok(s1, ps.last().name@, ps.last().ty, 0);
        assert forall|i: int| 0 <= i < ps.len() implies chain_ok(#[trigger] ps[i].ty) by {
            if i < ps.len() - 1 {
                assert(ps[i] == ps.drop_last()[i]);
            }
        }
    }
}

proof fn lemma_insts_some_ok(v: CtxView, xs: Seq<Instruction>)
    requires
        run_insts::<FunctionLifetimes, IntraLifetimeAnalysis>(v, xs) is Some,
    ensures
        forall|i: int| 0 <= i < xs.len() ==> inst_supported(#[trigger] xs[i]),
    decreases xs.len(),
{
    if xs.len() > 0 {
        lemma_insts_some_ok(v, xs.drop_last());
        let s1 = run_insts::<FunctionLifetimes, IntraLifetimeAnalysis>(v, xs.drop_last())->Some_0;
        lemma_transfer_some_ok(s1, xs.last());
        assert forall|i: int| 0 <= i < xs.len() implies inst_supported(#[trigger] xs[i]) by {
            if i < xs.len() - 1 {
                assert(xs[i] == xs.drop_last()[i]);
            }
        }
    }
}

/// The shape check is exact: a function whose analysis runs to the end
/// passes [`function_supported`]. Only the weight bound of the check is
/// stricter than the analysis itself.
pub proof fn lemma_analysed_function_is_supported(f: Function)
    requires
        analysis_of(f) is Some,
    ensures
        function_supported(f),
{
    lemma_params_some_ok(empty_ctx(), f.parameters@);
    let s1 = run_params::<FunctionLifetimes, IntraLifetimeAnalysis>(empty_ctx(), f.parameters@)->Some_0;
    lemma_insts_some_ok(s1, block_insts(f.basic_blocks@));
}

/// The number of levels of `ty` if it is a chain of pointers ending at an
/// integer type of at most [`ANALYSIS_LIMIT`] levels.
fn chain_info(ty: &Type) -> (r: Option<u64>)
    ensures
        r is Some <==> (chain_ok(*ty) && chain_len(*ty) <= ANALYSIS_LIMIT),
        r matches Some(n) ==> n == chain_len(*ty),
    decreases ty,
{
    match ty {
        Type::IntegerType { .. } => Some(1),
        Type::PointerType { pointee_type, .. } => match chain_info(pointee_type) {
            Some(n) => if n < ANALYSIS_LIMIT {
                Some(n + 1)
            } else {
                None
            },
            None => None,
        },
        Type::Other => None,
    }
}

/// `Some(levels)` for a local operand that [`local_ok`] admits within the
/// limit; `None` otherwise.
fn local_info(op: &Operand) -> (r: Option<u64>)
    ensures
        r is Some <==> (local_ok(*op) && operand_weight(*op) <= ANALYSIS_LIMIT),
        r matches Some(n) ==> n == operand_weight(*op),
{
    match op {
        Operand::LocalOperand { ty, .. } => chain_info(ty),
        _ => None,
    }
}

/// The weight of `inst` if it is supported and its weight is within the limit.
fn inst_info(inst: &Instruction) -> (r: Option<u64>)
    ensures
        r is Some <==> (inst_supported(*inst) && inst_weight(*inst) <= ANALYSIS_LIMIT),
        r matches Some(n) ==> n == inst_weight(*inst),
{
    match inst {
        Instruction::Load(l) => {
            match local_info(&l.address) {
                Some(n) => if n < 0x3FFF_FFF8 {
                    Some(2 * n + 1)
                } else {
                    None
                },
                None => None,
            }
        },
        Instruction::Store(st) => {
            let nv: u64 = match &st.value {
                Operand::ConstantOperand(_) => {
                    return Some(0);
                },
                Operand::MetadataOperand => 0,
                Operand::LocalOperand { .. } => match local_info(&st.value) {
                    Some(n) => n,
                    None => {
                        return None;
                    },
                },
            };
            let na: u64 = match &st.address {
                Operand::MetadataOperand => 0,
                Operand::LocalOperand { .. } => match local_info(&st.address) {
                    Some(n) => n,
                    None => {
                        return None;
                    },
                },
                Operand::ConstantOperand(_) => {
                    return None;
                },
            };
            if nv + na < ANALYSIS_LIMIT {
                Some(nv + na + 1)
            } else {
                None
            }
        },
        Instruction::BitCast(bc) => match local_info(&bc.operand) {
            Some(n) => if n <= 0x3FFF_FFF8 {
                Some(2 * n)
            } else {
                None
            },
            None => None,
        },
        Instruction::Call(cl) => match &cl.function {
            Callee::Operand(Operand::ConstantOperand(Constant::GlobalReference { name })) => {
                let text = name.to_string();
                let malloc = String::from_str("malloc");
                proof {
                    reveal_strlit("malloc");
                    assert(malloc@ == malloc_text());
                }
                if !(text == malloc) || cl.dest.is_some() {
                    Some(0)
                } else {
                    None
                }
            },
            _ => None,
        },
        _ => Some(0),
    }
}

proof fn lemma_params_weight_grows(ps: Seq<Parameter>, k: int)
    requires
        0 <= k <= ps.len(),
    ensures
        params_weight(ps.take(k)) <= params_weight(ps),
    decreases ps.len() - k,
{
    if k < ps.len() {
        assert(ps.take(k + 1).drop_last() =~= ps.take(k));
        lemma_params_weight_grows(ps, k + 1);
    } else {
        assert(ps.take(k) =~= ps);
    }
}

proof fn lemma_param_len_in_weight(ps: Seq<Parameter>, i: int)
    requires
        0 <= i < ps.len(),
    ensures
        chain_len(ps[i].ty) <= params_weight(ps),
{
    assert(ps.take(i + 1).drop_last() =~= ps.take(i));
    lemma_params_weight_grows(ps, i + 1);
}

proof fn lemma_weight_parts(f: Function)
    ensures
        function_weight(f) == 2 * params_weight(f.parameters@) + insts_weight(
            block_insts(f.basic_blocks@),
        ),
{
}

proof fn lemma_insts_weight_grows(xs: Seq<Instruction>, k: int)
    requires
        0 <= k <= xs.len(),
    ensures
        insts_weight(xs.take(k)) <= insts_weight(xs),
    decreases xs.len() - k,
{
    if k < xs.len() {
        assert(xs.take(k + 1).drop_last() =~= xs.take(k));
        lemma_insts_weight_grows(xs, k + 1);
    } else {
        assert(xs.take(k) =~= xs);
    }
}

proof fn lemma_prefix_weight_le(f: Function, b: int, k: int)
    requires
        0 <= b < f.basic_blocks@.len(),
        0 <= k <= f.basic_blocks@[b].instrs@.len(),
    ensures
        insts_weight(block_insts(f.basic_blocks@.take(b)) + f.basic_blocks@[b].instrs@.take(k))
            <= insts_weight(block_insts(f.basic_blocks@)),
{
    let blocks = f.basic_blocks@;
    let all = block_insts(blocks);
    let before = block_insts(blocks.take(b));
    let instrs = blocks[b].instrs@;
    lemma_block_insts_split(blocks, b);
    let m = before.len() + k;
    assert(before + instrs.take(k) =~= all.take(m)) by {
        assert forall|i: int| 0 <= i < m implies #[trigger] (before + instrs.take(k))[i] == all.take(
            m,
        )[i] by {
            assert((before + instrs.take(k))[i] == block_insts(blocks.take(b + 1))[i]);
        }
    }
    lemma_insts_weight_grows(all, m);
}

proof fn lemma_inst_in_function(f: Function, b: int, k: int)
    requires
        0 <= b < f.basic_blocks@.len(),
        0 <= k < f.basic_blocks@[b].instrs@.len(),
    ensures
        block_insts(f.basic_blocks@.take(b)).len() + k < block_insts(f.basic_blocks@).len(),
        block_insts(f.basic_blocks@)[block_insts(f.basic_blocks@.take(b)).len() + k]
            == f.basic_blocks@[b].instrs@[k],
        inst_weight(f.basic_blocks@[b].instrs@[k]) <= insts_weight(block_insts(f.basic_blocks@)),
{
    let blocks = f.basic_blocks@;
    let all = block_insts(blocks);
    let before = block_insts(blocks.take(b));
    let instrs = blocks[b].instrs@;
    lemma_block_insts_split(blocks, b);
    let m = before.len() + k;
    assert(block_insts(blocks.take(b + 1))[m] == instrs[k]);
    assert(all.take(m + 1).drop_last() =~= all.take(m));
    lemma_insts_weight_grows(all, m + 1);
}

/// Whether `f` passes the check: [`function_supported`] and a weight within
/// [`ANALYSIS_LIMIT`]. The analysis of a function that passes never stops
/// (see [`lemma_supported_function_is_analysed`]); the weight bound is
/// sufficient only, so a heavier function may still be analysed, which
/// [`try_analyse_function`] tells exactly.
pub fn function_ok(f: &Function) -> (b: bool)
    ensures
        b == (function_supported(*f) && function_weight(*f) <= ANALYSIS_LIMIT),
{
    let ghost ps = f.parameters@;
    let ghost blocks = f.basic_blocks@;
    let ghost xs = block_insts(blocks);
    let mut total: u64 = 0;
    let np = f.parameters.len();
    proof {
        assert(ps.take(0) =~= Seq::<Parameter>::empty());
    }
    for i in 0..np
        invariant
            np == ps.len(),
            ps == f.parameters@,
            total == 2 * params_weight(ps.take(i as int)),
            total <= ANALYSIS_LIMIT,
            forall|j: int| 0 <= j < i ==> chain_ok(#[trigger] ps[j].ty),
    {
        proof {
            assert(ps.take(i + 1).drop_last() =~= ps.take(i as int));
        }
        match chain_info(&f.parameters[i].ty) {
            Some(n) => {
                if n > (ANALYSIS_LIMIT - total) / 2 {
                    proof {
                        lemma_params_weight_grows(ps, i + 1);
                        lemma_weight_parts(*f);
                    }
                    return false;
                }
                total = total + 2 * n;
            },
            None => {
                proof {
                    lemma_params_weight_grows(ps, i + 1);
                    lemma_weight_parts(*f);
                    assert(!chain_ok(ps[i as int].ty) || chain_len(ps[i as int].ty) > ANALYSIS_LIMIT);
                    lemma_param_len_in_weight(ps, i as int);
                }
                return false;
            },
        }
    }
    proof {
        assert(ps.take(np as int) =~= ps);
    }
    let nb = f.basic_blocks.len();
    proof {
        assert(blocks.take(0) =~= Seq::<BasicBlock>::empty());
        assert(insts_weight(block_insts(blocks.take(0))) == 0);
    }
    let ghost pt = total;
    for b in 0..nb
        invariant
            nb == blocks.len(),
            blocks == f.basic_blocks@,
            xs == block_insts(blocks),
            pt == 2 * params_weight(ps),
            ps == f.parameters@,
            forall|j: int| 0 <= j < ps.len() ==> chain_ok(#[trigger] ps[j].ty),
            total == pt + insts_weight(block_insts(blocks.take(b as int))),
            total <= ANALYSIS_LIMIT,
            block_insts(blocks.take(b as int)).len() <= xs.len(),
            forall|j: int|
                0 <= j < block_insts(blocks.take(b as int)).len() ==> inst_supported(#[trigger] xs[j]),
    {
        let block = &f.basic_blocks[b];
        let ni = block.instrs.len();
        let ghost before = block_insts(blocks.take(b as int));
        let ghost instrs = block.instrs@;
        proof {
            lemma_block_insts_split(blocks, b as int);
            assert(instrs.take(0) =~= Seq::<Instruction>::empty());
            assert(before + instrs.take(0) =~= before);
        }
        for k in 0..ni
            invariant
                ni == instrs.len(),
                instrs == block.instrs@,
                block == &blocks[b as int],
                b < blocks.len(),
                before == block_insts(blocks.take(b as int)),
                block_insts(blocks.take(b + 1)) == before + instrs,
                before.len() + instrs.len() <= xs.len(),
                total == pt + insts_weight(before + instrs.take(k as int)),
                total <= ANALYSIS_LIMIT,
                forall|j: int| 0 <= j < before.len() + k ==> inst_supported(#[trigger] xs[j]),
                xs == block_insts(blocks),
                blocks == f.basic_blocks@,
                pt == 2 * params_weight(ps),
                ps == f.parameters@,
                forall|j: int| 0 <= j < ps.len() ==> chain_ok(#[trigger] ps[j].ty),
        {
            let ghost done = before + instrs.take(k as int);
            let ghost next = before + instrs.take(k + 1);
            proof {
                assert(next.drop_last() =~= done);
                assert(next.last() == instrs[k as int]);
                assert(insts_weight(next) == insts_weight(done) + inst_weight(instrs[k as int]));
                lemma_prefix_weight_le(*f, b as int, k + 1);
                lemma_inst_in_function(*f, b as int, k as int);
                lemma_weight_parts(*f);
            }
            match inst_info(&block.instrs[k]) {
                Some(n) => {
                    if n > ANALYSIS_LIMIT - total {
                        return false;
                    }
                    total = total + n;
                },
                None => {
                    proof {
                        let m = before.len() + k;
                        if !inst_supported(instrs[k as int]) {
                            assert(!inst_supported(xs[m]));
                        }
                    }
                    return false;
                },
            }
        }
        proof {
            assert(instrs.take(ni as int) =~= instrs);
            assert(before + instrs.take(ni as int) =~= before + instrs);
        }
    }
    proof {
        assert(blocks.take(nb as int) =~= blocks);
        lemma_weight_parts(*f);
    }
    true
}

/// Whether every function of `m` passes [`function_ok`].
pub fn module_ok(m: &Module) -> (b: bool)
    ensures
        b == forall|i: int|
            0 <= i < m.functions@.len() ==> function_supported(#[trigger] m.functions@[i])
                && function_weight(m.functions@[i]) <= ANALYSIS_LIMIT,
{
    let n = m.functions.len();
    for i in 0..n
        invariant
            n == m.functions@.len(),
            forall|j: int|
                0 <= j < i ==> function_supported(#[trigger] m.functions@[j]) && function_weight(
                    m.functions@[j],
                ) <= ANALYSIS_LIMIT,
    {
        if !function_ok(&m.functions[i]) {
            return false;
        }
    }
    true
}

/// Analyses every function of `m`, or gives `None` where the analysis of one
/// of them stops: an instruction or a type that it does not know, or a
/// counter or index of the context at its `u32` limit (see [`analysis_of`]).
pub fn analyse_module(m: &Module) -> (r: Option<ProgramLifetimes>)
    ensures
        r is Some <==> forall|i: int|
            0 <= i < m.functions@.len() ==> #[trigger] analysis_of(m.functions@[i]) is Some,
        r matches Some(p) ==> p@ == program_results(m.functions@) && distinct_keys(p@),
{
    let n = m.functions.len();
    for i in 0..n
        invariant
            n == m.functions@.len(),
            forall|j: int| 0 <= j < i ==> #[trigger] analysis_of(m.functions@[j]) is Some,
    {
        if try_analyse_function(&m.functions[i]).is_none() {
            return None;
        }
    }
    Some(ProgramLifetimes::new(m))
}

} // verus!
