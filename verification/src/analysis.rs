//! The intraprocedural lifetime analysis: how each instruction of a function
//! constrains the lifetimes of the locations it touches, and the analysis of
//! a whole module.
use vstd::prelude::*;
use crate::framework::{
    FunctionPass, block_insts, lemma_block_insts_split, lemma_run_insts_prefix, lemma_run_params_prefix,
    run_function_pass, run_insts, run_params, run_pass,
};
use crate::ir::BasicBlock;
use crate::ir::{Call, Callee, Constant, Function, Instruction, Module, Name, Operand, Parameter, name_text};
use crate::lifetimes::{
    ctx_text, render, CtxView, FunctionLifetimes, FunctionLifetimesView, Lifetime, LifetimeCtx, after_first,
    chain_step, empty_ctx, equate, finalize_step, is_prefix, node_step, outlives_step, reg_step,
};
use crate::graph::out_list;
use crate::ir::NameView;
use crate::lifetimes::{
    LocView, lemma_equate_exact, lemma_equate_joins, rep_lt, same_rep, valid_parents, with_root,
};
use crate::dsu::{all_reach_roots, ancestor, is_root, lemma_insert_self_reaches};
use crate::utilities::{dereference_type, pointee_of};
use crate::text::push_char;

verus! {

/// The pairs `(a[i], b[i])` for the positions that both sequences have.
pub open spec fn zip_lts(a: Seq<Lifetime>, b: Seq<Lifetime>) -> Seq<(Lifetime, Lifetime)> {
    Seq::new(
        if a.len() <= b.len() {
            a.len()
        } else {
            b.len()
        },
        |i: int| (a[i], b[i]),
    )
}

/// Declaring each pair equal in turn.
pub open spec fn equate_pairs(v: CtxView, pairs: Seq<(Lifetime, Lifetime)>) -> CtxView
    decreases pairs.len(),
{
    if pairs.len() == 0 {
        v
    } else {
        equate(equate_pairs(v, pairs.drop_last()), pairs.last().0, pairs.last().1)
    }
}

/// The first pair becomes an outlives constraint (its second lifetime
/// outlives its first), each later pair an equality.
pub open spec fn constrain_pairs(v: CtxView, pairs: Seq<(Lifetime, Lifetime)>) -> Option<CtxView> {
    if pairs.len() == 0 {
        Some(v)
    } else {
        match outlives_step(v, pairs[0].0, pairs[0].1) {
            None => None,
            Some(v1) => Some(equate_pairs(v1, pairs.skip(1))),
        }
    }
}

/// Entering a parameter: its locations are registered (each lifetime is
/// declared to outlive itself, which adds nothing).
pub open spec fn param_step(v: CtxView, param: Parameter) -> Option<CtxView> {
    match chain_step(v, param.name@, param.ty, 0) {
        None => None,
        Some((v1, _)) => Some(v1),
    }
}

/// `dest` takes the lifetimes of `source` level by level (a bitcast).
/// `None` for a source that is not a local value.
pub open spec fn set_equal_step(v: CtxView, source: Operand, dest: Name) -> Option<CtxView> {
    match source {
        Operand::LocalOperand { name, ty } => match chain_step(v, name@, ty, 0) {
            None => None,
            Some((v1, src)) => match chain_step(v1, dest@, ty, 0) {
                None => None,
                Some((v2, dst)) => Some(equate_pairs(v2, zip_lts(src, dst))),
            },
        },
        _ => None,
    }
}

/// `malloc`
pub open spec fn malloc_text() -> Seq<char> {
    seq!['m', 'a', 'l', 'l', 'o', 'c']
}

/// A call changes nothing; the analysis stops for a call through a local
/// value, a constant other than a global reference, metadata, or a call of
/// `malloc` whose result is not kept (a global is written with a leading
/// `%`, so its text never reads `malloc`).
pub open spec fn call_step(v: CtxView, cl: Call, func: Operand) -> Option<CtxView> {
    match func {
        Operand::ConstantOperand(Constant::GlobalReference { name }) => if name_text(name@)
            == malloc_text() {
            if cl.dest is Some {
                Some(v)
            } else {
                None
            }
        } else {
            Some(v)
        },
        _ => None,
    }
}

/// What an instruction does to the lifetime context, or `None` where the
/// analysis stops.
///
/// - A load from `address` of pointer type registers the address and the
///   destination; the second level of the destination outlives the third of
///   the address, and the deeper levels pair up as equalities.
/// - A store registers the stored value and the address; the address's
///   second level outlives the value's first, and the deeper levels pair up
///   as equalities. Storing a constant changes nothing.
/// - A bitcast makes the destination's levels equal to the operand's.
/// - A call changes nothing (see [`call_step`]); calling inline assembly stops
///   the analysis.
/// - Other instructions change nothing.
pub open spec fn transfer_step(v: CtxView, inst: Instruction) -> Option<CtxView> {
    match inst {
        Instruction::Load(load) => match load.address {
            Operand::LocalOperand { name, ty } => match chain_step(v, name@, ty, 0) {
                None => None,
                Some((v1, src)) => match pointee_of(ty) {
                    None => Some(v1),
                    Some(dest_ty) => match chain_step(v1, load.dest@, dest_ty, 0) {
                        None => None,
                        Some((v2, dst)) => if src.len() >= 2 {
                            constrain_pairs(v2, zip_lts(src.skip(2), after_first(dst)))
                        } else {
                            Some(v2)
                        },
                    },
                },
            },
            _ => None,
        },
        Instruction::Store(st) => {
            let value_part: Option<Option<(CtxView, Seq<Lifetime>)>> = match st.value {
                Operand::LocalOperand { name, ty } => Some(chain_step(v, name@, ty, 0)),
                Operand::MetadataOperand => Some(Some((v, seq![]))),
                Operand::ConstantOperand(_) => None,
            };
            match value_part {
                None => Some(v),
                Some(None) => None,
                Some(Some((v1, src))) => {
                    let addr_part: Option<(CtxView, Seq<Lifetime>)> = match st.address {
                        Operand::LocalOperand { name, ty } => chain_step(v1, name@, ty, 0),
                        Operand::MetadataOperand => Some((v1, seq![])),
                        Operand::ConstantOperand(_) => None,
                    };
                    match addr_part {
                        None => None,
                        Some((v2, dst)) => if dst.len() >= 1 {
                            constrain_pairs(v2, zip_lts(src, dst.skip(1)))
                        } else {
                            Some(v2)
                        },
                    }
                },
            }
        },
        Instruction::BitCast(bc) => set_equal_step(v, bc.operand, bc.dest),
        Instruction::Call(cl) => match cl.function {
            Callee::InlineAssembly => None,
            Callee::Operand(op) => call_step(v, cl, op),
        },
        _ => Some(v),
    }
}

/// From `v` to `w` nothing was taken away: registrations and graph slots
/// only grew at their ends, and every recorded node keeps its index.
pub open spec fn only_grows(v: CtxView, w: CtxView) -> bool {
    &&& is_prefix(v.ids, w.ids)
    &&& is_prefix(v.slots, w.slots)
    &&& forall|k: u64| #[trigger]
        v.node_of.contains_key(k) ==> w.node_of.contains_key(k) && w.node_of[k] == v.node_of[k]
}

/// From `v` to `w` the edges stayed as they were, or exactly one edge was
/// put in front of the outgoing list of one node (and counted).
pub open spec fn at_most_one_edge(v: CtxView, w: CtxView) -> bool {
    ||| w.links == v.links && w.succs == v.succs
    ||| w.links == v.links + 1 && exists|a: usize, b: usize|
        w.succs == #[trigger] v.succs.insert(a, seq![b] + out_list(v.succs, a))
}

proof fn lemma_grows_trans(u: CtxView, v: CtxView, w: CtxView)
    requires
        only_grows(u, v),
        only_grows(v, w),
    ensures
        only_grows(u, w),
{
    assert forall|i: int| 0 <= i < u.ids.len() implies #[trigger] u.ids[i] == w.ids[i] by {
        assert(u.ids[i] == v.ids[i]);
    }
    assert forall|i: int| 0 <= i < u.slots.len() implies #[trigger] u.slots[i] == w.slots[i] by {
        assert(u.slots[i] == v.slots[i]);
    }
}

proof fn lemma_reg_grows(v: CtxView, loc: LocView)
    requires
        reg_step(v, loc) is Some,
    ensures
        only_grows(v, reg_step(v, loc)->Some_0.0),
        reg_step(v, loc)->Some_0.0.succs == v.succs,
        reg_step(v, loc)->Some_0.0.links == v.links,
{
    let w = reg_step(v, loc)->Some_0.0;
    assert forall|i: int| 0 <= i < v.ids.len() implies #[trigger] v.ids[i] == w.ids[i] by {}
}

proof fn lemma_chain_grows(v: CtxView, name: NameView, ty: crate::ir::Type, ind: u32)
    requires
        chain_step(v, name, ty, ind) is Some,
    ensures
        only_grows(v, chain_step(v, name, ty, ind)->Some_0.0),
        chain_step(v, name, ty, ind)->Some_0.0.succs == v.succs,
        chain_step(v, name, ty, ind)->Some_0.0.links == v.links,
    decreases ty,
{
    lemma_reg_grows(v, (name, ind));
    let v1 = reg_step(v, (name, ind))->Some_0.0;
    if let crate::ir::Type::PointerType { pointee_type, .. } = ty {
        lemma_chain_grows(v1, name, *pointee_type, (ind + 1) as u32);
        lemma_grows_trans(v, v1, chain_step(v1, name, *pointee_type, (ind + 1) as u32)->Some_0.0);
    }
}

proof fn lemma_equate_pairs_keeps(v: CtxView, ps: Seq<(Lifetime, Lifetime)>)
    ensures
        equate_pairs(v, ps) == (CtxView { parents: equate_pairs(v, ps).parents, ..v }),
    decreases ps.len(),
{
    if ps.len() > 0 {
        lemma_equate_pairs_keeps(v, ps.drop_last());
    }
}

proof fn lemma_node_grows(v: CtxView, lt: Lifetime)
    requires
        node_step(v, lt) is Some,
    ensures
        only_grows(v, node_step(v, lt)->Some_0.0),
        node_step(v, lt)->Some_0.0.succs == v.succs,
        node_step(v, lt)->Some_0.0.links == v.links,
{
    let w = node_step(v, lt)->Some_0.0;
    assert forall|i: int| 0 <= i < v.slots.len() implies #[trigger] v.slots[i] == w.slots[i] by {}
}

proof fn lemma_outlives_grows(v: CtxView, l: Lifetime, r: Lifetime)
    requires
        outlives_step(v, l, r) is Some,
    ensures
        only_grows(v, outlives_step(v, l, r)->Some_0),
        at_most_one_edge(v, outlives_step(v, l, r)->Some_0),
{
    if l != r {
        let (v1, shorter) = node_step(v, l)->Some_0;
        let (v2, longer) = node_step(v1, r)->Some_0;
        lemma_node_grows(v, l);
        lemma_node_grows(v1, r);
        lemma_grows_trans(v, v1, v2);
        let w = outlives_step(v, l, r)->Some_0;
        assert(w.succs == v.succs.insert(longer, seq![shorter] + out_list(v.succs, longer)));
    }
}

proof fn lemma_constrain_grows(v: CtxView, ps: Seq<(Lifetime, Lifetime)>)
    requires
        constrain_pairs(v, ps) is Some,
    ensures
        only_grows(v, constrain_pairs(v, ps)->Some_0),
        at_most_one_edge(v, constrain_pairs(v, ps)->Some_0),
{
    if ps.len() > 0 {
        lemma_outlives_grows(v, ps[0].0, ps[0].1);
        lemma_equate_pairs_keeps(outlives_step(v, ps[0].0, ps[0].1)->Some_0, ps.skip(1));
    }
}

/// An instruction only adds to the context: registrations and graph nodes
/// are kept, each node keeps its index, and at most one outlives edge is
/// added (at the front of one node's outgoing list).
pub proof fn lemma_transfer_only_grows(v: CtxView, inst: Instruction)
    requires
        transfer_step(v, inst) is Some,
    ensures
        only_grows(v, transfer_step(v, inst)->Some_0),
        at_most_one_edge(v, transfer_step(v, inst)->Some_0),
{
    let w = transfer_step(v, inst)->Some_0;
    match inst {
        Instruction::Load(load) => {
            if let Operand::LocalOperand { name, ty } = load.address {
                lemma_chain_grows(v, name@, ty, 0);
                let (v1, src) = chain_step(v, name@, ty, 0)->Some_0;
                if let Some(dest_ty) = pointee_of(ty) {
                    lemma_chain_grows(v1, load.dest@, dest_ty, 0);
                    let (v2, dst) = chain_step(v1, load.dest@, dest_ty, 0)->Some_0;
                    lemma_grows_trans(v, v1, v2);
                    if src.len() >= 2 {
                        lemma_constrain_grows(v2, zip_lts(src.skip(2), after_first(dst)));
                        lemma_grows_trans(v, v2, w);
                    }
                }
            }
        },
        Instruction::Store(st) => {
            match st.value {
                Operand::ConstantOperand(_) => {},
                _ => {
                    let (v1, src) = match st.value {
                        Operand::LocalOperand { name, ty } => {
                            lemma_chain_grows(v, name@, ty, 0);
                            chain_step(v, name@, ty, 0)->Some_0
                        },
                        _ => (v, seq![]),
                    };
                    let (v2, dst) = match st.address {
                        Operand::LocalOperand { name, ty } => {
                            lemma_chain_grows(v1, name@, ty, 0);
                            chain_step(v1, name@, ty, 0)->Some_0
                        },
                        _ => (v1, seq![]),
                    };
                    lemma_grows_trans(v, v1, v2);
                    if dst.len() >= 1 {
                        lemma_constrain_grows(v2, zip_lts(src, dst.skip(1)));
                        lemma_grows_trans(v, v2, w);
                    }
                },
            }
        },
        Instruction::BitCast(bc) => {
            if let Operand::LocalOperand { name, ty } = bc.operand {
                lemma_chain_grows(v, name@, ty, 0);
                let (v1, src) = chain_step(v, name@, ty, 0)->Some_0;
                lemma_chain_grows(v1, bc.dest@, ty, 0);
                let (v2, dst) = chain_step(v1, bc.dest@, ty, 0)->Some_0;
                lemma_grows_trans(v, v1, v2);
                lemma_equate_pairs_keeps(v2, zip_lts(src, dst));
            }
        },
        _ => {},
    }
}

proof fn lemma_with_root_valid(v: CtxView, lt: Lifetime)
    requires
        all_reach_roots(v.parents),
        valid_parents(v.parents),
    ensures
        all_reach_roots(with_root(v, lt).parents),
        valid_parents(with_root(v, lt).parents),
        with_root(v, lt).succs == v.succs,
        with_root(v, lt).node_of == v.node_of,
{
    let m = v.parents;
    let k = crate::lifetimes::lt_key(lt);
    assert forall|x: u64| #[trigger] crate::dsu::reaches_root(m.insert(k, k), x) by {
        assert(crate::dsu::reaches_root(m, x));
        let n = choose|n: nat| is_root(m, #[trigger] ancestor(m, x, n));
        lemma_insert_self_reaches(m, k, x, n);
    }
}

proof fn lemma_chain_valid(v: CtxView, name: NameView, ty: crate::ir::Type, ind: u32)
    requires
        all_reach_roots(v.parents),
        valid_parents(v.parents),
        chain_step(v, name, ty, ind) is Some,
    ensures
        all_reach_roots(chain_step(v, name, ty, ind)->Some_0.0.parents),
        valid_parents(chain_step(v, name, ty, ind)->Some_0.0.parents),
    decreases ty,
{
    let loc = (name, ind);
    let (v1, l) = reg_step(v, loc)->Some_0;
    if loc.1 != 0 && lookup_loc_none(v, loc) && v.counter < u32::MAX {
        let vc = CtxView {
            counter: (v.counter + 1) as u32,
            ids: v.ids.push((loc, l)),
            ..v
        };
        lemma_with_root_valid(vc, l);
    } else {
        lemma_with_root_valid(v, l);
    }
    if let crate::ir::Type::PointerType { pointee_type, .. } = ty {
        lemma_chain_valid(v1, name, *pointee_type, (ind + 1) as u32);
    }
}

spec fn lookup_loc_none(v: CtxView, loc: LocView) -> bool {
    crate::lifetimes::lookup_loc(v.ids, loc) is None
}

proof fn lemma_equate_pairs_joins(v: CtxView, ps: Seq<(Lifetime, Lifetime)>)
    requires
        all_reach_roots(v.parents),
        valid_parents(v.parents),
    ensures
        all_reach_roots(equate_pairs(v, ps).parents),
        valid_parents(equate_pairs(v, ps).parents),
        forall|i: int| 0 <= i < ps.len() ==> same_rep(equate_pairs(v, ps), #[trigger] ps[i].0, ps[i].1),
        forall|x: Lifetime, y: Lifetime| #[trigger] same_rep(v, x, y) ==> same_rep(equate_pairs(v, ps), x, y),
    decreases ps.len(),
{
    if ps.len() > 0 {
        let w = equate_pairs(v, ps.drop_last());
        lemma_equate_pairs_joins(v, ps.drop_last());
        let l = ps.last();
        lemma_equate_exact(w, l.0, l.1);
        lemma_equate_joins(w, l.0, l.1);
        let w2 = equate_pairs(v, ps);
        assert forall|i: int| 0 <= i < ps.len() implies same_rep(w2, #[trigger] ps[i].0, ps[i].1) by {
            if i < ps.len() - 1 {
                assert(ps.drop_last()[i] == ps[i]);
                assert(same_rep(w, ps[i].0, ps[i].1));
            }
        }
        assert forall|x: Lifetime, y: Lifetime| #[trigger] same_rep(v, x, y) implies same_rep(w2, x, y) by {
            assert(same_rep(w, x, y));
        }
    }
}

/// Constraining the level pairs of a load or a store: the second lifetime
/// of the first pair outlives its first (an edge from the node of the second
/// to the node of the first, when they differ), and the two lifetimes of
/// every later pair get one representative. Lifetimes that shared a
/// representative still do.
pub proof fn lemma_constrain_equates(v: CtxView, ps: Seq<(Lifetime, Lifetime)>)
    requires
        all_reach_roots(v.parents),
        valid_parents(v.parents),
        constrain_pairs(v, ps) is Some,
    ensures
        forall|i: int|
            1 <= i < ps.len() ==> same_rep(constrain_pairs(v, ps)->Some_0, #[trigger] ps[i].0, ps[i].1),
        forall|x: Lifetime, y: Lifetime|
            #[trigger] same_rep(v, x, y) ==> same_rep(constrain_pairs(v, ps)->Some_0, x, y),
        ps.len() > 0 && ps[0].0 != ps[0].1 ==> {
            let w = constrain_pairs(v, ps)->Some_0;
            let kl = crate::lifetimes::lt_key(ps[0].0);
            let kr = crate::lifetimes::lt_key(ps[0].1);
            &&& w.node_of.contains_key(kl)
            &&& w.node_of.contains_key(kr)
            &&& out_list(w.succs, w.node_of[kr]).contains(w.node_of[kl])
        },
{
    if ps.len() > 0 {
        let v1 = outlives_step(v, ps[0].0, ps[0].1)->Some_0;
        assert(v1.parents == v.parents);
        let rest = ps.skip(1);
        lemma_equate_pairs_joins(v1, rest);
        lemma_equate_pairs_keeps(v1, rest);
        let w = constrain_pairs(v, ps)->Some_0;
        assert forall|i: int| 1 <= i < ps.len() implies same_rep(w, #[trigger] ps[i].0, ps[i].1) by {
            assert(rest[i - 1] == ps[i]);
        }
        assert forall|x: Lifetime, y: Lifetime| #[trigger] same_rep(v, x, y) implies same_rep(w, x, y) by {
            assert(same_rep(v1, x, y));
        }
        if ps[0].0 != ps[0].1 {
            let (va, shorter) = node_step(v, ps[0].0)->Some_0;
            let (vb, longer) = node_step(va, ps[0].1)->Some_0;
            assert(out_list(w.succs, longer)[0] == shorter);
        }
    }
}

/// What the instructions make equal. After a load from a local pointer, each
/// level of the address from the fourth on shares a representative with the
/// level of the destination one above it (the third level's pair is the
/// outlives constraint). After a store of a local value to a local address,
/// each level of the value from the second on shares one with the level of
/// the address one below it. After a bitcast, each level of the destination
/// shares one with the same level of the operand.
pub proof fn lemma_transfer_equates(v: CtxView, inst: Instruction)
    requires
        all_reach_roots(v.parents),
        valid_parents(v.parents),
        transfer_step(v, inst) is Some,
    ensures
        inst matches Instruction::Load(load) ==> (load.address matches Operand::LocalOperand {
            name,
            ty,
        } ==> (pointee_of(ty) matches Some(dest_ty) ==> ({
            let (v1, src) = chain_step(v, name@, ty, 0)->Some_0;
            let dst = chain_step(v1, load.dest@, dest_ty, 0)->Some_0.1;
            forall|k: int|
                3 <= k < src.len() && 0 <= k - 1 < dst.len() ==> same_rep(
                    transfer_step(v, inst)->Some_0,
                    #[trigger] src[k],
                    dst[k - 1],
                )
        }))),
        inst matches Instruction::Store(st) ==> (st.value matches Operand::LocalOperand {
            name: vn,
            ty: vt,
        } ==> (st.address matches Operand::LocalOperand { name: an, ty: at } ==> ({
            let (v1, src) = chain_step(v, vn@, vt, 0)->Some_0;
            let dst = chain_step(v1, an@, at, 0)->Some_0.1;
            forall|k: int|
                1 <= k < src.len() && k + 1 < dst.len() ==> same_rep(
                    transfer_step(v, inst)->Some_0,
                    #[trigger] src[k],
                    dst[k + 1],
                )
        }))),
        inst matches Instruction::BitCast(bc) ==> (bc.operand matches Operand::LocalOperand {
            name,
            ty,
        } ==> ({
            let (v1, src) = chain_step(v, name@, ty, 0)->Some_0;
            let dst = chain_step(v1, bc.dest@, ty, 0)->Some_0.1;
            forall|k: int|
                0 <= k < src.len() && k < dst.len() ==> same_rep(
                    transfer_step(v, inst)->Some_0,
                    #[trigger] src[k],
                    dst[k],
                )
        })),
{
    let w = transfer_step(v, inst)->Some_0;
    match inst {
        Instruction::Load(load) => {
            if let Operand::LocalOperand { name, ty } = load.address {
                lemma_chain_valid(v, name@, ty, 0);
                let (v1, src) = chain_step(v, name@, ty, 0)->Some_0;
                if let Some(dest_ty) = pointee_of(ty) {
                    lemma_chain_valid(v1, load.dest@, dest_ty, 0);
                    let (v2, dst) = chain_step(v1, load.dest@, dest_ty, 0)->Some_0;
                    if src.len() >= 2 {
                        let ps = zip_lts(src.skip(2), after_first(dst));
                        lemma_constrain_equates(v2, ps);
                        assert(w == constrain_pairs(v2, ps)->Some_0);
                        assert forall|k: int| 3 <= k < src.len() && 0 <= k - 1 < dst.len() implies same_rep(
                            w,
                            #[trigger] src[k],
                            dst[k - 1],
                        ) by {
                            assert(src.skip(2)[k - 2] == src[k]);
                            assert(after_first(dst)[k - 2] == dst[k - 1]);
                            assert(ps[k - 2] == (src[k], dst[k - 1]));
                            assert(same_rep(w, ps[k - 2].0, ps[k - 2].1));
                        }
                    }
                }
            }
        },
        Instruction::Store(st) => {
            if let Operand::LocalOperand { name: vn, ty: vt } = st.value {
                if let Operand::LocalOperand { name: an, ty: at } = st.address {
                    lemma_chain_valid(v, vn@, vt, 0);
                    let (v1, src) = chain_step(v, vn@, vt, 0)->Some_0;
                    lemma_chain_valid(v1, an@, at, 0);
                    let (v2, dst) = chain_step(v1, an@, at, 0)->Some_0;
                    if dst.len() >= 1 {
                        let ps = zip_lts(src, dst.skip(1));
                        lemma_constrain_equates(v2, ps);
                        assert(w == constrain_pairs(v2, ps)->Some_0);
                        assert forall|k: int| 1 <= k < src.len() && k + 1 < dst.len() implies same_rep(
                            w,
                            #[trigger] src[k],
                            dst[k + 1],
                        ) by {
                            assert(dst.skip(1)[k] == dst[k + 1]);
                            assert(ps[k] == (src[k], dst[k + 1]));
                            assert(same_rep(w, ps[k].0, ps[k].1));
                        }
                    }
                }
            }
        },
        Instruction::BitCast(bc) => {
            if let Operand::LocalOperand { name, ty } = bc.operand {
                lemma_chain_valid(v, name@, ty, 0);
                let (v1, src) = chain_step(v, name@, ty, 0)->Some_0;
                lemma_chain_valid(v1, bc.dest@, ty, 0);
                let (v2, dst) = chain_step(v1, bc.dest@, ty, 0)->Some_0;
                let ps = zip_lts(src, dst);
                lemma_equate_pairs_joins(v2, ps);
                assert(w == equate_pairs(v2, ps));
                assert forall|k: int| 0 <= k < src.len() && k < dst.len() implies same_rep(
                    w,
                    #[trigger] src[k],
                    dst[k],
                ) by {
                    assert(ps[k] == (src[k], dst[k]));
                    assert(same_rep(w, ps[k].0, ps[k].1));
                }
            }
        },
        _ => {},
    }
}

/// The per-function lifetime analysis: the lifetime context it fills.
pub struct IntraLifetimeAnalysis {
    pub lt_ctx: LifetimeCtx,
}

impl Default for IntraLifetimeAnalysis {
    fn default() -> (r: Self)
        ensures
            r.lt_ctx.wf(),
            r.lt_ctx@ == empty_ctx(),
    {
        IntraLifetimeAnalysis { lt_ctx: LifetimeCtx::default() }
    }
}

/// The pairs `(a[i], b[j])` for `i` from `from_a` and `j` from `from_b`,
/// as long as both sequences last.
fn zip_from(a: &Vec<Lifetime>, from_a: usize, b: &Vec<Lifetime>, from_b: usize) -> (r: Vec<
    (Lifetime, Lifetime),
>)
    requires
        from_a <= a@.len(),
        from_b <= b@.len(),
    ensures
        r@ == zip_lts(a@.skip(from_a as int), b@.skip(from_b as int)),
{
    let ghost target = zip_lts(a@.skip(from_a as int), b@.skip(from_b as int));
    let mut r: Vec<(Lifetime, Lifetime)> = Vec::new();
    let mut i = from_a;
    let mut j = from_b;
    while i < a.len() && j < b.len()
        invariant
            from_a <= i <= a@.len(),
            from_b <= j <= b@.len(),
            i - from_a == j - from_b,
            r@ == target.take(i - from_a),
            target.len() >= i - from_a,
            target == zip_lts(a@.skip(from_a as int), b@.skip(from_b as int)),
        decreases a@.len() - i,
    {
        r.push((a[i], b[j]));
        proof {
            assert(r@ =~= target.take(i - from_a + 1));
        }
        i = i + 1;
        j = j + 1;
    }
    proof {
        assert(r@ =~= target);
    }
    r
}

impl IntraLifetimeAnalysis {
    /// Declares each pair equal in turn, from position `from`.
    fn equate_pairs_from(&mut self, pairs: &Vec<(Lifetime, Lifetime)>, from: usize)
        requires
            old(self).lt_ctx.wf(),
            from <= pairs@.len(),
        ensures
            final(self).lt_ctx.wf(),
            final(self).lt_ctx@ == equate_pairs(old(self).lt_ctx@, pairs@.skip(from as int)),
    {
        let ghost start = self.lt_ctx@;
        let ghost rest = pairs@.skip(from as int);
        let mut k = from;
        proof {
            assert(rest.take(0) =~= Seq::<(Lifetime, Lifetime)>::empty());
        }
        while k < pairs.len()
            invariant
                from <= k <= pairs@.len(),
                rest == pairs@.skip(from as int),
                self.lt_ctx.wf(),
                self.lt_ctx@ == equate_pairs(start, rest.take(k - from)),
            decreases pairs@.len() - k,
        {
            let pair = pairs[k];
            self.lt_ctx.generate_equality(pair.0, pair.1);
            proof {
                assert(rest.take(k + 1 - from).drop_last() =~= rest.take(k - from));
                assert(rest[k - from] == pairs@[k as int]);
            }
            k = k + 1;
        }
        proof {
            assert(rest.take(k - from) =~= rest);
        }
    }

    /// The first pair becomes an outlives constraint, the others equalities;
    /// see [`constrain_pairs`].
    fn constrain(&mut self, pairs: &Vec<(Lifetime, Lifetime)>)
        requires
            old(self).lt_ctx.wf(),
            constrain_pairs(old(self).lt_ctx@, pairs@) is Some,
        ensures
            final(self).lt_ctx.wf(),
            constrain_pairs(old(self).lt_ctx@, pairs@) == Some(final(self).lt_ctx@),
    {
        if pairs.len() > 0 {
            let first = pairs[0];
            self.lt_ctx.generate_outlives(first.0, first.1);
            self.equate_pairs_from(pairs, 1);
        }
    }
}

/// `dest` takes the lifetimes of `source` level by level; see
/// [`set_equal_step`].
fn set_equal(lifetimes: &mut IntraLifetimeAnalysis, source: &Operand, dest: &Name)
    requires
        old(lifetimes).lt_ctx.wf(),
        set_equal_step(old(lifetimes).lt_ctx@, *source, *dest) is Some,
    ensures
        final(lifetimes).lt_ctx.wf(),
        set_equal_step(old(lifetimes).lt_ctx@, *source, *dest) == Some(final(lifetimes).lt_ctx@),
{
    match source {
        Operand::LocalOperand { name, ty } => {
            let source_lts = lifetimes.lt_ctx.register_lifetimes(name, ty);
            let dest_lts = lifetimes.lt_ctx.register_lifetimes(dest, ty);
            let pairs = zip_from(&source_lts, 0, &dest_lts, 0);
            proof {
                assert(source_lts@.skip(0) =~= source_lts@);
                assert(dest_lts@.skip(0) =~= dest_lts@);
            }
            lifetimes.equate_pairs_from(&pairs, 0);
            proof {
                assert(pairs@.skip(0) =~= pairs@);
            }
        },
        _ => {},
    }
}

/// A call changes nothing; see [`call_step`].
fn transfer_call(_lifetimes: &mut IntraLifetimeAnalysis, cl: &Call, func: &Operand)
    requires
        call_step(old(_lifetimes).lt_ctx@, *cl, *func) is Some,
    ensures
        *final(_lifetimes) == *old(_lifetimes),
{
    match func {
        Operand::ConstantOperand(Constant::GlobalReference { name }) => {
            let text = name.to_string();
            let malloc = String::from_str("malloc");
            proof {
                reveal_strlit("malloc");
                assert(malloc@ == malloc_text());
            }
            if text == malloc {
                match &cl.dest {
                    Some(_nm) => {},
                    None => {},
                }
            } else {
                return ;
            }
        },
        _ => {},
    }
}

impl FunctionPass<FunctionLifetimes> for IntraLifetimeAnalysis {
    type State = CtxView;

    open spec fn state(&self) -> CtxView {
        self.lt_ctx@
    }

    open spec fn inv(&self) -> bool {
        self.lt_ctx.wf()
    }

    open spec fn param_step(s: CtxView, param: Parameter) -> Option<CtxView> {
        param_step(s, param)
    }

    open spec fn inst_step(s: CtxView, inst: Instruction) -> Option<CtxView> {
        transfer_step(s, inst)
    }

    open spec fn completion_step(s: CtxView, func: Function) -> Option<
        (CtxView, FunctionLifetimesView),
    > {
        finalize_step(s, func)
    }

    fn init_param(&mut self, param: &Parameter) {
        let lifetimes = self.lt_ctx.register_parameter_lifetimes(param);
        let n = lifetimes.len();
        for k in 0..n
            invariant
                n == lifetimes@.len(),
                self.lt_ctx.wf(),
                param_step(old(self).lt_ctx@, *param) == Some(self.lt_ctx@),
        {
            let l = lifetimes[k];
            self.lt_ctx.generate_outlives(l, l);
        }
    }

    fn on_completion(&mut self, func: &Function) -> (r: FunctionLifetimes) {
        self.lt_ctx.finalize(func)
    }

    fn transfer(&mut self, inst: &Instruction) {
        match inst {
            Instruction::Alloca => {},
            Instruction::Load(load) => match &load.address {
                Operand::LocalOperand { name, ty } => {
                    let source_lts = self.lt_ctx.register_lifetimes(name, ty);
                    let dest_ty_opt = dereference_type(ty);
                    if let Some(dest_ty) = dest_ty_opt {
                        let dest_lts = self.lt_ctx.register_lifetimes(&load.dest, &dest_ty);
                        if source_lts.len() >= 2 && dest_lts.len() >= 1 {
                            let constraints = zip_from(&source_lts, 2, &dest_lts, 1);
                            self.constrain(&constraints);
                        } else {
                            proof {
                                if source_lts@.len() >= 2 {
                                    assert(zip_lts(source_lts@.skip(2), after_first(dest_lts@)).len()
                                        == 0);
                                }
                            }
                        }
                    }
                },
                _ => {},
            },
            Instruction::Store(st) => {
                let source_lts: Vec<Lifetime> = match &st.value {
                    Operand::LocalOperand { name, ty } => self.lt_ctx.register_lifetimes(name, ty),
                    Operand::MetadataOperand => Vec::new(),
                    Operand::ConstantOperand(_) => {
                        return ;
                    },
                };
                let dest_lts: Vec<Lifetime> = match &st.address {
                    Operand::LocalOperand { name, ty } => self.lt_ctx.register_lifetimes(name, ty),
                    Operand::MetadataOperand => Vec::new(),
                    Operand::ConstantOperand(_) => {
                        return ;
                    },
                };
                if dest_lts.len() >= 1 {
                    let constrained = zip_from(&source_lts, 0, &dest_lts, 1);
                    proof {
                        assert(source_lts@.skip(0) =~= source_lts@);
                    }
                    self.constrain(&constrained);
                }
            },
            Instruction::BitCast(bc) => set_equal(self, &bc.operand, &bc.dest),
            Instruction::Call(cl) => match &cl.function {
                Callee::InlineAssembly => {},
                Callee::Operand(func) => transfer_call(self, cl, func),
            },
            _ => {},
        }
    }
}

impl IntraLifetimeAnalysis {
    /// Like `transfer`, but it reports whether the instruction could be
    /// transferred instead of needing that ruled out beforehand: `false`
    /// exactly where [`transfer_step`] stops (then the context is left in
    /// some well-formed state).
    pub fn try_transfer(&mut self, inst: &Instruction) -> (ok: bool)
        requires
            old(self).lt_ctx.wf(),
        ensures
            final(self).lt_ctx.wf(),
            ok == (transfer_step(old(self).lt_ctx@, *inst) is Some),
            ok ==> transfer_step(old(self).lt_ctx@, *inst) == Some(final(self).lt_ctx@),
    {
        match inst {
            Instruction::Load(load) => match &load.address {
                Operand::LocalOperand { name, ty } => {
                    if !self.lt_ctx.chain_feasible(name, ty) {
                        return false;
                    }
                    let source_lts = self.lt_ctx.register_lifetimes(name, ty);
                    let dest_ty_opt = dereference_type(ty);
                    match dest_ty_opt {
                        Some(dest_ty) => {
                            if !self.lt_ctx.chain_feasible(&load.dest, &dest_ty) {
                                return false;
                            }
                            let dest_lts = self.lt_ctx.register_lifetimes(&load.dest, &dest_ty);
                            if source_lts.len() >= 2 && dest_lts.len() >= 1 {
                                let constraints = zip_from(&source_lts, 2, &dest_lts, 1);
                                if constraints.len() > 0 && !self.lt_ctx.outlives_feasible(
                                    constraints[0].0,
                                    constraints[0].1,
                                ) {
                                    return false;
                                }
                                self.constrain(&constraints);
                            } else {
                                proof {
                                    if source_lts@.len() >= 2 {
                                        assert(zip_lts(source_lts@.skip(2), after_first(dest_lts@)).len()
                                            == 0);
                                    }
                                }
                            }
                            true
                        },
                        None => true,
                    }
                },
                _ => false,
            },
            Instruction::Store(st) => {
                let source_lts: Vec<Lifetime> = match &st.value {
                    Operand::LocalOperand { name, ty } => {
                        if !self.lt_ctx.chain_feasible(name, ty) {
                            return false;
                        }
                        self.lt_ctx.register_lifetimes(name, ty)
                    },
                    Operand::MetadataOperand => Vec::new(),
                    Operand::ConstantOperand(_) => {
                        return true;
                    },
                };
                let dest_lts: Vec<Lifetime> = match &st.address {
                    Operand::LocalOperand { name, ty } => {
                        if !self.lt_ctx.chain_feasible(name, ty) {
                            return false;
                        }
                        self.lt_ctx.register_lifetimes(name, ty)
                    },
                    Operand::MetadataOperand => Vec::new(),
                    Operand::ConstantOperand(_) => {
                        return false;
                    },
                };
                if dest_lts.len() >= 1 {
                    let constrained = zip_from(&source_lts, 0, &dest_lts, 1);
                    proof {
                        assert(source_lts@.skip(0) =~= source_lts@);
                    }
                    if constrained.len() > 0 && !self.lt_ctx.outlives_feasible(
                        constrained[0].0,
                        constrained[0].1,
                    ) {
                        return false;
                    }
                    self.constrain(&constrained);
                }
                true
            },
            Instruction::BitCast(bc) => match &bc.operand {
                Operand::LocalOperand { name, ty } => {
                    if !self.lt_ctx.chain_feasible(name, ty) {
                        return false;
                    }
                    let source_lts = self.lt_ctx.register_lifetimes(name, ty);
                    if !self.lt_ctx.chain_feasible(&bc.dest, ty) {
                        return false;
                    }
                    let dest_lts = self.lt_ctx.register_lifetimes(&bc.dest, ty);
                    let pairs = zip_from(&source_lts, 0, &dest_lts, 0);
                    proof {
                        assert(source_lts@.skip(0) =~= source_lts@);
                        assert(dest_lts@.skip(0) =~= dest_lts@);
                    }
                    self.equate_pairs_from(&pairs, 0);
                    proof {
                        assert(pairs@.skip(0) =~= pairs@);
                    }
                    true
                },
                _ => false,
            },
            Instruction::Call(cl) => match &cl.function {
                Callee::InlineAssembly => false,
                Callee::Operand(func) => match func {
                    Operand::ConstantOperand(Constant::GlobalReference { name }) => {
                        let text = name.to_string();
                        let malloc = String::from_str("malloc");
                        proof {
                            reveal_strlit("malloc");
                            assert(malloc@ == malloc_text());
                        }
                        if text == malloc {
                            cl.dest.is_some()
                        } else {
                            true
                        }
                    },
                    _ => false,
                },
            },
            _ => true,
        }
    }

    /// Like `init_param`, but it reports whether the parameter could be
    /// entered: `false` exactly where [`param_step`] stops.
    pub fn try_init_param(&mut self, param: &Parameter) -> (ok: bool)
        requires
            old(self).lt_ctx.wf(),
        ensures
            final(self).lt_ctx.wf(),
            ok == (param_step(old(self).lt_ctx@, *param) is Some),
            ok ==> param_step(old(self).lt_ctx@, *param) == Some(final(self).lt_ctx@),
    {
        if !self.lt_ctx.chain_feasible(&param.name, &param.ty) {
            return false;
        }
        self.init_param(param);
        true
    }
}

/// What the analysis of one function gives, starting from an empty
/// context; `None` where the analysis stops.
pub open spec fn analysis_of(f: Function) -> Option<FunctionLifetimesView> {
    match run_pass::<FunctionLifetimes, IntraLifetimeAnalysis>(empty_ctx(), f) {
        Some((_, fl)) => Some(fl),
        None => None,
    }
}

/// Analyses `f` from an empty context, giving `None` exactly where the
/// analysis stops (an instruction or a type that it does not know, or a
/// counter or index of the context at its `u32` limit); see [`analysis_of`].
pub fn try_analyse_function(f: &Function) -> (r: Option<FunctionLifetimes>)
    ensures
        r is Some <==> analysis_of(*f) is Some,
        r matches Some(fl) ==> analysis_of(*f) == Some(fl@),
{
    let mut state = IntraLifetimeAnalysis::default();
    let ghost s0 = state.lt_ctx@;
    let ghost params = f.parameters@;
    let np = f.parameters.len();
    proof {
        assert(params.take(0) =~= Seq::<Parameter>::empty());
    }
    for i in 0..np
        invariant
            np == params.len(),
            params == f.parameters@,
            s0 == empty_ctx(),
            state.lt_ctx.wf(),
            run_params::<FunctionLifetimes, IntraLifetimeAnalysis>(s0, params.take(i as int))
                == Some(state.lt_ctx@),
    {
        proof {
            assert(params.take(i + 1).drop_last() =~= params.take(i as int));
            assert(params.take(i + 1).last() == params[i as int]);
        }
        if !state.try_init_param(&f.parameters[i]) {
            proof {
                if run_params::<FunctionLifetimes, IntraLifetimeAnalysis>(s0, params) is Some {
                    lemma_run_params_prefix::<FunctionLifetimes, IntraLifetimeAnalysis>(s0, params, i + 1);
                    assert(false);
                }
            }
            return None;
        }
    }
    proof {
        assert(params.take(np as int) =~= params);
    }
    let ghost s1 = state.lt_ctx@;
    let ghost blocks = f.basic_blocks@;
    let ghost all = block_insts(blocks);
    let nb = f.basic_blocks.len();
    proof {
        assert(blocks.take(0) =~= Seq::<BasicBlock>::empty());
        assert(all.take(0) =~= Seq::<Instruction>::empty());
    }
    for b in 0..nb
        invariant
            nb == blocks.len(),
            blocks == f.basic_blocks@,
            all == block_insts(blocks),
            s0 == empty_ctx(),
            params == f.parameters@,
            run_params::<FunctionLifetimes, IntraLifetimeAnalysis>(s0, params) == Some(s1),
            state.lt_ctx.wf(),
            block_insts(blocks.take(b as int)).len() <= all.len(),
            run_insts::<FunctionLifetimes, IntraLifetimeAnalysis>(
                s1,
                all.take(block_insts(blocks.take(b as int)).len() as int),
            ) == Some(state.lt_ctx@),
    {
        let ghost base = block_insts(blocks.take(b as int)).len();
        proof {
            lemma_block_insts_split(blocks, b as int);
        }
        let block = &f.basic_blocks[b];
        let ni = block.instrs.len();
        for k in 0..ni
            invariant
                ni == block.instrs@.len(),
                blocks == f.basic_blocks@,
                block == &blocks[b as int],
                b < blocks.len(),
                all == block_insts(blocks),
                base == block_insts(blocks.take(b as int)).len(),
                block_insts(blocks.take(b + 1)) == block_insts(blocks.take(b as int))
                    + blocks[b as int].instrs@,
                block_insts(blocks.take(b + 1)).len() <= all.len(),
                forall|i: int|
                    0 <= i < block_insts(blocks.take(b + 1)).len() ==> #[trigger] block_insts(
                        blocks.take(b + 1),
                    )[i] == all[i],
                s0 == empty_ctx(),
                params == f.parameters@,
                run_params::<FunctionLifetimes, IntraLifetimeAnalysis>(s0, params) == Some(s1),
                state.lt_ctx.wf(),
                run_insts::<FunctionLifetimes, IntraLifetimeAnalysis>(s1, all.take(base + k))
                    == Some(state.lt_ctx@),
        {
            proof {
                assert(all.take(base + k + 1).drop_last() =~= all.take(base + k));
                assert(all[base + k] == block_insts(blocks.take(b + 1))[base + k]);
                assert(block_insts(blocks.take(b + 1))[base + k] == block.instrs@[k as int]);
                assert(all.take(base + k + 1).last() == block.instrs@[k as int]);
            }
            if !state.try_transfer(&block.instrs[k]) {
                proof {
                    if run_insts::<FunctionLifetimes, IntraLifetimeAnalysis>(s1, all) is Some {
                        lemma_run_insts_prefix::<FunctionLifetimes, IntraLifetimeAnalysis>(
                            s1,
                            all,
                            base + k + 1,
                        );
                        assert(false);
                    }
                }
                return None;
            }
        }
    }
    proof {
        assert(blocks.take(nb as int) =~= blocks);
        assert(all.take(all.len() as int) =~= all);
    }
    state.lt_ctx.try_finalize(f)
}

/// `s` with the entry for `k` set to `v`: replaced in place if `k` has an
/// entry, appended otherwise.
pub open spec fn assoc_insert<V>(s: Seq<(Seq<char>, V)>, k: Seq<char>, v: V) -> Seq<(Seq<char>, V)> {
    if exists|i: int| 0 <= i < s.len() && s[i].0 == k {
        s.update(choose|i: int| 0 <= i < s.len() && s[i].0 == k, (k, v))
    } else {
        s.push((k, v))
    }
}

/// The entry for `k` in `s`, if any.
pub open spec fn assoc_get<V>(s: Seq<(Seq<char>, V)>, k: Seq<char>) -> Option<V> {
    if exists|i: int| 0 <= i < s.len() && s[i].0 == k {
        Some(s[choose|i: int| 0 <= i < s.len() && s[i].0 == k].1)
    } else {
        None
    }
}

/// No two entries of `s` have the same key.
pub open spec fn distinct_keys<V>(s: Seq<(Seq<char>, V)>) -> bool {
    forall|i: int, j: int| 0 <= i < s.len() && 0 <= j < s.len() && i != j ==> s[i].0 != s[j].0
}

/// The results of analysing each function in turn, keyed by function name
/// (a later function of the same name replaces an earlier one's result).
pub open spec fn program_results(fs: Seq<Function>) -> Seq<(Seq<char>, FunctionLifetimesView)>
    decreases fs.len(),
{
    if fs.len() == 0 {
        seq![]
    } else {
        assoc_insert(program_results(fs.drop_last()), fs.last().name@, analysis_of(fs.last())->Some_0)
    }
}

proof fn lemma_assoc_insert_keys<V>(s: Seq<(Seq<char>, V)>, k: Seq<char>, v: V)
    requires
        distinct_keys(s),
    ensures
        distinct_keys(assoc_insert(s, k, v)),
        assoc_get(assoc_insert(s, k, v), k) == Some(v),
        forall|k2: Seq<char>| k2 != k ==> #[trigger] assoc_get(assoc_insert(s, k, v), k2) == assoc_get(s, k2),
{
    let t = assoc_insert(s, k, v);
    if exists|i: int| 0 <= i < s.len() && s[i].0 == k {
        let c = choose|i: int| 0 <= i < s.len() && s[i].0 == k;
        assert(t == s.update(c, (k, v)));
        assert forall|i: int| 0 <= i < t.len() && t[i].0 == k implies i == c by {
            if i != c {
                assert(s[i].0 == k);
            }
        }
        assert(t[c].0 == k);
        assert forall|k2: Seq<char>| k2 != k implies #[trigger] assoc_get(t, k2) == assoc_get(s, k2) by {
            if exists|i: int| 0 <= i < s.len() && s[i].0 == k2 {
                let d = choose|i: int| 0 <= i < s.len() && s[i].0 == k2;
                assert(t[d].0 == k2);
                let e = choose|i: int| 0 <= i < t.len() && t[i].0 == k2;
                assert(s[e].0 == k2);
                assert(e == d);
            } else {
                assert forall|i: int| 0 <= i < t.len() implies t[i].0 != k2 by {
                    if i != c {
                        assert(s[i].0 != k2);
                    }
                }
            }
        }
    } else {
        assert(t == s.push((k, v)));
        assert(t[s.len() as int].0 == k);
        assert forall|k2: Seq<char>| k2 != k implies #[trigger] assoc_get(t, k2) == assoc_get(s, k2) by {
            if exists|i: int| 0 <= i < s.len() && s[i].0 == k2 {
                let d = choose|i: int| 0 <= i < s.len() && s[i].0 == k2;
                assert(t[d].0 == k2);
                let e = choose|i: int| 0 <= i < t.len() && t[i].0 == k2;
                assert(e < s.len());
                assert(s[e].0 == k2);
            } else {
                assert forall|i: int| 0 <= i < t.len() implies t[i].0 != k2 by {
                    if i < s.len() {
                        assert(s[i].0 != k2);
                    }
                }
            }
        }
    }
}

/// After analysing the functions `fs` in turn, the result recorded under the
/// name of a function that no later function shares is the analysis of that
/// function; no two results share a name.
pub proof fn lemma_each_function_has_its_result(fs: Seq<Function>, i: int)
    requires
        0 <= i < fs.len(),
        forall|j: int| i < j < fs.len() ==> #[trigger] fs[j].name@ != fs[i].name@,
    ensures
        distinct_keys(program_results(fs)),
        assoc_get(program_results(fs), fs[i].name@) == Some(analysis_of(fs[i])->Some_0),
    decreases fs.len(),
{
    lemma_program_results_keys(fs.drop_last());
    let prev = program_results(fs.drop_last());
    lemma_assoc_insert_keys(prev, fs.last().name@, analysis_of(fs.last())->Some_0);
    if i < fs.len() - 1 {
        assert forall|j: int| i < j < fs.drop_last().len() implies #[trigger] fs.drop_last()[j].name@
            != fs.drop_last()[i].name@ by {
            assert(fs.drop_last()[j] == fs[j]);
        }
        lemma_each_function_has_its_result(fs.drop_last(), i);
        assert(fs[fs.len() - 1].name@ != fs[i].name@);
    }
}

proof fn lemma_program_results_keys(fs: Seq<Function>)
    ensures
        distinct_keys(program_results(fs)),
    decreases fs.len(),
{
    if fs.len() > 0 {
        lemma_program_results_keys(fs.drop_last());
        lemma_assoc_insert_keys(
            program_results(fs.drop_last()),
            fs.last().name@,
            analysis_of(fs.last())->Some_0,
        );
    }
}

/// The lifetime signature of each function of a program, by function name.
pub struct ProgramLifetimes {
    pub results: Vec<(String, FunctionLifetimes)>,
}

impl View for ProgramLifetimes {
    type V = Seq<(Seq<char>, FunctionLifetimesView)>;

    open spec fn view(&self) -> Seq<(Seq<char>, FunctionLifetimesView)> {
        self.results@.map_values(|e: (String, FunctionLifetimes)| (e.0@, e.1@))
    }
}

/// The position of the entry for `k`, if any.
pub(crate) fn find_key(results: &Vec<(String, FunctionLifetimes)>, k: &String) -> (r: Option<usize>)
    ensures
        match r {
            Some(i) => i < results@.len() && results@[i as int].0@ == k@,
            None => forall|i: int| 0 <= i < results@.len() ==> results@[i].0@ != k@,
        },
{
    let n = results.len();
    for i in 0..n
        invariant
            n == results@.len(),
            forall|j: int| 0 <= j < i ==> results@[j].0@ != k@,
    {
        if results[i].0 == *k {
            return Some(i);
        }
    }
    None
}

impl ProgramLifetimes {
    /// Analyses every function of `module` and records its signature under
    /// its name; see [`program_results`].
    pub fn new(module: &Module) -> (r: Self)
        requires
            forall|i: int|
                0 <= i < module.functions@.len() ==> #[trigger] analysis_of(module.functions@[i])
                    is Some,
        ensures
            r@ == program_results(module.functions@),
            distinct_keys(r@),
    {
        let mut program_lifetimes = ProgramLifetimes { results: Vec::new() };
        let ghost fs = module.functions@;
        let n = module.functions.len();
        proof {
            assert(fs.take(0) =~= Seq::<Function>::empty());
            assert(program_lifetimes@ =~= Seq::<(Seq<char>, FunctionLifetimesView)>::empty());
        }
        for i in 0..n
            invariant
                n == fs.len(),
                fs == module.functions@,
                forall|i: int| 0 <= i < fs.len() ==> #[trigger] analysis_of(fs[i]) is Some,
                program_lifetimes@ == program_results(fs.take(i as int)),
                distinct_keys(program_lifetimes@),
        {
            let a = &module.functions[i];
            let function_name = a.name.clone();
            let mut analysis = IntraLifetimeAnalysis::default();
            proof {
                assert(analysis_of(fs[i as int]) is Some);
            }
            let results = run_function_pass(&mut analysis, a);
            let ghost before = program_lifetimes@;
            let found = find_key(&program_lifetimes.results, &function_name);
            match found {
                Some(j) => {
                    program_lifetimes.results.set(j, (function_name, results));
                    proof {
                        assert(before[j as int].0 == a.name@);
                        let c = choose|c: int| 0 <= c < before.len() && before[c].0 == a.name@;
                        assert(c == j);
                        assert(program_lifetimes@ =~= before.update(j as int, (a.name@, results@)));
                    }
                },
                None => {
                    program_lifetimes.results.push((function_name, results));
                    proof {
                        assert(program_lifetimes@ =~= before.push((a.name@, results@)));
                    }
                },
            }
            proof {
                assert(fs.take(i + 1).drop_last() =~= fs.take(i as int));
                assert(fs.take(i + 1).last() == fs[i as int]);
            }
        }
        proof {
            assert(fs.take(n as int) =~= fs);
        }
        program_lifetimes
    }
}

/// The results as text: `<name>: <signature>` and a line break for each.
pub open spec fn program_text(s: Seq<(Seq<char>, FunctionLifetimesView)>) -> Seq<char>
    decreases s.len(),
{
    if s.len() == 0 {
        seq![]
    } else {
        program_text(s.drop_last()) + s.last().0 + seq![':', ' '] + render(s.last().1) + seq![
            '\r',
            '\n',
        ]
    }
}

impl ProgramLifetimes {
    /// The results as text; see [`program_text`].
    pub fn to_string(&self) -> (s: String)
        ensures
            s@ == program_text(self@),
    {
        let mut out = String::new();
        let n = self.results.len();
        proof {
            assert(self@.take(0) =~= Seq::<(Seq<char>, FunctionLifetimesView)>::empty());
        }
        for i in 0..n
            invariant
                n == self@.len(),
                out@ == program_text(self@.take(i as int)),
        {
            let entry = &self.results[i];
            let fl_text = entry.1.to_string();
            out.append(entry.0.as_str());
            push_char(&mut out, ':');
            push_char(&mut out, ' ');
            out.append(fl_text.as_str());
            push_char(&mut out, '\r');
            push_char(&mut out, '\n');
            proof {
                assert(self@.take(i + 1).drop_last() =~= self@.take(i as int));
                assert(out@ =~= program_text(self@.take(i + 1)));
            }
        }
        proof {
            assert(self@.take(n as int) =~= self@);
        }
        out
    }
}

impl IntraLifetimeAnalysis {
    /// The analysis as text: that of its context; see [`ctx_text`].
    pub fn to_string(&self) -> (s: String)
        requires
            self.lt_ctx.wf(),
        ensures
            s@ == ctx_text(self.lt_ctx@),
    {
        self.lt_ctx.to_string()
    }
}

} // verus!
