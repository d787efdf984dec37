//! Passes over the parameters and instructions of a function.
use vstd::prelude::*;
use crate::ir::{BasicBlock, Function, Instruction, Parameter};

verus! {

/// A pass over one function: it sees each parameter, then each instruction
/// of each block in order, and then produces a result.
///
/// The state of a pass is described by a mathematical value; each step says
/// what it does to that value, or `None` where the pass cannot go on.
pub trait FunctionPass<T: View>: Sized {
    /// The state of the pass as a mathematical value.
    type State;

    spec fn state(&self) -> Self::State;

    /// What the pass keeps true of itself between steps.
    spec fn inv(&self) -> bool;

    spec fn param_step(s: Self::State, param: Parameter) -> Option<Self::State>;

    spec fn inst_step(s: Self::State, inst: Instruction) -> Option<Self::State>;

    spec fn completion_step(s: Self::State, func: Function) -> Option<(Self::State, T::V)>;

    fn init_param(&mut self, param: &Parameter)
        requires
            old(self).inv(),
            Self::param_step(old(self).state(), *param) is Some,
        ensures
            final(self).inv(),
            Self::param_step(old(self).state(), *param) == Some(final(self).state()),
    ;

    fn transfer(&mut self, inst: &Instruction)
        requires
            old(self).inv(),
            Self::inst_step(old(self).state(), *inst) is Some,
        ensures
            final(self).inv(),
            Self::inst_step(old(self).state(), *inst) == Some(final(self).state()),
    ;

    fn on_completion(&mut self, func: &Function) -> (r: T)
        requires
            old(self).inv(),
            Self::completion_step(old(self).state(), *func) is Some,
        ensures
            final(self).inv(),
            Self::completion_step(old(self).state(), *func) == Some((final(self).state(), r@)),
    ;
}

/// A pass over a whole program.
pub trait ProgramPass {}

/// The instructions of the blocks, block after block.
pub open spec fn block_insts(blocks: Seq<BasicBlock>) -> Seq<Instruction>
    decreases blocks.len(),
{
    if blocks.len() == 0 {
        seq![]
    } else {
        block_insts(blocks.drop_last()) + blocks.last().instrs@
    }
}

/// Entering each parameter in turn.
pub open spec fn run_params<T: View, P: FunctionPass<T>>(s: P::State, params: Seq<Parameter>) -> Option<
    P::State,
>
    decreases params.len(),
{
    if params.len() == 0 {
        Some(s)
    } else {
        match run_params::<T, P>(s, params.drop_last()) {
            None => None,
            Some(s1) => P::param_step(s1, params.last()),
        }
    }
}

/// Transferring each instruction in turn.
pub open spec fn run_insts<T: View, P: FunctionPass<T>>(s: P::State, insts: Seq<Instruction>) -> Option<
    P::State,
>
    decreases insts.len(),
{
    if insts.len() == 0 {
        Some(s)
    } else {
        match run_insts::<T, P>(s, insts.drop_last()) {
            None => None,
            Some(s1) => P::inst_step(s1, insts.last()),
        }
    }
}

/// Running a pass over `func`: every parameter, then every instruction of
/// every block, then completion.
pub open spec fn run_pass<T: View, P: FunctionPass<T>>(s: P::State, func: Function) -> Option<
    (P::State, T::V),
> {
    match run_params::<T, P>(s, func.parameters@) {
        None => None,
        Some(s1) => match run_insts::<T, P>(s1, block_insts(func.basic_blocks@)) {
            None => None,
            Some(s2) => P::completion_step(s2, func),
        },
    }
}

/// A pass that enters all parameters also enters each initial part of them.
pub proof fn lemma_run_params_prefix<T: View, P: FunctionPass<T>>(
    s: P::State,
    ps: Seq<Parameter>,
    k: int,
)
    requires
        0 <= k <= ps.len(),
        run_params::<T, P>(s, ps) is Some,
    ensures
        run_params::<T, P>(s, ps.take(k)) is Some,
    decreases ps.len(),
{
    if k < ps.len() {
        assert(ps.drop_last().take(k) =~= ps.take(k));
        lemma_run_params_prefix::<T, P>(s, ps.drop_last(), k);
    } else {
        assert(ps.take(k) =~= ps);
    }
}

/// A pass that transfers all instructions also transfers each initial part
/// of them.
pub proof fn lemma_run_insts_prefix<T: View, P: FunctionPass<T>>(
    s: P::State,
    xs: Seq<Instruction>,
    k: int,
)
    requires
        0 <= k <= xs.len(),
        run_insts::<T, P>(s, xs) is Some,
    ensures
        run_insts::<T, P>(s, xs.take(k)) is Some,
    decreases xs.len(),
{
    if k < xs.len() {
        assert(xs.drop_last().take(k) =~= xs.take(k));
        lemma_run_insts_prefix::<T, P>(s, xs.drop_last(), k);
    } else {
        assert(xs.take(k) =~= xs);
    }
}

/// The instructions of the first `b + 1` blocks are those of the first `b`
/// blocks followed by those of block `b`, and they begin the instructions of
/// the whole function.
pub proof fn lemma_block_insts_split(blocks: Seq<BasicBlock>, b: int)
    requires
        0 <= b < blocks.len(),
    ensures
        block_insts(blocks.take(b + 1)) == block_insts(blocks.take(b)) + blocks[b].instrs@,
        block_insts(blocks.take(b + 1)).len() <= block_insts(blocks).len(),
        forall|i: int|
            0 <= i < block_insts(blocks.take(b + 1)).len() ==> #[trigger] block_insts(
                blocks.take(b + 1),
            )[i] == block_insts(blocks)[i],
    decreases blocks.len() - b,
{
    assert(blocks.take(b + 1).drop_last() =~= blocks.take(b));
    if b + 1 < blocks.len() {
        lemma_block_insts_split(blocks, b + 1);
        let x = block_insts(blocks.take(b + 1));
        let y = block_insts(blocks.take(b + 2));
        assert forall|i: int| 0 <= i < x.len() implies #[trigger] x[i] == block_insts(blocks)[i] by {
            assert(x[i] == y[i]);
        }
    } else {
        assert(blocks.take(b + 1) =~= blocks);
    }
}

/// Runs `state` over `func`: each parameter, then each instruction of each
/// block in order, then completion; see [`run_pass`].
pub fn run_function_pass<T: View, P: FunctionPass<T>>(state: &mut P, func: &Function) -> (r: T)
    requires
        old(state).inv(),
        run_pass::<T, P>(old(state).state(), *func) is Some,
    ensures
        final(state).inv(),
        run_pass::<T, P>(old(state).state(), *func) == Some((final(state).state(), r@)),
{
    let ghost s0 = state.state();
    let ghost params = func.parameters@;
    let np = func.parameters.len();
    proof {
        assert(params.take(0) =~= Seq::<Parameter>::empty());
    }
    for i in 0..np
        invariant
            np == params.len(),
            params == func.parameters@,
            run_pass::<T, P>(s0, *func) is Some,
            state.inv(),
            run_params::<T, P>(s0, params.take(i as int)) == Some(state.state()),
    {
        proof {
            assert(params.take(i + 1).drop_last() =~= params.take(i as int));
            lemma_run_params_prefix::<T, P>(s0, params, i + 1);
        }
        state.init_param(&func.parameters[i]);
    }
    proof {
        assert(params.take(np as int) =~= params);
    }
    let ghost s1 = state.state();
    let ghost blocks = func.basic_blocks@;
    let ghost all = block_insts(blocks);
    let nb = func.basic_blocks.len();
    proof {
        assert(blocks.take(0) =~= Seq::<BasicBlock>::empty());
        assert(all.take(0) =~= Seq::<Instruction>::empty());
    }
    for b in 0..nb
        invariant
            nb == blocks.len(),
            blocks == func.basic_blocks@,
            all == block_insts(blocks),
            run_params::<T, P>(s0, params) == Some(s1),
            run_insts::<T, P>(s1, all) is Some,
            state.inv(),
            block_insts(blocks.take(b as int)).len() <= all.len(),
            run_insts::<T, P>(s1, all.take(block_insts(blocks.take(b as int)).len() as int))
                == Some(state.state()),
    {
        let ghost base = block_insts(blocks.take(b as int)).len();
        proof {
            lemma_block_insts_split(blocks, b as int);
        }
        let block = &func.basic_blocks[b];
        let ni = block.instrs.len();
        for k in 0..ni
            invariant
                ni == block.instrs@.len(),
                block == &blocks[b as int],
                b < blocks.len(),
                all == block_insts(blocks),
                base == block_insts(blocks.take(b as int)).len(),
                block_insts(blocks.take(b + 1)) == block_insts(blocks.take(b as int))
                    + blocks[b as int].instrs@,
                block_insts(blocks.take(b + 1)).len() <= all.len(),
                forall|i: int|
                    0 <= i < block_insts(blocks.take(b + 1)).len() ==> #[trigger] block_insts(
                        blocks.take(b + 1),
                    )[i] == all[i],
                run_insts::<T, P>(s1, all) is Some,
                state.inv(),
                run_insts::<T, P>(s1, all.take(base + k)) == Some(state.state()),
        {
            proof {
                assert(all.take(base + k + 1).drop_last() =~= all.take(base + k));
                assert(all[base + k] == block_insts(blocks.take(b + 1))[base + k]);
                assert(block_insts(blocks.take(b + 1))[base + k] == block.instrs@[k as int]);
                lemma_run_insts_prefix::<T, P>(s1, all, base + k + 1);
            }
            state.transfer(&block.instrs[k]);
        }
    }
    proof {
        assert(blocks.take(nb as int) =~= blocks);
        assert(all.take(all.len() as int) =~= all);
    }
    state.on_completion(func)
}

} // verus!
