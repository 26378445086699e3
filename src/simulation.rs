//! The compiled blocks agree with the step interpreter: running a block
//! does what stepping through the cells of its trace does.

use vstd::prelude::*;
use crate::block::{
    initial_trace, lemma_trace_ok, lemma_trace_step_ok, trace, trace_state_ok, trace_step, BlockView, TraceState,
    TraceStep, TRACE_STEP_LIMIT,
};
use crate::error::Error;
use crate::grid::GRID_CELLS;
use crate::interpreter::{lemma_trace_matches_step, step_spec, steps_spec, InterpreterState, StepStatus};
use crate::jit::{
    cache_ok, cached_ok, ensure_spec, lemma_ensure_ok, lemma_still_cached, resolve_spec, run_ops, BlockExit,
    JitState, RunStatus,
};
use crate::machine::OpOutcome;
use crate::machine::op_spec;
use crate::ops::{ControlFlowDecision, Operation};

verus! {

/// Whether the trace from `st`, in string mode, runs out of fuel before
/// the string closes: the one case where a block gives back what it traced
/// since the string opened.
pub open spec fn runs_out_in_string(g: Seq<u8>, st: TraceState, fuel: nat) -> bool
    decreases fuel,
{
    if !st.string_mode {
        false
    } else if fuel == 0 {
        true
    } else {
        match trace_step(g, st) {
            TraceStep::Continue(next) => runs_out_in_string(g, next, (fuel - 1) as nat),
            TraceStep::Stop(_) => false,
        }
    }
}

proof fn lemma_runs_out(g: Seq<u8>, st: TraceState, fuel: nat)
    requires
        g.len() == GRID_CELLS,
        trace_state_ok(st),
        runs_out_in_string(g, st, fuel),
    ensures
        trace(g, st, fuel) is Ok,
        trace(g, st, fuel)->Ok_0.0 == st.ops.take(st.quote_ops as int),
        trace(g, st, fuel)->Ok_0.1 == ControlFlowDecision::Jump(st.quote_pc),
    decreases fuel,
{
    if fuel > 0 {
        lemma_trace_step_ok(g, st);
        match trace_step(g, st) {
            TraceStep::Continue(next) => {
                lemma_runs_out(g, next, (fuel - 1) as nat);
                assert(next.ops.take(next.quote_ops as int) =~= st.ops.take(st.quote_ops as int));
            },
            TraceStep::Stop(_) => {},
        }
    }
}

proof fn lemma_trace_extends(g: Seq<u8>, st: TraceState, fuel: nat)
    requires
        g.len() == GRID_CELLS,
        trace_state_ok(st),
        !runs_out_in_string(g, st, fuel),
        trace(g, st, fuel) is Ok,
    ensures
        trace(g, st, fuel)->Ok_0.0.len() >= st.ops.len(),
        trace(g, st, fuel)->Ok_0.0.take(st.ops.len() as int) == st.ops,
    decreases fuel,
{
    if fuel > 0 {
        lemma_trace_step_ok(g, st);
        match trace_step(g, st) {
            TraceStep::Continue(next) => {
                let ops = trace(g, st, fuel)->Ok_0.0;
                if runs_out_in_string(g, next, (fuel - 1) as nat) {
                    lemma_runs_out(g, next, (fuel - 1) as nat);
                    assert(next.ops.take(next.quote_ops as int) =~= st.ops);
                    assert(st.ops.take(st.ops.len() as int) =~= st.ops);
                } else {
                    lemma_trace_extends(g, next, (fuel - 1) as nat);
                    assert(next.ops.take(st.ops.len() as int) =~= st.ops);
                    assert(ops.take(st.ops.len() as int) =~= ops.take(next.ops.len() as int).take(st.ops.len() as int));
                }
            },
            TraceStep::Stop(_) => {
                assert(st.ops.take(st.ops.len() as int) =~= st.ops);
            },
        }
    } else {
        assert(st.ops.take(st.ops.len() as int) =~= st.ops);
    }
}

proof fn lemma_steps_cons(s: InterpreterState, c: int, rest: Seq<int>)
    ensures
        steps_spec(s, seq![c] + rest) == ({
            let (s1, r1) = step_spec(s, c);
            match r1 {
                Ok(StepStatus::Stepped) => steps_spec(s1, rest),
                Ok(StepStatus::NeedInput) => (s1, Ok(Some(RunStatus::NeedInput))),
                Err(Error::ProgramEnd) => (s1, Ok(Some(RunStatus::Ended))),
                Err(e) => (s1, Err(e)),
            }
        }),
    decreases rest.len(),
{
    let cs = seq![c] + rest;
    if rest.len() == 0 {
        assert(cs.drop_last() =~= Seq::<int>::empty());
        assert(cs.last() == c);
        assert(steps_spec(s, cs.drop_last()) == (s, Ok::<Option<RunStatus>, Error>(None)));
    } else {
        lemma_steps_cons(s, c, rest.drop_last());
        assert(cs.drop_last() =~= seq![c] + rest.drop_last());
        assert(cs.last() == rest.last());
        let (s1, r1) = step_spec(s, c);
        if r1 == Ok::<StepStatus, Error>(StepStatus::Stepped) {
            assert(steps_spec(s, cs.drop_last()) == steps_spec(s1, rest.drop_last()));
        }
    }
}

/// Whether stepping the interpreter from `s` with `choices` ends as running
/// a block ended (`r`, in state `j`), followed by the decision of the block
/// with `c` as the choice of `?`.
pub open spec fn simulates(s: InterpreterState, choices: Seq<int>, j: JitState, r: Result<BlockExit, Error>, c: int) -> bool {
    let (s2, res) = steps_spec(s, choices);
    &&& forall|i: int| 0 <= i < choices.len() ==> 0 <= #[trigger] choices[i] < 4
    &&& match r {
        Err(e) => res == Err::<Option<RunStatus>, Error>(e),
        Ok(BlockExit::Blocked(_)) => res == Ok::<Option<RunStatus>, Error>(Some(RunStatus::NeedInput)) && s2.machine
            == j.machine,
        Ok(BlockExit::Finished(ControlFlowDecision::EndProgram)) => res == Ok::<Option<RunStatus>, Error>(
            Some(RunStatus::Ended),
        ) && s2.machine == j.machine,
        Ok(BlockExit::Finished(t)) => res == Ok::<Option<RunStatus>, Error>(None) && s2.machine == resolve_spec(
            j,
            t,
            c,
        ).machine && s2.pc == resolve_spec(j, t, c).pc && !s2.string_mode,
    }
}

proof fn lemma_simulates_cons(s: InterpreterState, rest: Seq<int>, j: JitState, r: Result<BlockExit, Error>, c: int)
    requires
        step_spec(s, 0).1 == Ok::<StepStatus, Error>(StepStatus::Stepped),
        simulates(step_spec(s, 0).0, rest, j, r, c),
    ensures
        simulates(s, seq![0int] + rest, j, r, c),
{
    lemma_steps_cons(s, 0, rest);
    let cs = seq![0int] + rest;
    assert forall|i: int| 0 <= i < cs.len() implies 0 <= #[trigger] cs[i] < 4 by {
        if i > 0 {
            assert(cs[i] == rest[i - 1]);
        }
    }
}

proof fn lemma_sim(g: Seq<u8>, st: TraceState, fuel: nat, s: InterpreterState, jj: JitState, b: BlockView, c: int)
    requires
        g.len() == GRID_CELLS,
        trace_state_ok(st),
        !runs_out_in_string(g, st, fuel),
        trace(g, st, fuel) == Ok::<(Seq<Operation>, ControlFlowDecision, Seq<crate::pc::Position>), Error>(
            (b.ops, b.term, b.cells),
        ),
        cache_ok(jj),
        b.entry.valid(),
        jj.blocks[b.entry.key()] == Some(b),
        s.machine == jj.machine,
        s.pc == st.pc,
        s.string_mode == st.string_mode,
        forall|i: int|
            st.cells.len() <= i < b.cells.len() ==> jj.machine.grid[(#[trigger] b.cells[i]).cell()] == g[b.cells[i].cell()],
        0 <= c < 4,
    ensures
        exists|choices: Seq<int>|
            simulates(s, choices, run_ops(jj, b, st.ops.len()).0, run_ops(jj, b, st.ops.len()).1, c),
    decreases fuel,
{
    lemma_trace_ok(g, st, fuel);
    lemma_trace_extends(g, st, fuel);
    let i = st.ops.len();
    let (j_end, r_end) = run_ops(jj, b, i);
    if fuel == 0 {
        assert(simulates(s, Seq::<int>::empty(), j_end, r_end, c));
    } else {
        let k = st.cells.len() as int;
        assert(b.cells[k] == st.pc.position);
        assert(jj.machine.grid[st.pc.position.cell()] == g[st.pc.position.cell()]);
        lemma_trace_step_ok(g, st);
        match trace_step(g, st) {
            TraceStep::Stop(_) => {
                lemma_trace_matches_step(g, st, s, c);
                assert(b.ops == st.ops);
                lemma_steps_cons(s, c, Seq::<int>::empty());
                assert(seq![c] + Seq::<int>::empty() =~= seq![c]);
                match b.term {
                    ControlFlowDecision::Jump(_) => {
                        assert(simulates(s, Seq::<int>::empty(), j_end, r_end, c));
                    },
                    _ => {
                        assert(simulates(s, seq![c], j_end, r_end, c));
                    },
                }
            },
            TraceStep::Continue(next) => {
                lemma_trace_matches_step(g, st, s, 0);
                let (s1, r1) = step_spec(s, 0);
                assert(trace(g, next, (fuel - 1) as nat) == trace(g, st, fuel));
                lemma_steps_cons(s, 0, Seq::<int>::empty());
                assert(seq![0int] + Seq::<int>::empty() =~= seq![0int]);
                if runs_out_in_string(g, next, (fuel - 1) as nat) {
                    lemma_runs_out(g, next, (fuel - 1) as nat);
                    assert(!st.string_mode);
                    assert(next.ops.take(next.quote_ops as int) =~= st.ops);
                    assert(b.ops == st.ops);
                    assert(simulates(s, Seq::<int>::empty(), j_end, r_end, c));
                } else {
                    lemma_trace_extends(g, next, (fuel - 1) as nat);
                    if next.ops.len() == st.ops.len() {
                        lemma_sim(g, next, (fuel - 1) as nat, s1, jj, b, c);
                        let rest = choose|rest: Seq<int>| simulates(s1, rest, j_end, r_end, c);
                        lemma_simulates_cons(s, rest, j_end, r_end, c);
                    } else {
                        let op = next.ops.last();
                        assert(next.ops.len() == i + 1);
                        assert(b.ops.take(next.ops.len() as int)[i as int] == next.ops[i as int]);
                        assert(b.ops[i as int] == op);
                        lemma_still_cached(jj, b, i);
                        let key = b.entry.key();
                        assert(jj.blocks[key] is Some);
                        assert(cached_ok(jj, key));
                        match op_spec(jj.machine, op) {
                            OpOutcome::Done(m) => {
                                let jj1 = JitState { machine: m, ..jj };
                                assert(m.grid == jj.machine.grid);
                                lemma_sim(g, next, (fuel - 1) as nat, s1, jj1, b, c);
                                let rest = choose|rest: Seq<int>| simulates(s1, rest, j_end, r_end, c);
                                lemma_simulates_cons(s, rest, j_end, r_end, c);
                            },
                            OpOutcome::Wrote(m, p) => {
                                let jj1 = JitState { machine: m, ..jj };
                                let after = crate::jit::invalidate_spec(jj1, p);
                                if jj.index[p.cell()].contains(b.entry) {
                                    assert(simulates(s, seq![0int], j_end, r_end, c));
                                } else {
                                    assert(!b.cells.contains(p));
                                    assert forall|q: int|
                                        next.cells.len() <= q < b.cells.len() implies after.machine.grid[(#[trigger] b.cells[q]).cell()]
                                            == g[b.cells[q].cell()] by {
                                        if b.cells[q].cell() == p.cell() {
                                            crate::pc::lemma_cell_injective(b.cells[q], p);
                                        }
                                    }
                                    lemma_sim(g, next, (fuel - 1) as nat, s1, after, b, c);
                                    let rest = choose|rest: Seq<int>| simulates(s1, rest, j_end, r_end, c);
                                    lemma_simulates_cons(s, rest, j_end, r_end, c);
                                }
                            },
                            OpOutcome::Blocked => {
                                assert(simulates(s, seq![0int], j_end, r_end, c));
                            },
                            OpOutcome::Failed(_, e) => {
                                assert(e != Error::ProgramEnd);
                                assert(simulates(s, seq![0int], j_end, r_end, c));
                            },
                        }
                    }
                }
            },
        }
    }
}

/// One dispatch of the compiler does what the step interpreter does from
/// the same machine and program counter: for every choice `c` of the
/// direction of a final `?`, some run of the interpreter (with `c` for
/// that `?`) ends as the block ends and leaves the same machine, at the
/// program counter where the compiler goes on.
pub proof fn lemma_block_simulation(j: JitState, s: InterpreterState, c: int)
    requires
        cache_ok(j),
        ensure_spec(j) is Ok,
        s.machine == j.machine,
        s.pc == j.pc,
        !s.string_mode,
        0 <= c < 4,
    ensures
        ({
            let (j1, b) = ensure_spec(j)->Ok_0;
            exists|choices: Seq<int>| simulates(s, choices, run_ops(j1, b, 0).0, run_ops(j1, b, 0).1, c)
        }),
{
    lemma_ensure_ok(j);
    crate::jit::lemma_cache_hit(j);
    let (j1, b) = ensure_spec(j)->Ok_0;
    let g = j.machine.grid;
    let st = initial_trace(j.pc);
    assert(trace_state_ok(st));
    assert(trace(g, st, TRACE_STEP_LIMIT as nat) == Ok::<(Seq<Operation>, ControlFlowDecision, Seq<crate::pc::Position>), Error>(
        (b.ops, b.term, b.cells),
    ));
    lemma_sim(g, st, TRACE_STEP_LIMIT as nat, s, j1, b, c);
}

} // verus!
