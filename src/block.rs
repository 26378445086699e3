//! Basic blocks: linear traces through the playfield, compiled to byte code
//! and ended by a control-flow decision.

use vstd::prelude::*;
use crate::command::{command_of, decode, Command};
use crate::error::Error;
use crate::grid::{signed_byte, signed_byte_value, Grid};
use crate::ops::{ControlFlowDecision, Operation};
use crate::pc::{Direction, Position, PC};

verus! {

/// A trace ends with a jump to where it stands once it has emitted more
/// operations than this.
pub const BASIC_BLOCK_SIZE_LIMIT: usize = 2048;

/// A trace visits at most this many cells, so that a ring of cells that
/// emit nothing cannot trace forever.
pub const TRACE_STEP_LIMIT: usize = 65536;

/// A compiled block, as values.
pub struct BlockView {
    pub entry: PC,
    pub ops: Seq<Operation>,
    pub term: ControlFlowDecision,
    pub cells: Seq<Position>,
}

/// A compiled basic block: its entry point, its byte code, the decision
/// that ends it, and the cells its trace visited.
#[derive(Debug)]
pub struct BasicBlock {
    pub entry_point: PC,
    pub bytecode: Vec<Operation>,
    pub cf_decision: ControlFlowDecision,
    pub cells: Vec<Position>,
}

impl View for BasicBlock {
    type V = BlockView;

    open spec fn view(&self) -> BlockView {
        BlockView {
            entry: self.entry_point,
            ops: self.bytecode@,
            term: self.cf_decision,
            cells: self.cells@,
        }
    }
}

/// Where a trace stands.
pub struct TraceState {
    pub pc: PC,
    pub string_mode: bool,
    pub ops: Seq<Operation>,
    pub cells: Seq<Position>,
    /// Where string mode was last entered, and how many operations had been
    /// emitted then.
    pub quote_pc: PC,
    pub quote_ops: nat,
}

/// The state of the trace at the start of a block.
pub open spec fn initial_trace(start: PC) -> TraceState {
    TraceState {
        pc: start,
        string_mode: false,
        ops: Seq::empty(),
        cells: Seq::empty(),
        quote_pc: start,
        quote_ops: 0,
    }
}

/// The trace state after moving on to `pc` having visited the current cell.
pub open spec fn moved(st: TraceState, pc: PC) -> TraceState {
    TraceState { pc, cells: st.cells.push(st.pc.position), ..st }
}

/// What a finished trace yields: the operations, the decision that ends the
/// block, and the cells visited in order.
pub type TraceResult = Result<(Seq<Operation>, ControlFlowDecision, Seq<Position>), Error>;

/// One step of a trace: where it goes on, or how it ends.
pub enum TraceStep {
    Continue(TraceState),
    Stop(TraceResult),
}

/// One step of a trace from `st`, which reads the cell under `st.pc`.
///
/// Outside string mode the cell is read as `command_of` says. In string
/// mode each cell but `"` pushes its byte, read as a signed byte. Once more than
/// `BASIC_BLOCK_SIZE_LIMIT` operations were emitted, outside string mode,
/// the block ends with a jump to where the trace stands.
pub open spec fn trace_step(grid: Seq<u8>, st: TraceState) -> TraceStep {
    let c = grid[st.pc.position.cell()];
    let next = st.pc.stepped();
    let cells = st.cells.push(st.pc.position);
    if st.string_mode {
        if c == 34 {
            TraceStep::Continue(TraceState { string_mode: false, ..moved(st, next) })
        } else {
            TraceStep::Continue(
                TraceState { ops: st.ops.push(Operation::PushConstant(signed_byte(c))), ..moved(st, next) },
            )
        }
    } else if st.ops.len() > BASIC_BLOCK_SIZE_LIMIT {
        TraceStep::Stop(Ok((st.ops, ControlFlowDecision::Jump(st.pc), cells)))
    } else {
        match command_of(c) {
            Command::Turn(d) => TraceStep::Continue(moved(st, st.pc.turned(d))),
            Command::Random => TraceStep::Stop(
                Ok(
                    (
                        st.ops,
                        ControlFlowDecision::Random {
                            up: st.pc.turned(Direction::Up),
                            down: st.pc.turned(Direction::Down),
                            left: st.pc.turned(Direction::Left),
                            right: st.pc.turned(Direction::Right),
                        },
                        cells,
                    ),
                ),
            ),
            Command::Bridge => TraceStep::Continue(moved(st, next.stepped())),
            Command::Nop => TraceStep::Continue(moved(st, next)),
            Command::Quote => TraceStep::Continue(
                TraceState {
                    string_mode: true,
                    quote_pc: st.pc,
                    quote_ops: st.ops.len(),
                    ..moved(st, next)
                },
            ),
            Command::Emit(op) => TraceStep::Continue(TraceState { ops: st.ops.push(op), ..moved(st, next) }),
            Command::Store => TraceStep::Continue(
                TraceState { ops: st.ops.push(Operation::SetValue { pc_after: next }), ..moved(st, next) },
            ),
            Command::BranchHorizontal => TraceStep::Stop(
                Ok(
                    (
                        st.ops,
                        ControlFlowDecision::Branch {
                            true_target: st.pc.turned(Direction::Left),
                            false_target: st.pc.turned(Direction::Right),
                        },
                        cells,
                    ),
                ),
            ),
            Command::BranchVertical => TraceStep::Stop(
                Ok(
                    (
                        st.ops,
                        ControlFlowDecision::Branch {
                            true_target: st.pc.turned(Direction::Up),
                            false_target: st.pc.turned(Direction::Down),
                        },
                        cells,
                    ),
                ),
            ),
            Command::End => TraceStep::Stop(Ok((st.ops, ControlFlowDecision::EndProgram, cells))),
            Command::Illegal => TraceStep::Stop(Err(Error::IllegalCommand(c))),
        }
    }
}

/// What tracing from `st` with `fuel` cells left yields. When the fuel runs
/// out, the block ends with a jump to where the trace stands, or, in string
/// mode, with a jump back to the `"` that opened the string and without
/// what was emitted after it.
pub open spec fn trace(grid: Seq<u8>, st: TraceState, fuel: nat) -> TraceResult
    decreases fuel,
{
    if fuel == 0 {
        if st.string_mode {
            Ok((st.ops.take(st.quote_ops as int), ControlFlowDecision::Jump(st.quote_pc), st.cells))
        } else {
            Ok((st.ops, ControlFlowDecision::Jump(st.pc), st.cells))
        }
    } else {
        match trace_step(grid, st) {
            TraceStep::Continue(next) => trace(grid, next, (fuel - 1) as nat),
            TraceStep::Stop(r) => r,
        }
    }
}

/// The block that compiling `grid` from `start` gives.
pub open spec fn compile_spec(grid: Seq<u8>, start: PC) -> Result<BlockView, Error> {
    match trace(grid, initial_trace(start), TRACE_STEP_LIMIT as nat) {
        Ok((ops, term, cells)) => Ok(BlockView { entry: start, ops, term, cells }),
        Err(e) => Err(e),
    }
}

/// Traces the playfield from `start_pc` and compiles what it meets into a
/// basic block.
pub fn compile_basic_block_from(start_pc: PC, grid: &Grid) -> (r: Result<BasicBlock, Error>)
    requires
        start_pc.valid(),
        grid.wf(),
    ensures
        match r {
            Ok(b) => compile_spec(grid@, start_pc) == Ok::<BlockView, Error>(b@),
            Err(e) => compile_spec(grid@, start_pc) == Err::<BlockView, Error>(e),
        },
{
    let mut current_pc = start_pc;
    let mut string_mode = false;
    let mut bytecode: Vec<Operation> = Vec::new();
    let mut cells: Vec<Position> = Vec::new();
    let mut quote_pc = start_pc;
    let mut quote_ops: usize = 0;
    let mut fuel: usize = TRACE_STEP_LIMIT;
    let ghost goal = trace(grid@, initial_trace(start_pc), TRACE_STEP_LIMIT as nat);
    assert(bytecode@ =~= Seq::<Operation>::empty());
    assert(cells@ =~= Seq::<Position>::empty());
    loop
        invariant
            grid.wf(),
            start_pc.valid(),
            goal == trace(grid@, initial_trace(start_pc), TRACE_STEP_LIMIT as nat),
            current_pc.valid(),
            quote_pc.valid(),
            quote_ops <= bytecode@.len(),
            bytecode@.len() <= TRACE_STEP_LIMIT - fuel,
            fuel <= TRACE_STEP_LIMIT,
            goal == trace(
                grid@,
                TraceState {
                    pc: current_pc,
                    string_mode,
                    ops: bytecode@,
                    cells: cells@,
                    quote_pc,
                    quote_ops: quote_ops as nat,
                },
                fuel as nat,
            ),
        decreases fuel,
    {
        if fuel == 0 {
            let term = if string_mode {
                bytecode.truncate(quote_ops);
                ControlFlowDecision::Jump(quote_pc)
            } else {
                ControlFlowDecision::Jump(current_pc)
            };
            return Ok(BasicBlock { entry_point: start_pc, bytecode, cf_decision: term, cells });
        }
        let c = grid.get(current_pc.position);
        let position = current_pc.position;
        let mut next = current_pc;
        next.advance();
        if string_mode {
            cells.push(position);
            if c == 34 {
                string_mode = false;
            } else {
                bytecode.push(Operation::PushConstant(signed_byte_value(c)));
            }
            current_pc = next;
        } else if bytecode.len() > BASIC_BLOCK_SIZE_LIMIT {
            cells.push(position);
            return Ok(
                BasicBlock {
                    entry_point: start_pc,
                    bytecode,
                    cf_decision: ControlFlowDecision::Jump(current_pc),
                    cells,
                },
            );
        } else {
            cells.push(position);
            let term = match decode(c) {
                Command::Turn(d) => {
                    current_pc = current_pc.turned_to(d);
                    None
                },
                Command::Random => Some(
                    ControlFlowDecision::Random {
                        up: current_pc.turned_to(Direction::Up),
                        down: current_pc.turned_to(Direction::Down),
                        left: current_pc.turned_to(Direction::Left),
                        right: current_pc.turned_to(Direction::Right),
                    },
                ),
                Command::Bridge => {
                    next.advance();
                    current_pc = next;
                    None
                },
                Command::Nop => {
                    current_pc = next;
                    None
                },
                Command::Quote => {
                    string_mode = true;
                    quote_pc = current_pc;
                    quote_ops = bytecode.len();
                    current_pc = next;
                    None
                },
                Command::Emit(op) => {
                    bytecode.push(op);
                    current_pc = next;
                    None
                },
                Command::Store => {
                    bytecode.push(Operation::SetValue { pc_after: next });
                    current_pc = next;
                    None
                },
                Command::BranchHorizontal => Some(
                    ControlFlowDecision::Branch {
                        true_target: current_pc.turned_to(Direction::Left),
                        false_target: current_pc.turned_to(Direction::Right),
                    },
                ),
                Command::BranchVertical => Some(
                    ControlFlowDecision::Branch {
                        true_target: current_pc.turned_to(Direction::Up),
                        false_target: current_pc.turned_to(Direction::Down),
                    },
                ),
                Command::End => Some(ControlFlowDecision::EndProgram),
                Command::Illegal => {
                    return Err(Error::IllegalCommand(c));
                },
            };
            match term {
                Some(t) => {
                    return Ok(BasicBlock { entry_point: start_pc, bytecode, cf_decision: t, cells });
                },
                None => {},
            }
        }
        fuel = fuel - 1;
    }
}

/// Whether an operation only refers to valid program counters.
pub open spec fn op_targets_valid(op: Operation) -> bool {
    match op {
        Operation::SetValue { pc_after } => pc_after.valid(),
        _ => true,
    }
}

/// Whether a decision only refers to valid program counters.
pub open spec fn term_targets_valid(t: ControlFlowDecision) -> bool {
    match t {
        ControlFlowDecision::Jump(p) => p.valid(),
        ControlFlowDecision::Branch { true_target, false_target } => true_target.valid()
            && false_target.valid(),
        ControlFlowDecision::Random { up, down, left, right } => up.valid() && down.valid()
            && left.valid() && right.valid(),
        ControlFlowDecision::EndProgram => true,
    }
}

/// Whether a trace state refers only to valid program counters and cells.
pub open spec fn trace_state_ok(st: TraceState) -> bool {
    &&& st.pc.valid()
    &&& st.quote_pc.valid()
    &&& st.quote_ops <= st.ops.len()
    &&& forall|i: int| 0 <= i < st.ops.len() ==> op_targets_valid(#[trigger] st.ops[i])
    &&& forall|i: int| 0 <= i < st.cells.len() ==> (#[trigger] st.cells[i]).in_grid()
}

/// Whether a compiled block refers only to valid program counters and
/// cells, and its trace starts at its entry cell.
pub open spec fn block_ok(b: BlockView) -> bool {
    &&& b.entry.valid()
    &&& forall|i: int| 0 <= i < b.ops.len() ==> op_targets_valid(#[trigger] b.ops[i])
    &&& term_targets_valid(b.term)
    &&& forall|i: int| 0 <= i < b.cells.len() ==> (#[trigger] b.cells[i]).in_grid()
    &&& b.cells.len() > 0
    &&& b.cells[0] == b.entry.position
}

pub(crate) proof fn lemma_trace_step_ok(grid: Seq<u8>, st: TraceState)
    requires
        grid.len() == crate::grid::GRID_CELLS,
        trace_state_ok(st),
    ensures
        match trace_step(grid, st) {
            TraceStep::Continue(next) => trace_state_ok(next) && next.cells == st.cells.push(st.pc.position),
            TraceStep::Stop(Ok((ops, term, cells))) => {
                &&& forall|i: int| 0 <= i < ops.len() ==> op_targets_valid(#[trigger] ops[i])
                &&& term_targets_valid(term)
                &&& cells == st.cells.push(st.pc.position)
            },
            TraceStep::Stop(Err(_)) => true,
        },
{
    let next = st.pc.stepped();
    assert(next.stepped().valid());
    match trace_step(grid, st) {
        TraceStep::Continue(n) => {
            assert forall|i: int| 0 <= i < n.ops.len() implies op_targets_valid(#[trigger] n.ops[i]) by {
                if i < st.ops.len() {
                    assert(n.ops[i] == st.ops[i]);
                }
            }
            assert forall|i: int| 0 <= i < n.cells.len() implies (#[trigger] n.cells[i]).in_grid() by {
                if i < st.cells.len() {
                    assert(n.cells[i] == st.cells[i]);
                }
            }
        },
        _ => {},
    }
}

/// What a trace from a well-formed state yields refers only to valid
/// program counters and cells, and extends the cells visited so far by the
/// current one.
pub proof fn lemma_trace_ok(grid: Seq<u8>, st: TraceState, fuel: nat)
    requires
        grid.len() == crate::grid::GRID_CELLS,
        trace_state_ok(st),
    ensures
        match trace(grid, st, fuel) {
            Ok((ops, term, cells)) => {
                &&& forall|i: int| 0 <= i < ops.len() ==> op_targets_valid(#[trigger] ops[i])
                &&& term_targets_valid(term)
                &&& forall|i: int| 0 <= i < cells.len() ==> (#[trigger] cells[i]).in_grid()
                &&& cells.len() >= st.cells.len()
                &&& forall|i: int| 0 <= i < st.cells.len() ==> cells[i] == st.cells[i]
                &&& fuel > 0 ==> cells.len() > st.cells.len() && cells[st.cells.len() as int]
                    == st.pc.position
            },
            Err(_) => true,
        },
    decreases fuel,
{
    if fuel == 0 {
        if st.string_mode {
            let ops = st.ops.take(st.quote_ops as int);
            assert forall|i: int| 0 <= i < ops.len() implies op_targets_valid(#[trigger] ops[i]) by {
                assert(ops[i] == st.ops[i]);
            }
        }
    } else {
        lemma_trace_step_ok(grid, st);
        match trace_step(grid, st) {
            TraceStep::Continue(next) => {
                lemma_trace_ok(grid, next, (fuel - 1) as nat);
                match trace(grid, next, (fuel - 1) as nat) {
                    Ok((ops, term, cells)) => {
                        assert(cells.len() >= next.cells.len());
                        assert(cells[st.cells.len() as int] == next.cells[st.cells.len() as int]);
                        assert forall|i: int| 0 <= i < st.cells.len() implies cells[i] == st.cells[i] by {
                            assert(cells[i] == next.cells[i]);
                        }
                    },
                    Err(_) => {},
                }
            },
            TraceStep::Stop(Ok((ops, term, cells))) => {
                assert(cells[st.cells.len() as int] == st.pc.position);
                assert forall|i: int| 0 <= i < cells.len() implies (#[trigger] cells[i]).in_grid() by {
                    if i < st.cells.len() {
                        assert(cells[i] == st.cells[i]);
                    }
                }
            },
            TraceStep::Stop(Err(_)) => {},
        }
    }
}

/// Every block that compiles refers only to valid program counters and
/// cells, and its trace starts at its entry cell.
pub proof fn lemma_compile_ok(grid: Seq<u8>, start: PC)
    requires
        grid.len() == crate::grid::GRID_CELLS,
        start.valid(),
    ensures
        compile_spec(grid, start) is Ok ==> block_ok(compile_spec(grid, start)->Ok_0),
        compile_spec(grid, start) is Ok ==> compile_spec(grid, start)->Ok_0.entry == start,
{
    lemma_trace_ok(grid, initial_trace(start), TRACE_STEP_LIMIT as nat);
}

/// A trace reads the playfield only at the cells it visits: on two
/// playfields that agree there, it yields the same.
pub proof fn lemma_trace_frame(g1: Seq<u8>, g2: Seq<u8>, st: TraceState, fuel: nat)
    requires
        g1.len() == crate::grid::GRID_CELLS,
        g2.len() == crate::grid::GRID_CELLS,
        trace_state_ok(st),
        trace(g1, st, fuel) is Ok,
        forall|i: int|
            0 <= i < trace(g1, st, fuel)->Ok_0.2.len() ==> g1[(#[trigger] trace(g1, st, fuel)->Ok_0.2[i]).cell()]
                == g2[trace(g1, st, fuel)->Ok_0.2[i].cell()],
    ensures
        trace(g2, st, fuel) == trace(g1, st, fuel),
    decreases fuel,
{
    if fuel > 0 {
        lemma_trace_ok(g1, st, fuel);
        let cs = trace(g1, st, fuel)->Ok_0.2;
        let n = st.cells.len() as int;
        assert(cs[n] == st.pc.position);
        assert(g1[cs[n].cell()] == g2[cs[n].cell()]);
        assert(trace_step(g1, st) == trace_step(g2, st));
        lemma_trace_step_ok(g1, st);
        match trace_step(g1, st) {
            TraceStep::Continue(next) => {
                lemma_trace_frame(g1, g2, next, (fuel - 1) as nat);
            },
            TraceStep::Stop(_) => {},
        }
    }
}

/// Compiling reads the playfield only at the cells the block visits.
pub proof fn lemma_compile_frame(g1: Seq<u8>, g2: Seq<u8>, start: PC)
    requires
        g1.len() == crate::grid::GRID_CELLS,
        g2.len() == crate::grid::GRID_CELLS,
        start.valid(),
        compile_spec(g1, start) is Ok,
        forall|i: int|
            0 <= i < compile_spec(g1, start)->Ok_0.cells.len() ==> g1[(#[trigger] compile_spec(g1, start)->Ok_0.cells[i]).cell()]
                == g2[compile_spec(g1, start)->Ok_0.cells[i].cell()],
    ensures
        compile_spec(g2, start) == compile_spec(g1, start),
{
    let st = initial_trace(start);
    assert(trace_state_ok(st));
    let cs = trace(g1, st, TRACE_STEP_LIMIT as nat)->Ok_0.2;
    assert(cs == compile_spec(g1, start)->Ok_0.cells);
    lemma_trace_frame(g1, g2, st, TRACE_STEP_LIMIT as nat);
}

} // verus!
