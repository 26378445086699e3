//! The just-in-time compiler: a cache of compiled basic blocks keyed by
//! entry program counter, a reverse index from playfield cells to the
//! blocks whose traces visited them, and the loop that runs the blocks.
//!
//! A store to the playfield discards every cached block whose trace visited
//! the cell. When that includes the running block, the block stops right
//! after the store and execution resumes at the program counter recorded in
//! the store operation.

use vstd::prelude::*;
use std::rc::Rc;
use rand::rngs::SmallRng;
use crate::block::{block_ok, compile_basic_block_from, compile_spec, lemma_compile_frame, lemma_compile_ok, BasicBlock, BlockView};
use crate::error::Error;
use crate::grid::{parse_spec, Grid, GRID_CELLS};
use crate::io::InputBuffer;
use crate::machine::{op_spec, pop, with_stack, Applied, Machine, MachineView, OpOutcome};
use crate::ops::{ControlFlowDecision, Operation};
use crate::pc::{Position, PC};
use crate::random::{random_index, seeded_rng};

verus! {

/// Number of distinct valid program counters: four directions per cell.
pub const BLOCK_KEYS: usize = 8000;

/// The state of the compiler, as values.
pub struct JitState {
    pub machine: MachineView,
    /// The cache: the block entered at each program counter key, if any.
    pub blocks: Seq<Option<BlockView>>,
    /// The reverse index: for each cell, entry points of blocks that visited it.
    pub index: Seq<Seq<PC>>,
    pub pc: PC,
    /// Number of blocks compiled.
    pub compiles: usize,
}

/// How running a block ended, unless it failed.
#[derive(Clone, Copy, Debug, PartialEq, Eq, Structural)]
pub enum BlockExit {
    /// All operations ran, or a store invalidated the block: go on as the
    /// decision says.
    Finished(ControlFlowDecision),
    /// The operation at this index waits for input; it and those after it
    /// have not run.
    Blocked(usize),
}

/// Whether `entries` lists a block entered at key `k`.
pub open spec fn removed(entries: Seq<PC>, k: int) -> bool {
    exists|i: int| 0 <= i < entries.len() && (#[trigger] entries[i]).key() == k
}

/// The state after discarding every block that the reverse index lists for
/// cell `p`, and clearing that list.
pub open spec fn invalidate_spec(j: JitState, p: Position) -> JitState {
    let entries = j.index[p.cell()];
    JitState {
        blocks: Seq::new(
            j.blocks.len(),
            |k: int|
                if removed(entries, k) {
                    None
                } else {
                    j.blocks[k]
                },
        ),
        index: j.index.update(p.cell(), Seq::empty()),
        ..j
    }
}

/// Whether one of `cells` is cell number `k`.
pub open spec fn in_cells(cells: Seq<Position>, k: int) -> bool {
    exists|i: int| 0 <= i < cells.len() && (#[trigger] cells[i]).cell() == k
}

/// The reverse index after recording that entry `e` visited `cells`: `e`
/// is appended to the list of each of those cells unless it ends it already.
pub open spec fn indexed(index: Seq<Seq<PC>>, cells: Seq<Position>, e: PC) -> Seq<Seq<PC>> {
    Seq::new(
        index.len(),
        |k: int|
            if in_cells(cells, k) && !(index[k].len() > 0 && index[k].last() == e) {
                index[k].push(e)
            } else {
                index[k]
            },
    )
}

/// The block for the current program counter: the cached one, or else a
/// newly compiled one, which is then cached and indexed.
pub open spec fn ensure_spec(j: JitState) -> Result<(JitState, BlockView), Error> {
    match j.blocks[j.pc.key()] {
        Some(b) => Ok((j, b)),
        None => match compile_spec(j.machine.grid, j.pc) {
            Ok(b) => Ok(
                (
                    JitState {
                        blocks: j.blocks.update(j.pc.key(), Some(b)),
                        index: indexed(j.index, b.cells, j.pc),
                        compiles: if j.compiles < usize::MAX {
                            (j.compiles + 1) as usize
                        } else {
                            j.compiles
                        },
                        ..j
                    },
                    b,
                ),
            ),
            Err(e) => Err(e),
        },
    }
}

/// Running the operations of block `b` from index `i` on: the state after,
/// and how the block ended.
pub open spec fn run_ops(j: JitState, b: BlockView, i: nat) -> (JitState, Result<BlockExit, Error>)
    decreases b.ops.len() - i,
{
    if i >= b.ops.len() {
        (j, Ok(BlockExit::Finished(b.term)))
    } else {
        match op_spec(j.machine, b.ops[i as int]) {
            OpOutcome::Done(m) => run_ops(JitState { machine: m, ..j }, b, i + 1),
            OpOutcome::Wrote(m, p) => {
                let after = invalidate_spec(JitState { machine: m, ..j }, p);
                if j.index[p.cell()].contains(b.entry) {
                    (after, Ok(BlockExit::Finished(ControlFlowDecision::Jump(resume_pc(b.ops[i as int])))))
                } else {
                    run_ops(after, b, i + 1)
                }
            },
            OpOutcome::Blocked => (j, Ok(BlockExit::Blocked(i as usize))),
            OpOutcome::Failed(m, e) => (JitState { machine: m, ..j }, Err(e)),
        }
    }
}

/// Where a store operation resumes if it invalidates its own block.
pub open spec fn resume_pc(op: Operation) -> PC {
    match op {
        Operation::SetValue { pc_after } => pc_after,
        _ => arbitrary(),
    }
}

/// The program counter after a block's decision, given the random choice
/// for `?` (0 to 3: up, down, left, right) and the value popped for a branch.
pub open spec fn target_spec(term: ControlFlowDecision, cond: i64, choice: int, pc: PC) -> PC {
    match term {
        ControlFlowDecision::Jump(p) => p,
        ControlFlowDecision::Branch { true_target, false_target } => if cond == 0 {
            false_target
        } else {
            true_target
        },
        ControlFlowDecision::Random { up, down, left, right } => if choice == 0 {
            up
        } else if choice == 1 {
            down
        } else if choice == 2 {
            left
        } else {
            right
        },
        ControlFlowDecision::EndProgram => pc,
    }
}

/// The shape of the cache: each cached block sits at its entry's key,
/// refers only to valid program counters and cells, and is listed in the
/// reverse index at every cell its trace visited.
pub open spec fn cache_shape(j: JitState) -> bool {
    &&& j.blocks.len() == BLOCK_KEYS
    &&& j.index.len() == GRID_CELLS
    &&& j.machine.grid.len() == GRID_CELLS
    &&& j.pc.valid()
    &&& forall|k: int| 0 <= k < BLOCK_KEYS && (#[trigger] j.blocks[k]) is Some ==> cached_ok(j, k)
    &&& forall|c: int, n: int| 0 <= c < GRID_CELLS && 0 <= n < j.index[c].len() ==> (#[trigger] j.index[c][n]).valid()
}

/// The cached block at key `k` is what compiling the current playfield at
/// its entry gives.
pub open spec fn coherent(j: JitState, k: int) -> bool {
    compile_spec(j.machine.grid, j.blocks[k]->Some_0.entry) == Ok::<BlockView, Error>(j.blocks[k]->Some_0)
}

/// The cache invariant: the shape, and every cached block coherent with
/// the playfield, so that the cache never serves a stale block.
pub open spec fn cache_ok(j: JitState) -> bool {
    &&& cache_shape(j)
    &&& forall|k: int| 0 <= k < BLOCK_KEYS && (#[trigger] j.blocks[k]) is Some ==> coherent(j, k)
}

/// The cache right after a store to cell `p`, before invalidation: only
/// blocks that visited `p` may be stale.
pub open spec fn stored_ok(j: JitState, p: Position) -> bool {
    &&& cache_shape(j)
    &&& forall|k: int|
        0 <= k < BLOCK_KEYS && (#[trigger] j.blocks[k]) is Some ==> coherent(j, k) || j.blocks[k]->Some_0.cells.contains(p)
}

/// The cache invariant for the block at key `k`.
pub open spec fn cached_ok(j: JitState, k: int) -> bool {
    let b = j.blocks[k]->Some_0;
    &&& block_ok(b)
    &&& b.entry.key() == k
    &&& forall|i: int| 0 <= i < b.cells.len() ==> j.index[(#[trigger] b.cells[i]).cell()].contains(b.entry)
}

proof fn lemma_invalidate_ok(j: JitState, p: Position)
    requires
        stored_ok(j, p),
        p.in_grid(),
    ensures
        cache_ok(invalidate_spec(j, p)),
{
    let after = invalidate_spec(j, p);
    let entries = j.index[p.cell()];
    assert forall|k: int| 0 <= k < BLOCK_KEYS && (#[trigger] after.blocks[k]) is Some implies cached_ok(after, k) by {
        assert(!removed(entries, k));
        assert(j.blocks[k] is Some);
        assert(cached_ok(j, k));
        let b = j.blocks[k]->Some_0;
        assert forall|i: int| 0 <= i < b.cells.len() implies after.index[(#[trigger] b.cells[i]).cell()].contains(b.entry) by {
            let c = b.cells[i].cell();
            assert(j.index[c].contains(b.entry));
            if c == p.cell() {
                let n = choose|n: int| 0 <= n < entries.len() && entries[n] == b.entry;
                assert(entries[n].key() == k);
            }
        }
        if b.cells.contains(p) {
            let i = choose|i: int| 0 <= i < b.cells.len() && b.cells[i] == p;
            assert(j.index[b.cells[i].cell()].contains(b.entry));
            let n = choose|n: int| 0 <= n < entries.len() && entries[n] == b.entry;
            assert(entries[n].key() == k);
        }
        assert(coherent(j, k));
    }
}

/// A store to cell `p` leaves stale at most the blocks that visited `p`.
proof fn lemma_store_ok(j: JitState, m: MachineView, p: Position)
    requires
        cache_ok(j),
        p.in_grid(),
        m.grid.len() == GRID_CELLS,
        forall|c: int| 0 <= c < GRID_CELLS && c != p.cell() ==> m.grid[c] == j.machine.grid[c],
    ensures
        stored_ok(JitState { machine: m, ..j }, p),
{
    let j1 = JitState { machine: m, ..j };
    assert forall|k: int| 0 <= k < BLOCK_KEYS && (#[trigger] j1.blocks[k]) is Some implies cached_ok(j1, k) by {
        assert(cached_ok(j, k));
    }
    assert forall|k: int|
        0 <= k < BLOCK_KEYS && (#[trigger] j1.blocks[k]) is Some implies coherent(j1, k) || j1.blocks[k]->Some_0.cells.contains(p) by {
        assert(cached_ok(j, k));
        assert(coherent(j, k));
        let b = j.blocks[k]->Some_0;
        if !b.cells.contains(p) {
            assert forall|i: int| 0 <= i < b.cells.len() implies j.machine.grid[(#[trigger] b.cells[i]).cell()] == m.grid[b.cells[i].cell()] by {
                if b.cells[i].cell() == p.cell() {
                    crate::pc::lemma_cell_injective(b.cells[i], p);
                }
            }
            lemma_compile_frame(j.machine.grid, m.grid, b.entry);
        }
    }
}

proof fn lemma_indexed_keeps(index: Seq<Seq<PC>>, cells: Seq<Position>, e: PC, k: int, x: PC)
    requires
        0 <= k < index.len(),
        index[k].contains(x),
    ensures
        indexed(index, cells, e)[k].contains(x),
{
    let n = choose|n: int| 0 <= n < index[k].len() && index[k][n] == x;
    let l = indexed(index, cells, e)[k];
    assert(l[n] == x);
}

pub(crate) proof fn lemma_ensure_ok(j: JitState)
    requires
        cache_ok(j),
    ensures
        match ensure_spec(j) {
            Ok((j2, b)) => cache_ok(j2) && block_ok(b) && b.entry == j.pc && j2.machine == j.machine
                && j2.pc == j.pc && j2.blocks[j.pc.key()] == Some(b),
            Err(_) => true,
        },
{
    let key = j.pc.key();
    match j.blocks[key] {
        Some(b) => {
            assert(cached_ok(j, key));
            assert(coherent(j, key));
            crate::pc::lemma_key_injective(b.entry, j.pc);
        },
        None => {
            lemma_compile_ok(j.machine.grid, j.pc);
            match compile_spec(j.machine.grid, j.pc) {
                Ok(b) => {
                    let j2 = ensure_spec(j)->Ok_0.0;
                    assert forall|k: int| 0 <= k < BLOCK_KEYS && (#[trigger] j2.blocks[k]) is Some implies cached_ok(j2, k) by {
                        if k == key {
                            assert forall|i: int| 0 <= i < b.cells.len() implies j2.index[(#[trigger] b.cells[i]).cell()].contains(b.entry) by {
                                let c = b.cells[i].cell();
                                assert(in_cells(b.cells, c));
                                let l = j2.index[c];
                                assert(l[l.len() - 1] == j.pc);
                            }
                        } else {
                            assert(cached_ok(j, k));
                            assert(coherent(j, k));
                            let bk = j.blocks[k]->Some_0;
                            assert forall|i: int| 0 <= i < bk.cells.len() implies j2.index[(#[trigger] bk.cells[i]).cell()].contains(bk.entry) by {
                                lemma_indexed_keeps(j.index, b.cells, j.pc, bk.cells[i].cell(), bk.entry);
                            }
                        }
                    }
                },
                Err(_) => {},
            }
        },
    }
}

/// The Befunge-93 just-in-time compiler and its running program.
pub struct JustInTimeCompiler {
    machine: Machine,
    basic_blocks: Vec<Option<Rc<BasicBlock>>>,
    grid_block_map: Vec<Vec<PC>>,
    program_counter: PC,
    suspended: Option<Rc<BasicBlock>>,
    resume_op: usize,
    rng: SmallRng,
    basic_block_compiles: usize,
}

/// The view of a cache slot.
pub open spec fn slot_view(o: Option<Rc<BasicBlock>>) -> Option<BlockView> {
    match o {
        Some(b) => Some(b@),
        None => None,
    }
}

impl View for JustInTimeCompiler {
    type V = JitState;

    closed spec fn view(&self) -> JitState {
        JitState {
            machine: self.machine@,
            blocks: self.basic_blocks@.map_values(|o: Option<Rc<BasicBlock>>| slot_view(o)),
            index: self.grid_block_map@.map_values(|v: Vec<PC>| v@),
            pc: self.program_counter,
            compiles: self.basic_block_compiles,
        }
    }
}

impl JustInTimeCompiler {
    /// Internal consistency: the cache invariant, and the parts.
    pub closed spec fn wf(&self) -> bool {
        self.parts_ok() && cache_ok(self@)
    }

    /// The parts are well formed, and a suspended block has an operation
    /// left to resume at.
    closed spec fn parts_ok(&self) -> bool {
        &&& self.machine.wf()
        &&& self.basic_blocks@.len() == BLOCK_KEYS
        &&& self.grid_block_map@.len() == GRID_CELLS
        &&& match self.suspended {
            Some(b) => block_ok(b@) && self.resume_op < b@.ops.len(),
            None => true,
        }
    }

    /// The block whose execution waits for input, and the operation at
    /// which it resumes.
    pub closed spec fn waiting(&self) -> Option<(BlockView, nat)> {
        match self.suspended {
            Some(b) => Some((b@, self.resume_op as nat)),
            None => None,
        }
    }

    /// Discards the cached blocks that the reverse index lists for `cell`,
    /// clears that list, and returns it.
    fn invalidate_bytecode(&mut self, cell: Position) -> (r: Vec<PC>)
        requires
            old(self).parts_ok(),
            stored_ok(old(self)@, cell),
            cell.in_grid(),
        ensures
            final(self).wf(),
            r@ == old(self)@.index[cell.cell()],
            final(self)@ == invalidate_spec(old(self)@, cell),
            final(self).waiting() == old(self).waiting(),
    {
        let c = cell.cell_index();
        let mut entries: Vec<PC> = Vec::new();
        self.grid_block_map.set_and_swap(c, &mut entries);
        let ghost j0 = old(self)@;
        let ghost target = invalidate_spec(j0, cell);
        let ghost map_after = self.grid_block_map@;
        assert(entries@ == j0.index[cell.cell()]);
        assert forall|n: int| 0 <= n < entries@.len() implies (#[trigger] entries@[n]).valid() by {
            assert(j0.index[cell.cell()][n] == entries@[n]);
        }
        let mut i: usize = 0;
        while i < entries.len()
            invariant
                i <= entries@.len(),
                entries@ == j0.index[cell.cell()],
                self.basic_blocks@.len() == BLOCK_KEYS,
                forall|k: int| 0 <= k < BLOCK_KEYS ==> #[trigger] slot_view(self.basic_blocks@[k]) == if removed(
                    entries@.take(i as int),
                    k,
                ) {
                    None
                } else {
                    j0.blocks[k]
                },
                forall|n: int| 0 <= n < entries@.len() ==> (#[trigger] entries@[n]).valid(),
                self.grid_block_map@ == map_after,
                map_after.len() == GRID_CELLS,
                forall|q: int| 0 <= q < GRID_CELLS && q != cell.cell() ==> #[trigger] map_after[q] == old(self).grid_block_map@[q],
                map_after[cell.cell()]@ == Seq::<PC>::empty(),
                self.machine == old(self).machine,
                self.program_counter == old(self).program_counter,
                self.basic_block_compiles == old(self).basic_block_compiles,
                self.suspended == old(self).suspended,
                self.resume_op == old(self).resume_op,
            decreases entries@.len() - i,
        {
            let e = entries[i];
            let k = e.key_index();
            let mut slot: Option<Rc<BasicBlock>> = None;
            self.basic_blocks.set_and_swap(k, &mut slot);
            i = i + 1;
            assert forall|q: int| 0 <= q < BLOCK_KEYS implies #[trigger] slot_view(self.basic_blocks@[q]) == if removed(
                entries@.take(i as int),
                q,
            ) {
                None
            } else {
                j0.blocks[q]
            } by {
                if removed(entries@.take(i - 1), q) {
                    let n = choose|n: int| 0 <= n < i - 1 && (#[trigger] entries@.take(i - 1)[n]).key() == q;
                    assert(entries@.take(i as int)[n] == entries@[n]);
                } else if q == k {
                    assert(entries@.take(i as int)[i - 1] == e);
                } else if removed(entries@.take(i as int), q) {
                    let n = choose|n: int| 0 <= n < i && (#[trigger] entries@.take(i as int)[n]).key() == q;
                    assert(n != i - 1);
                    assert(entries@.take(i - 1)[n] == entries@[n]);
                }
            }
        }
        proof {
            assert(entries@.take(entries@.len() as int) =~= entries@);
            assert(self@.blocks =~= target.blocks);
            assert(self@.index =~= target.index);
        }
        entries
    }

    /// The block for the current program counter: the cached one, or a newly
    /// compiled one, which is then cached and indexed. The block is shared
    /// with the cache.
    fn ensure_basic_block(&mut self) -> (r: Result<Rc<BasicBlock>, Error>)
        requires
            old(self).wf(),
        ensures
            final(self).wf(),
            final(self).waiting() == old(self).waiting(),
            match ensure_spec(old(self)@) {
                Ok((j, b)) => r is Ok && r->Ok_0@ == b && final(self)@ == j,
                Err(e) => r == Err::<Rc<BasicBlock>, Error>(e) && final(self)@ == old(self)@,
            },
            old(self)@.blocks[old(self)@.pc.key()] is Some ==> r is Ok && final(self)@ == old(self)@
                && Some(r->Ok_0@) == old(self)@.blocks[old(self)@.pc.key()],
            r is Ok ==> compile_spec(old(self)@.machine.grid, old(self)@.pc) == Ok::<BlockView, Error>(r->Ok_0@),
            r is Ok ==> final(self)@.blocks[old(self)@.pc.key()] == Some(r->Ok_0@),
            r is Ok && old(self)@.blocks[old(self)@.pc.key()] is None && old(self)@.compiles < usize::MAX
                ==> final(self)@.compiles == old(self)@.compiles + 1,
    {
        proof {
            lemma_ensure_ok(self@);
            if ensure_spec(self@) is Ok {
                lemma_cache_hit(self@);
            }
        }
        let key = self.program_counter.key_index();
        match &self.basic_blocks[key] {
            Some(b) => {
                return Ok(b.clone());
            },
            None => {},
        }
        let b = match compile_basic_block_from(self.program_counter, self.machine.grid()) {
            Ok(b) => b,
            Err(e) => {
                return Err(e);
            },
        };
        let ghost j0 = self@;
        let e = self.program_counter;
        let mut i: usize = 0;
        while i < b.cells.len()
            invariant
                i <= b.cells@.len(),
                forall|n: int| 0 <= n < b.cells@.len() ==> (#[trigger] b.cells@[n]).in_grid(),
                self.grid_block_map@.len() == GRID_CELLS,
                j0.index.len() == GRID_CELLS,
                self@.index =~= indexed(j0.index, b.cells@.take(i as int), e),
                self.machine == old(self).machine,
                self.basic_blocks == old(self).basic_blocks,
                self.program_counter == e,
                self.suspended == old(self).suspended,
                self.resume_op == old(self).resume_op,
                self.basic_block_compiles == old(self).basic_block_compiles,
            decreases b.cells@.len() - i,
        {
            let c = b.cells[i].cell_index();
            let ghost pre_index = self@.index;
            let mut l: Vec<PC> = Vec::new();
            self.grid_block_map.set_and_swap(c, &mut l);
            let ghost before = l@;
            assert(before == pre_index[c as int]);
            if l.len() == 0 || l[l.len() - 1] != e {
                l.push(e);
            }
            let ghost new_list = l@;
            self.grid_block_map.set_and_swap(c, &mut l);
            assert(self@.index =~= pre_index.update(c as int, new_list));
            proof {
                let prev = b.cells@.take(i as int);
                let next = b.cells@.take(i + 1);
                assert forall|k: int| 0 <= k < GRID_CELLS implies #[trigger] self@.index[k] == indexed(j0.index, next, e)[k] by {
                    if k != c {
                        if in_cells(next, k) {
                            let n = choose|n: int| 0 <= n < next.len() && (#[trigger] next[n]).cell() == k;
                            assert(prev[n] == next[n]);
                        }
                        if in_cells(prev, k) {
                            let n = choose|n: int| 0 <= n < prev.len() && (#[trigger] prev[n]).cell() == k;
                            assert(prev[n] == next[n]);
                        }
                    } else {
                        assert(next[i as int] == b.cells@[i as int]);
                        assert(in_cells(next, k));
                        assert(self@.index[k] == new_list);
                        if in_cells(prev, k) {
                            assert(before.len() > 0 && before.last() == e);
                        }
                    }
                }
            }
            i = i + 1;
        }
        proof {
            assert(b.cells@.take(b.cells@.len() as int) =~= b.cells@);
        }
        self.basic_block_compiles = self.basic_block_compiles.saturating_add(1);
        let shared = Rc::new(b);
        self.basic_blocks.set(key, Some(shared.clone()));
        proof {
            assert(self@.blocks =~= ensure_spec(old(self)@)->Ok_0.0.blocks);
        }
        Ok(shared)
    }

    /// Runs the operations of `block` from index `start` on.
    ///
    /// Stops early at an operation that waits for input, and right after a
    /// store that discards `block` itself, with a jump to where that store
    /// resumes.
    fn execute(&mut self, block: &BasicBlock, start: usize) -> (r: Result<BlockExit, Error>)
        requires
            old(self).wf(),
            block_ok(block@),
            start <= block@.ops.len(),
        ensures
            final(self).wf(),
            final(self).waiting() == old(self).waiting(),
            r == run_ops(old(self)@, block@, start as nat).1,
            final(self)@ == run_ops(old(self)@, block@, start as nat).0,
            r matches Ok(BlockExit::Finished(t)) ==> crate::block::term_targets_valid(t),
            r matches Ok(BlockExit::Blocked(k)) ==> k < block@.ops.len(),
    {
        let mut i = start;
        while i < block.bytecode.len()
            invariant
                self.wf(),
                block_ok(block@),
                start <= i <= block@.ops.len(),
                run_ops(old(self)@, block@, start as nat) == run_ops(self@, block@, i as nat),
                self.waiting() == old(self).waiting(),
            decreases block@.ops.len() - i,
        {
            let op = block.bytecode[i];
            let ghost j = self@;
            match self.machine.apply(op) {
                Err(e) => {
                    return Err(e);
                },
                Ok(Applied::Blocked) => {
                    return Ok(BlockExit::Blocked(i));
                },
                Ok(Applied::Done) => {},
                Ok(Applied::Wrote(p)) => {
                    proof {
                        lemma_store_ok(j, self@.machine, p);
                    }
                    let entries = self.invalidate_bytecode(p);
                    let mut hit = false;
                    let mut n: usize = 0;
                    while n < entries.len()
                        invariant
                            n <= entries@.len(),
                            hit == entries@.take(n as int).contains(block.entry_point),
                        decreases entries@.len() - n,
                    {
                        if entries[n] == block.entry_point {
                            hit = true;
                        }
                        n = n + 1;
                        proof {
                            let pre = entries@.take(n - 1);
                            let cur = entries@.take(n as int);
                            assert(pre =~= cur.drop_last());
                            if pre.contains(block.entry_point) {
                                let q = choose|q: int| 0 <= q < pre.len() && pre[q] == block.entry_point;
                                assert(cur[q] == pre[q]);
                            }
                            if cur.contains(block.entry_point) && cur[n - 1] != block.entry_point {
                                let q = choose|q: int| 0 <= q < cur.len() && cur[q] == block.entry_point;
                                assert(pre[q] == cur[q]);
                            }
                        }
                    }
                    proof {
                        assert(entries@.take(entries@.len() as int) =~= entries@);
                    }
                    if hit {
                        assert(crate::block::op_targets_valid(block@.ops[i as int]));
                        match op {
                            Operation::SetValue { pc_after } => {
                                return Ok(BlockExit::Finished(ControlFlowDecision::Jump(pc_after)));
                            },
                            _ => {},
                        }
                    }
                },
            }
            i = i + 1;
        }
        Ok(BlockExit::Finished(block.cf_decision))
    }

    /// A compiler for program text `grid` whose input comes later, through
    /// `feed_input`; `seed` seeds the random source of `?`.
    pub fn new(grid: &str, seed: u64) -> (r: Result<JustInTimeCompiler, Error>)
        ensures
            match parse_spec(grid@) {
                Ok(g) => r is Ok && r->Ok_0.wf() && r->Ok_0@ == initial_state(g, Seq::empty(), false)
                    && r->Ok_0.waiting() is None,
                Err(e) => r is Err && r->Err_0 == e,
            },
    {
        Self::with_input(grid, InputBuffer::new(Vec::new(), false), seed)
    }

    /// A compiler for program text `grid` whose whole input is `input`;
    /// `seed` seeds the random source of `?`.
    pub fn new_with_io(grid: &str, input: Vec<u8>, seed: u64) -> (r: Result<JustInTimeCompiler, Error>)
        ensures
            match parse_spec(grid@) {
                Ok(g) => r is Ok && r->Ok_0.wf() && r->Ok_0@ == initial_state(g, input@, true)
                    && r->Ok_0.waiting() is None,
                Err(e) => r is Err && r->Err_0 == e,
            },
    {
        Self::with_input(grid, InputBuffer::new(input, true), seed)
    }

    fn with_input(grid: &str, input: InputBuffer, seed: u64) -> (r: Result<JustInTimeCompiler, Error>)
        requires
            input.wf(),
        ensures
            match parse_spec(grid@) {
                Ok(g) => r is Ok && r->Ok_0.wf() && r->Ok_0@ == initial_state(g, input.remaining(), input.is_closed())
                    && r->Ok_0.waiting() is None,
                Err(e) => r is Err && r->Err_0 == e,
            },
    {
        let parsed = match crate::interpreter::Interpreter::parse_grid(grid) {
            Ok(g) => g,
            Err(e) => {
                return Err(e);
            },
        };
        let mut basic_blocks: Vec<Option<Rc<BasicBlock>>> = Vec::new();
        let mut k: usize = 0;
        while k < BLOCK_KEYS
            invariant
                k <= BLOCK_KEYS,
                basic_blocks@.len() == k,
                forall|q: int| 0 <= q < k ==> (#[trigger] basic_blocks@[q]) is None,
            decreases BLOCK_KEYS - k,
        {
            basic_blocks.push(None);
            k = k + 1;
        }
        let mut grid_block_map: Vec<Vec<PC>> = Vec::new();
        let mut c: usize = 0;
        while c < GRID_CELLS
            invariant
                c <= GRID_CELLS,
                grid_block_map@.len() == c,
                forall|q: int| 0 <= q < c ==> (#[trigger] grid_block_map@[q])@.len() == 0,
            decreases GRID_CELLS - c,
        {
            grid_block_map.push(Vec::new());
            c = c + 1;
        }
        let r = JustInTimeCompiler {
            machine: Machine::new(parsed, input),
            basic_blocks,
            grid_block_map,
            program_counter: PC::start(),
            suspended: None,
            resume_op: 0,
            rng: seeded_rng(seed),
            basic_block_compiles: 0,
        };
        assert(r@.blocks =~= Seq::new(BLOCK_KEYS as nat, |k: int| None::<BlockView>));
        assert forall|q: int| 0 <= q < GRID_CELLS implies #[trigger] r@.index[q] == Seq::<PC>::empty() by {
            assert(r@.index[q] =~= Seq::<PC>::empty());
        }
        assert(r@.index =~= Seq::new(GRID_CELLS as nat, |k: int| Seq::<PC>::empty()));
        Ok(r)
    }

    /// Runs the next block: the one waiting for input, if any, else the one
    /// entered at the program counter, compiled first if it is not cached.
    /// The block's decision is left for `resolve`.
    pub fn step_block(&mut self) -> (r: Result<BlockExit, Error>)
        requires
            old(self).wf(),
        ensures
            final(self).wf(),
            match old(self).waiting() {
                Some((b, i)) => block_run_ensures(old(self)@, b, i, r, final(self)@, final(self).waiting()),
                None => match ensure_spec(old(self)@) {
                    Ok((j, b)) => block_run_ensures(j, b, 0, r, final(self)@, final(self).waiting()),
                    Err(e) => r == Err::<BlockExit, Error>(e) && final(self)@ == old(self)@ && final(self).waiting() is None,
                },
            },
            r matches Ok(BlockExit::Finished(t)) ==> crate::block::term_targets_valid(t),
    {
        let mut waiting: Option<Rc<BasicBlock>> = None;
        std::mem::swap(&mut waiting, &mut self.suspended);
        let (block, start) = match waiting {
            Some(b) => (b, self.resume_op),
            None => match self.ensure_basic_block() {
                Ok(b) => (b, 0),
                Err(e) => {
                    return Err(e);
                },
            },
        };
        proof {
            lemma_ensure_ok(old(self)@);
        }
        let r = self.execute(&*block, start);
        match r {
            Ok(BlockExit::Blocked(k)) => {
                self.suspended = Some(block);
                self.resume_op = k;
            },
            _ => {},
        }
        r
    }

    /// Moves the program counter as decision `term` says: `choice` (0 to 3)
    /// picks among the targets of `?`; a branch pops its condition.
    pub fn resolve(&mut self, term: ControlFlowDecision, choice: u32)
        requires
            old(self).wf(),
            crate::block::term_targets_valid(term),
            choice < 4,
        ensures
            final(self).wf(),
            final(self).waiting() == old(self).waiting(),
            final(self)@ == resolve_spec(old(self)@, term, choice as int),
    {
        match term {
            ControlFlowDecision::Jump(p) => {
                self.program_counter = p;
            },
            ControlFlowDecision::Branch { true_target, false_target } => {
                let v = self.machine.pop();
                self.program_counter = if v == 0 {
                    false_target
                } else {
                    true_target
                };
            },
            ControlFlowDecision::Random { up, down, left, right } => {
                self.program_counter = if choice == 0 {
                    up
                } else if choice == 1 {
                    down
                } else if choice == 2 {
                    left
                } else {
                    right
                };
            },
            ControlFlowDecision::EndProgram => {},
        }
    }

    /// Runs at most `max_blocks` blocks, following each block's decision,
    /// with `?` taking a direction drawn from the random source. Returns
    /// `Ended` when the program reached `@`, `NeedInput` when it waits for
    /// input that was not given yet, and `Paused` when the budget ran out.
    ///
    /// Whatever the random source gave, the run is the one that `run_spec`
    /// describes for the choices it made.
    pub fn run(&mut self, max_blocks: usize) -> (r: Result<RunStatus, Error>)
        requires
            old(self).wf(),
        ensures
            final(self).wf(),
            exists|choices: Seq<int>|
                choices.len() <= max_blocks && (forall|i: int| 0 <= i < choices.len() ==> 0 <= #[trigger] choices[i] < 4)
                    && run_ensures(run_spec(old(self)@, old(self).waiting(), choices), choices.len() == max_blocks, r, final(self)@, final(self).waiting()),
    {
        let ghost choices: Seq<int> = Seq::empty();
        let mut n: usize = 0;
        while n < max_blocks
            invariant
                self.wf(),
                n <= max_blocks,
                choices.len() == n,
                forall|i: int| 0 <= i < choices.len() ==> 0 <= #[trigger] choices[i] < 4,
                run_spec(old(self)@, old(self).waiting(), choices).result == Ok::<Option<RunStatus>, Error>(None),
                run_spec(old(self)@, old(self).waiting(), choices).state == self@,
                run_spec(old(self)@, old(self).waiting(), choices).waiting == self.waiting(),
            decreases max_blocks - n,
        {
            let ghost next = choices.push(0);
            assert(next.drop_last() =~= choices);
            match self.step_block() {
                Err(e) => {
                    assert(run_ensures(run_spec(old(self)@, old(self).waiting(), next), false, Err(e), self@, self.waiting()));
                    return Err(e);
                },
                Ok(BlockExit::Blocked(k)) => {
                    assert(run_ensures(run_spec(old(self)@, old(self).waiting(), next), false, Ok(RunStatus::NeedInput), self@, self.waiting()));
                    return Ok(RunStatus::NeedInput);
                },
                Ok(BlockExit::Finished(ControlFlowDecision::EndProgram)) => {
                    assert(run_ensures(run_spec(old(self)@, old(self).waiting(), next), false, Ok(RunStatus::Ended), self@, self.waiting()));
                    return Ok(RunStatus::Ended);
                },
                Ok(BlockExit::Finished(t)) => {
                    let choice = match t {
                        ControlFlowDecision::Random { .. } => random_index(&mut self.rng),
                        _ => 0,
                    };
                    self.resolve(t, choice);
                    proof {
                        let cs = choices.push(choice as int);
                        assert(cs.drop_last() =~= choices);
                        choices = cs;
                    }
                },
            }
            n = n + 1;
        }
        Ok(RunStatus::Paused)
    }

    /// Adds bytes to the program's input.
    pub fn feed_input(&mut self, bytes: &[u8])
        requires
            old(self).wf(),
        ensures
            final(self).wf(),
            final(self).waiting() == old(self).waiting(),
            final(self)@ == (JitState {
                machine: MachineView { input: old(self)@.machine.input + bytes@, ..old(self)@.machine },
                ..old(self)@
            }),
    {
        self.machine.feed_input(bytes);
    }

    /// Says that no more input will come.
    pub fn close_input(&mut self)
        requires
            old(self).wf(),
        ensures
            final(self).wf(),
            final(self).waiting() == old(self).waiting(),
            final(self)@ == (JitState { machine: MachineView { closed: true, ..old(self)@.machine }, ..old(self)@ }),
    {
        self.machine.close_input();
    }

    /// Hands out the output written so far and forgets it.
    pub fn take_output(&mut self) -> (r: Vec<u8>)
        requires
            old(self).wf(),
        ensures
            final(self).wf(),
            final(self).waiting() == old(self).waiting(),
            r@ == old(self)@.machine.output,
            final(self)@ == (JitState { machine: MachineView { output: Seq::empty(), ..old(self)@.machine }, ..old(self)@ }),
    {
        self.machine.take_output()
    }

    /// Number of blocks compiled so far.
    pub fn steps(&self) -> (r: usize)
        ensures
            r == self@.compiles,
    {
        self.basic_block_compiles
    }

    /// Position of the program counter.
    pub fn position(&self) -> (r: Position)
        ensures
            r == self@.pc.position,
    {
        self.program_counter.position
    }
}

/// What `run` reports.
#[derive(Clone, Copy, Debug, PartialEq, Eq, Structural)]
pub enum RunStatus {
    /// The program reached `@`.
    Ended,
    /// The program waits for input that was not given yet.
    NeedInput,
    /// The budget of blocks ran out.
    Paused,
}

/// The state of a new compiler: playfield `g`, input `input` (`closed`
/// when nothing follows it), an empty cache and index, at the start.
pub open spec fn initial_state(g: Seq<u8>, input: Seq<u8>, closed: bool) -> JitState {
    JitState {
        machine: MachineView { grid: g, stack: Seq::empty(), input, closed, output: Seq::empty() },
        blocks: Seq::new(BLOCK_KEYS as nat, |k: int| None),
        index: Seq::new(GRID_CELLS as nat, |k: int| Seq::empty()),
        pc: crate::pc::start_pc(),
        compiles: 0,
    }
}

/// How running block `b` from operation `i` in state `j` ends: the result,
/// the state after, and what waits for input.
pub open spec fn block_run_ensures(
    j: JitState,
    b: BlockView,
    i: nat,
    r: Result<BlockExit, Error>,
    after: JitState,
    waiting: Option<(BlockView, nat)>,
) -> bool {
    &&& r == run_ops(j, b, i).1
    &&& after == run_ops(j, b, i).0
    &&& waiting == match r {
        Ok(BlockExit::Blocked(k)) => Some((b, k as nat)),
        _ => None,
    }
}

/// The state after decision `term`, given the random choice for `?`.
pub open spec fn resolve_spec(j: JitState, term: ControlFlowDecision, choice: int) -> JitState {
    match term {
        ControlFlowDecision::Branch { .. } => {
            let (v, s) = pop(j.machine.stack);
            JitState { machine: with_stack(j.machine, s), pc: target_spec(term, v, choice, j.pc), ..j }
        },
        _ => JitState { pc: target_spec(term, 0, choice, j.pc), ..j },
    }
}

/// Entering twice at an unchanged program counter yields the same block;
/// the second entry is a cache hit that changes nothing, and only an entry
/// that finds no cached block compiles one. Hit or miss, the block is the
/// one that compiling the current playfield gives.
pub proof fn lemma_cache_hit(j: JitState)
    requires
        cache_ok(j),
        ensure_spec(j) is Ok,
    ensures
        ({
            let (j1, b) = ensure_spec(j)->Ok_0;
            &&& compile_spec(j.machine.grid, j.pc) == Ok::<BlockView, Error>(b)
            &&& ensure_spec(j1) == Ok::<(JitState, BlockView), Error>((j1, b))
            &&& j.blocks[j.pc.key()] is Some ==> j1 == j
            &&& j.blocks[j.pc.key()] is None && j.compiles < usize::MAX ==> j1.compiles == j.compiles + 1
        }),
{
    lemma_ensure_ok(j);
    let key = j.pc.key();
    if j.blocks[key] is Some {
        assert(coherent(j, key));
    }
}

/// The machine after a store operation `op` runs on `m`.
pub open spec fn after_store(m: MachineView, op: Operation) -> MachineView {
    match op_spec(m, op) {
        OpOutcome::Wrote(a, _) => a,
        OpOutcome::Done(a) => a,
        _ => m,
    }
}

/// A store that overwrites the entry cell of the block running it stops
/// the block right after the store: the block's entries are discarded and
/// execution resumes at the store's `pc_after`; the operations after the
/// store do not run.
pub proof fn lemma_self_invalidation(j: JitState, b: BlockView, i: nat)
    requires
        cache_ok(j),
        b.entry.valid(),
        j.blocks[b.entry.key()] == Some(b),
        i < b.ops.len(),
        b.ops[i as int] is SetValue,
        pop(j.machine.stack).0 == b.entry.position.y,
        pop(pop(j.machine.stack).1).0 == b.entry.position.x,
    ensures
        run_ops(j, b, i) == (
            invalidate_spec(JitState { machine: after_store(j.machine, b.ops[i as int]), ..j }, b.entry.position),
            Ok::<BlockExit, Error>(BlockExit::Finished(ControlFlowDecision::Jump(b.ops[i as int]->pc_after))),
        ),
{
    let k = b.entry.key();
    assert(j.blocks[k] is Some);
    assert(cached_ok(j, k));
    assert(j.index[b.cells[0].cell()].contains(b.entry));
}

/// A block that runs an operation without stopping stays cached, and the
/// cache invariant holds after the operation: so each operation of a
/// cached block runs while the block is still cached.
pub proof fn lemma_still_cached(j: JitState, b: BlockView, i: nat)
    requires
        cache_ok(j),
        b.entry.valid(),
        j.blocks[b.entry.key()] == Some(b),
        i < b.ops.len(),
    ensures
        match op_spec(j.machine, b.ops[i as int]) {
            OpOutcome::Done(m) => cache_ok(JitState { machine: m, ..j }) && run_ops(j, b, i) == run_ops(
                JitState { machine: m, ..j },
                b,
                i + 1,
            ),
            OpOutcome::Wrote(m, p) => {
                let after = invalidate_spec(JitState { machine: m, ..j }, p);
                &&& cache_ok(after)
                &&& j.index[p.cell()].contains(b.entry) || after.blocks[b.entry.key()] == Some(b)
                &&& !b.cells.contains(p) || j.index[p.cell()].contains(b.entry)
            },
            _ => true,
        },
{
    let k = b.entry.key();
    assert(j.blocks[k] is Some);
    assert(cached_ok(j, k));
    match op_spec(j.machine, b.ops[i as int]) {
        OpOutcome::Wrote(m, p) => {
            let j1 = JitState { machine: m, ..j };
            lemma_store_ok(j, m, p);
            lemma_invalidate_ok(j1, p);
            let entries = j.index[p.cell()];
            if removed(entries, k) {
                let n = choose|n: int| 0 <= n < entries.len() && (#[trigger] entries[n]).key() == k;
                assert(entries[n].valid());
                crate::pc::lemma_key_injective(entries[n], b.entry);
                assert(entries.contains(b.entry));
            }
            if b.cells.contains(p) {
                let q = choose|q: int| 0 <= q < b.cells.len() && b.cells[q] == p;
                assert(j.index[b.cells[q].cell()].contains(b.entry));
            }
        },
        OpOutcome::Done(m) => {
            let j1 = JitState { machine: m, ..j };
            assert(m.grid == j.machine.grid);
            assert forall|q: int| 0 <= q < BLOCK_KEYS && (#[trigger] j1.blocks[q]) is Some implies cached_ok(j1, q) && coherent(j1, q) by {
                assert(cached_ok(j, q));
                assert(coherent(j, q));
            }
        },
        _ => {},
    }
}

/// One dispatch: the state after it, what waits for input, and how it
/// ended (`None` when the run goes on).
pub struct Dispatch {
    pub state: JitState,
    pub waiting: Option<(BlockView, nat)>,
    pub result: Result<Option<RunStatus>, Error>,
}

/// One dispatch of the run loop from `j`: run the waiting block, or else
/// the block at the program counter, and follow its decision, with `choice`
/// for `?`.
pub open spec fn dispatch_spec(j: JitState, w: Option<(BlockView, nat)>, choice: int) -> Dispatch {
    let entered = match w {
        Some((b, i)) => Ok((j, b, i)),
        None => match ensure_spec(j) {
            Ok((j1, b)) => Ok((j1, b, 0nat)),
            Err(e) => Err(e),
        },
    };
    match entered {
        Err(e) => Dispatch { state: j, waiting: None, result: Err(e) },
        Ok((j1, b, i)) => {
            let (j2, r) = run_ops(j1, b, i);
            match r {
                Err(e) => Dispatch { state: j2, waiting: None, result: Err(e) },
                Ok(BlockExit::Blocked(k)) => Dispatch {
                    state: j2,
                    waiting: Some((b, k as nat)),
                    result: Ok(Some(RunStatus::NeedInput)),
                },
                Ok(BlockExit::Finished(ControlFlowDecision::EndProgram)) => Dispatch {
                    state: j2,
                    waiting: None,
                    result: Ok(Some(RunStatus::Ended)),
                },
                Ok(BlockExit::Finished(t)) => Dispatch {
                    state: resolve_spec(j2, t, choice),
                    waiting: None,
                    result: Ok(None),
                },
            }
        },
    }
}

/// The run loop from `j` with the random choices `choices`, one per
/// dispatch, stopping at the first dispatch that ends the run.
pub open spec fn run_spec(j: JitState, w: Option<(BlockView, nat)>, choices: Seq<int>) -> Dispatch
    decreases choices.len(),
{
    if choices.len() == 0 {
        Dispatch { state: j, waiting: w, result: Ok(None) }
    } else {
        let prev = run_spec(j, w, choices.drop_last());
        if prev.result == Ok::<Option<RunStatus>, Error>(None) {
            dispatch_spec(prev.state, prev.waiting, choices.last())
        } else {
            prev
        }
    }
}

/// Whether result `r`, state `after` and `waiting` are what run `d`
/// describes; `exhausted` says that the budget was used up.
pub open spec fn run_ensures(
    d: Dispatch,
    exhausted: bool,
    r: Result<RunStatus, Error>,
    after: JitState,
    waiting: Option<(BlockView, nat)>,
) -> bool {
    match r {
        Err(e) => d.result == Err::<Option<RunStatus>, Error>(e) && after == d.state && waiting == d.waiting,
        Ok(RunStatus::Paused) => exhausted && d.result == Ok::<Option<RunStatus>, Error>(None) && after == d.state
            && waiting == d.waiting,
        Ok(s) => d.result == Ok::<Option<RunStatus>, Error>(Some(s)) && after == d.state && waiting == d.waiting,
    }
}

/// The compiler state with `k` zeros below the stack.
pub open spec fn padded_state(j: JitState, k: nat) -> JitState {
    JitState { machine: crate::machine::padded(j.machine, k), ..j }
}

/// Whether running block `b` from operation `i` with `k` zeros below the
/// stack ends as on the bare state, with `k2` zeros left below.
pub open spec fn padded_run(j: JitState, b: BlockView, i: nat, k: nat, k2: nat) -> bool {
    let (ja, ra) = run_ops(j, b, i);
    let (jb, rb) = run_ops(padded_state(j, k), b, i);
    ra == rb && jb == padded_state(ja, k2)
}

/// Popping an empty stack acts as popping zeros over a whole block: with
/// enough zeros below the stack (three per operation), a block ends as it
/// does on the bare stack, with the same result, output, playfield and
/// cache, and only zeros below the final stack.
pub proof fn lemma_block_pop_empty(j: JitState, b: BlockView, i: nat, k: nat)
    requires
        i <= b.ops.len(),
        k >= 3 * (b.ops.len() - i),
    ensures
        exists|k2: nat| #[trigger] padded_run(j, b, i, k, k2),
    decreases b.ops.len() - i,
{
    if i < b.ops.len() {
        let op = b.ops[i as int];
        crate::machine::lemma_op_padded(j.machine, op, k);
        let k1 = choose|k1: nat| k1 + 3 >= k && #[trigger] crate::machine::padded_outcome(j.machine, op, k, k1);
        match op_spec(j.machine, op) {
            OpOutcome::Done(m) => {
                let next = JitState { machine: m, ..j };
                assert(JitState { machine: crate::machine::padded(m, k1), ..padded_state(j, k) } == padded_state(next, k1));
                lemma_block_pop_empty(next, b, i + 1, k1);
                let k2 = choose|k2: nat| #[trigger] padded_run(next, b, i + 1, k1, k2);
                assert(padded_run(j, b, i, k, k2));
            },
            OpOutcome::Wrote(m, p) => {
                let next = JitState { machine: m, ..j };
                let after = invalidate_spec(next, p);
                assert(invalidate_spec(padded_state(next, k1), p) == padded_state(after, k1));
                assert(JitState { machine: crate::machine::padded(m, k1), ..padded_state(j, k) } == padded_state(next, k1));
                if j.index[p.cell()].contains(b.entry) {
                    assert(padded_run(j, b, i, k, k1));
                } else {
                    lemma_block_pop_empty(after, b, i + 1, k1);
                    let k2 = choose|k2: nat| #[trigger] padded_run(after, b, i + 1, k1, k2);
                    assert(padded_run(j, b, i, k, k2));
                }
            },
            OpOutcome::Blocked => {
                assert(padded_run(j, b, i, k, k));
            },
            OpOutcome::Failed(m, e) => {
                assert(padded_run(j, b, i, k, k1));
            },
        }
    } else {
        assert(padded_run(j, b, i, k, k));
    }
}

} // verus!
