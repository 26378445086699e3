//! The step interpreter: executes a program one playfield cell at a time.

use vstd::prelude::*;
use rand::rngs::SmallRng;
use crate::command::{command_of, decode, Command};
use crate::error::Error;
use crate::grid::{
    signed_byte, signed_byte_value,
    all_ascii, first_non_ascii, first_non_ascii_at, fits, grid_of_lines, is_ascii_char, lemma_max_width,
    lemma_split_ascii, max_width, parse_spec, split_lines, text_lines, Grid,
};
use crate::io::InputBuffer;
use crate::jit::{target_spec, RunStatus};
use crate::machine::{op_spec, pop, with_stack, Applied, Machine, MachineView, OpOutcome};
use crate::block::{trace_state_ok, trace_step, TraceState, TraceStep};
use crate::ops::{ControlFlowDecision, Operation};
use crate::pc::{direction_of_index, Direction, Position, GRID_HEIGHT, GRID_WIDTH, PC};
use crate::random::{random_index, seeded_rng};

verus! {

/// The state of the step interpreter, as values.
pub struct InterpreterState {
    pub machine: MachineView,
    pub string_mode: bool,
    pub pc: PC,
    pub steps: usize,
}

/// What one step reports, unless it failed.
#[derive(Clone, Copy, Debug, PartialEq, Eq, Structural)]
pub enum StepStatus {
    /// The cell was executed.
    Stepped,
    /// The cell reads input that was not given yet; nothing changed.
    NeedInput,
}

/// The state after a step that ran, with the machine `m` and the program
/// counter `pc`.
pub open spec fn stepped_to(s: InterpreterState, m: MachineView, pc: PC) -> (InterpreterState, Result<StepStatus, Error>) {
    (
        InterpreterState { machine: m, pc, steps: counted(s.steps), ..s },
        Ok(StepStatus::Stepped),
    )
}

/// A step count after one more step.
pub open spec fn counted(n: usize) -> usize {
    if n < usize::MAX {
        (n + 1) as usize
    } else {
        n
    }
}

/// One step of the interpreter: execute the cell under the program counter
/// and move on. `choice` (0 to 3: up, down, left, right) is the direction
/// that `?` takes. `@` ends the program with `ProgramEnd`. A step that
/// fails counts, and leaves the program counter and string mode where they
/// are, and the machine as the failed operation left it. A step that waits
/// for input changes nothing.
#[verifier::opaque]
pub open spec fn step_spec(s: InterpreterState, choice: int) -> (InterpreterState, Result<StepStatus, Error>) {
    let c = s.machine.grid[s.pc.position.cell()];
    let next = s.pc.stepped();
    let failed = InterpreterState { steps: counted(s.steps), ..s };
    if s.string_mode {
        if c == 34 {
            stepped_to(InterpreterState { string_mode: false, ..s }, s.machine, next)
        } else {
            stepped_to(s, with_stack(s.machine, s.machine.stack.push(signed_byte(c))), next)
        }
    } else {
        match command_of(c) {
            Command::Turn(d) => stepped_to(s, s.machine, s.pc.turned(d)),
            Command::Random => stepped_to(s, s.machine, s.pc.turned(direction_of_index(choice))),
            Command::Bridge => stepped_to(s, s.machine, next.stepped()),
            Command::Nop => stepped_to(s, s.machine, next),
            Command::Quote => stepped_to(InterpreterState { string_mode: true, ..s }, s.machine, next),
            Command::Emit(op) => match op_spec(s.machine, op) {
                OpOutcome::Done(m) => stepped_to(s, m, next),
                OpOutcome::Wrote(m, _) => stepped_to(s, m, next),
                OpOutcome::Blocked => (s, Ok(StepStatus::NeedInput)),
                OpOutcome::Failed(m, e) => (InterpreterState { machine: m, ..failed }, Err(e)),
            },
            Command::Store => match op_spec(s.machine, Operation::SetValue { pc_after: next }) {
                OpOutcome::Done(m) => stepped_to(s, m, next),
                OpOutcome::Wrote(m, _) => stepped_to(s, m, next),
                OpOutcome::Blocked => (s, Ok(StepStatus::NeedInput)),
                OpOutcome::Failed(m, e) => (InterpreterState { machine: m, ..failed }, Err(e)),
            },
            Command::BranchHorizontal => {
                let (v, rest) = pop(s.machine.stack);
                stepped_to(
                    s,
                    with_stack(s.machine, rest),
                    s.pc.turned(
                        if v == 0 {
                            Direction::Right
                        } else {
                            Direction::Left
                        },
                    ),
                )
            },
            Command::BranchVertical => {
                let (v, rest) = pop(s.machine.stack);
                stepped_to(
                    s,
                    with_stack(s.machine, rest),
                    s.pc.turned(
                        if v == 0 {
                            Direction::Down
                        } else {
                            Direction::Up
                        },
                    ),
                )
            },
            Command::End => (failed, Err(Error::ProgramEnd)),
            Command::Illegal => (failed, Err(Error::IllegalCommand(c))),
        }
    }
}

/// The Befunge-93 step interpreter and its running program.
pub struct Interpreter {
    machine: Machine,
    string_mode: bool,
    program_counter: PC,
    rng: SmallRng,
    steps: usize,
}

impl View for Interpreter {
    type V = InterpreterState;

    closed spec fn view(&self) -> InterpreterState {
        InterpreterState {
            machine: self.machine@,
            string_mode: self.string_mode,
            pc: self.program_counter,
            steps: self.steps,
        }
    }
}

impl Interpreter {
    /// Internal consistency: a well-formed machine and a valid program counter.
    pub closed spec fn wf(&self) -> bool {
        self.machine.wf() && self.program_counter.valid() && self.machine@.grid.len()
            == crate::grid::GRID_CELLS
    }

    /// Reads a program text into a playfield.
    ///
    /// Fails with `NonAscii` at the first non-ASCII character; else with
    /// `InvalidGridSize(width, height)`, the longest line's length and the
    /// number of lines, where there are more than 25 lines or a line is
    /// longer than 80 characters.
    pub fn parse_grid(text: &str) -> (r: Result<Grid, Error>)
        ensures
            (all_ascii(text@) && fits(text_lines(text@))) <==> r is Ok,
            r is Ok ==> r->Ok_0.wf() && r->Ok_0@ == grid_of_lines(text_lines(text@)),
            !all_ascii(text@) ==> r == Err::<Grid, Error>(
                Error::NonAscii(text@[first_non_ascii(text@)] as u32 as i64),
            ),
            all_ascii(text@) && !fits(text_lines(text@)) ==> r == Err::<Grid, Error>(
                Error::InvalidGridSize(max_width(text_lines(text@)) as usize, text_lines(text@).len() as usize),
            ),
            match parse_spec(text@) {
                Ok(g) => r is Ok && r->Ok_0@ == g && r->Ok_0.wf(),
                Err(e) => r == Err::<Grid, Error>(e),
            },
    {
        let lines = match split_lines(text) {
            Ok(lines) => lines,
            Err(e) => {
                proof {
                    let i = choose|i: int| first_non_ascii_at(text@, i) && e == Error::NonAscii(text@[i] as u32 as i64);
                    let j = first_non_ascii(text@);
                    assert(first_non_ascii_at(text@, j));
                    if i < j {
                        assert(is_ascii_char(text@[i]));
                    } else if j < i {
                        assert(is_ascii_char(text@[j]));
                    }
                }
                return Err(e);
            },
        };
        let ghost ls = text_lines(text@);
        assert forall|i: int| 0 <= i < ls.len() implies #[trigger] lines.deep_view()[i] == ls[i] by {
            assert(lines.deep_view()[i] =~= lines@[i]@);
        }
        assert(lines.deep_view() =~= ls);
        let mut width: usize = 0;
        let mut i: usize = 0;
        while i < lines.len()
            invariant
                i <= lines@.len() == ls.len(),
                lines.deep_view() == ls,
                width == max_width(ls.take(i as int)),
            decreases lines@.len() - i,
        {
            assert(ls.take(i + 1).drop_last() =~= ls.take(i as int));
            assert(lines.deep_view()[i as int] =~= lines@[i as int]@);
            if lines[i].len() > width {
                width = lines[i].len();
            }
            i = i + 1;
        }
        proof {
            assert(ls.take(ls.len() as int) =~= ls);
            lemma_max_width(ls);
        }
        if lines.len() > GRID_HEIGHT || width > GRID_WIDTH {
            return Err(Error::InvalidGridSize(width, lines.len()));
        }
        proof {
            lemma_split_ascii(text@);
            assert forall|y: int, x: int| 0 <= y < lines@.len() && 0 <= x < lines@[y]@.len()
                implies is_ascii_char(#[trigger] lines@[y]@[x]) by {
                assert(lines.deep_view()[y] =~= lines@[y]@);
                assert(ls[y][x] == lines@[y]@[x]);
            }
        }
        Ok(Grid::from_lines(&lines))
    }

    /// An interpreter for program text `grid` whose input comes later,
    /// through `feed_input`; `seed` seeds the random source of `?`.
    pub fn new(grid: &str, seed: u64) -> (r: Result<Interpreter, Error>)
        ensures
            match parse_spec(grid@) {
                Ok(g) => r is Ok && r->Ok_0.wf() && r->Ok_0@ == initial_interpreter(g, Seq::empty(), false),
                Err(e) => r is Err && r->Err_0 == e,
            },
    {
        Self::with_input(grid, InputBuffer::new(Vec::new(), false), seed)
    }

    /// An interpreter for program text `grid` whose whole input is `input`;
    /// `seed` seeds the random source of `?`.
    pub fn new_with_io(grid: &str, input: Vec<u8>, seed: u64) -> (r: Result<Interpreter, Error>)
        ensures
            match parse_spec(grid@) {
                Ok(g) => r is Ok && r->Ok_0.wf() && r->Ok_0@ == initial_interpreter(g, input@, true),
                Err(e) => r is Err && r->Err_0 == e,
            },
    {
        Self::with_input(grid, InputBuffer::new(input, true), seed)
    }

    fn with_input(grid: &str, input: InputBuffer, seed: u64) -> (r: Result<Interpreter, Error>)
        requires
            input.wf(),
        ensures
            match parse_spec(grid@) {
                Ok(g) => r is Ok && r->Ok_0.wf() && r->Ok_0@ == initial_interpreter(
                    g,
                    input.remaining(),
                    input.is_closed(),
                ),
                Err(e) => r is Err && r->Err_0 == e,
            },
    {
        let parsed = match Self::parse_grid(grid) {
            Ok(g) => g,
            Err(e) => {
                return Err(e);
            },
        };
        Ok(
            Interpreter {
                machine: Machine::new(parsed, input),
                string_mode: false,
                program_counter: PC::start(),
                rng: seeded_rng(seed),
                steps: 0,
            },
        )
    }

    /// Executes the cell under the program counter, with `choice` (below 4)
    /// as the direction that `?` takes.
    pub fn step_with(&mut self, choice: u32) -> (r: Result<StepStatus, Error>)
        requires
            old(self).wf(),
            choice < 4,
        ensures
            final(self).wf(),
            r is Ok ==> (final(self)@, r) == step_spec(old(self)@, choice as int),
            r is Err ==> r == step_spec(old(self)@, choice as int).1,
            r is Err ==> final(self)@ == step_spec(old(self)@, choice as int).0,
    {
        proof {
            reveal(step_spec);
        }
        let c = self.machine.grid().get(self.program_counter.position);
        let mut next = self.program_counter;
        next.advance();
        if self.string_mode {
            if c == 34 {
                self.string_mode = false;
            } else {
                self.machine.push(signed_byte_value(c));
            }
            self.program_counter = next;
            self.steps = self.steps.saturating_add(1);
            return Ok(StepStatus::Stepped);
        }
        let mut target = next;
        match decode(c) {
            Command::Turn(d) => {
                target = self.program_counter.turned_to(d);
            },
            Command::Random => {
                target = self.program_counter.turned_to(Direction::from_index(choice));
            },
            Command::Bridge => {
                target.advance();
            },
            Command::Nop => {},
            Command::Quote => {
                self.string_mode = true;
            },
            Command::Emit(op) => {
                match self.machine.apply(op) {
                    Ok(Applied::Blocked) => {
                        return Ok(StepStatus::NeedInput);
                    },
                    Ok(_) => {},
                    Err(e) => {
                        self.steps = self.steps.saturating_add(1);
                        return Err(e);
                    },
                }
            },
            Command::Store => {
                match self.machine.apply(Operation::SetValue { pc_after: next }) {
                    Ok(Applied::Blocked) => {
                        return Ok(StepStatus::NeedInput);
                    },
                    Ok(_) => {},
                    Err(e) => {
                        self.steps = self.steps.saturating_add(1);
                        return Err(e);
                    },
                }
            },
            Command::BranchHorizontal => {
                let v = self.machine.pop();
                target = self.program_counter.turned_to(
                    if v == 0 {
                        Direction::Right
                    } else {
                        Direction::Left
                    },
                );
            },
            Command::BranchVertical => {
                let v = self.machine.pop();
                target = self.program_counter.turned_to(
                    if v == 0 {
                        Direction::Down
                    } else {
                        Direction::Up
                    },
                );
            },
            Command::End => {
                self.steps = self.steps.saturating_add(1);
                return Err(Error::ProgramEnd);
            },
            Command::Illegal => {
                self.steps = self.steps.saturating_add(1);
                return Err(Error::IllegalCommand(c));
            },
        }
        self.program_counter = target;
        self.steps = self.steps.saturating_add(1);
        Ok(StepStatus::Stepped)
    }

    /// Executes the cell under the program counter; `?` takes a direction
    /// drawn from the random source.
    pub fn run_step(&mut self) -> (r: Result<StepStatus, Error>)
        requires
            old(self).wf(),
        ensures
            final(self).wf(),
            exists|choice: int| 0 <= choice < 4 && step_ensures(old(self)@, choice, r, final(self)@),
    {
        let c = self.machine.grid().get(self.program_counter.position);
        let choice = if !self.string_mode && c == 63 {
            random_index(&mut self.rng)
        } else {
            0
        };
        let r = self.step_with(choice);
        assert(step_ensures(old(self)@, choice as int, r, self@));
        r
    }

    /// Executes at most `max_steps` cells, with `?` taking a direction drawn
    /// from the random source. Returns `Ended` when the program reached `@`,
    /// `NeedInput` when it waits for input that was not given yet, and
    /// `Paused` when the budget ran out.
    ///
    /// Whatever the random source gave, the run is the one that
    /// `steps_spec` describes for the choices it made.
    pub fn run(&mut self, max_steps: usize) -> (r: Result<RunStatus, Error>)
        requires
            old(self).wf(),
        ensures
            final(self).wf(),
            exists|choices: Seq<int>|
                choices.len() <= max_steps && (forall|i: int| 0 <= i < choices.len() ==> 0 <= #[trigger] choices[i] < 4)
                    && ({
                    let (s, res) = steps_spec(old(self)@, choices);
                    match r {
                        Err(e) => res == Err::<Option<RunStatus>, Error>(e) && final(self)@ == s,
                        Ok(RunStatus::Paused) => choices.len() == max_steps && res == Ok::<Option<RunStatus>, Error>(None)
                            && final(self)@ == s,
                        Ok(st) => res == Ok::<Option<RunStatus>, Error>(Some(st)) && final(self)@ == s,
                    }
                }),
    {
        let ghost choices: Seq<int> = Seq::empty();
        let mut n: usize = 0;
        while n < max_steps
            invariant
                self.wf(),
                n <= max_steps,
                choices.len() == n,
                forall|i: int| 0 <= i < choices.len() ==> 0 <= #[trigger] choices[i] < 4,
                steps_spec(old(self)@, choices) == (self@, Ok::<Option<RunStatus>, Error>(None)),
            decreases max_steps - n,
        {
            let ghost before = self@;
            let r = self.run_step();
            let ghost c = choose|c: int| 0 <= c < 4 && step_ensures(before, c, r, self@);
            let ghost next = choices.push(c);
            assert(next.drop_last() =~= choices);
            proof {
                choices = next;
            }
            match r {
                Ok(StepStatus::Stepped) => {},
                Ok(StepStatus::NeedInput) => {
                    return Ok(RunStatus::NeedInput);
                },
                Err(Error::ProgramEnd) => {
                    return Ok(RunStatus::Ended);
                },
                Err(e) => {
                    return Err(e);
                },
            }
            n = n + 1;
        }
        Ok(RunStatus::Paused)
    }

    /// Adds bytes to the program's input.
    pub fn feed_input(&mut self, bytes: &[u8])
        requires
            old(self).wf(),
        ensures
            final(self).wf(),
            final(self)@ == (InterpreterState {
                machine: MachineView { input: old(self)@.machine.input + bytes@, ..old(self)@.machine },
                ..old(self)@
            }),
    {
        self.machine.feed_input(bytes);
    }

    /// Says that no more input will come.
    pub fn close_input(&mut self)
        requires
            old(self).wf(),
        ensures
            final(self).wf(),
            final(self)@ == (InterpreterState { machine: MachineView { closed: true, ..old(self)@.machine }, ..old(self)@ }),
    {
        self.machine.close_input();
    }

    /// Hands out the output written so far and forgets it.
    pub fn take_output(&mut self) -> (r: Vec<u8>)
        requires
            old(self).wf(),
        ensures
            final(self).wf(),
            r@ == old(self)@.machine.output,
            final(self)@ == (InterpreterState {
                machine: MachineView { output: Seq::empty(), ..old(self)@.machine },
                ..old(self)@
            }),
    {
        self.machine.take_output()
    }

    /// Number of cells executed so far.
    pub fn steps(&self) -> (r: usize)
        ensures
            r == self@.steps,
    {
        self.steps
    }

    /// Position of the program counter.
    pub fn position(&self) -> (r: Position)
        ensures
            r == self@.pc.position,
    {
        self.program_counter.position
    }
}

/// The state of a new interpreter: playfield `g`, input `input` (`closed`
/// when nothing follows it), at the start, outside string mode.
pub open spec fn initial_interpreter(g: Seq<u8>, input: Seq<u8>, closed: bool) -> InterpreterState {
    InterpreterState {
        machine: MachineView { grid: g, stack: Seq::empty(), input, closed, output: Seq::empty() },
        string_mode: false,
        pc: crate::pc::start_pc(),
        steps: 0,
    }
}

/// Whether a step with direction `choice` for `?` from `s` explains result
/// `r` and state `after`.
pub open spec fn step_ensures(s: InterpreterState, choice: int, r: Result<StepStatus, Error>, after: InterpreterState) -> bool {
    (after, r) == step_spec(s, choice)
}

/// The interpreter run from `s` with the directions `choices`, one per
/// step, stopping at the first step that ends the run (`None`: it goes on).
pub open spec fn steps_spec(s: InterpreterState, choices: Seq<int>) -> (InterpreterState, Result<Option<RunStatus>, Error>)
    decreases choices.len(),
{
    if choices.len() == 0 {
        (s, Ok(None))
    } else {
        let (prev, res) = steps_spec(s, choices.drop_last());
        if res == Ok::<Option<RunStatus>, Error>(None) {
            let (next, r) = step_spec(prev, choices.last());
            match r {
                Ok(StepStatus::Stepped) => (next, Ok(None)),
                Ok(StepStatus::NeedInput) => (next, Ok(Some(RunStatus::NeedInput))),
                Err(Error::ProgramEnd) => (next, Ok(Some(RunStatus::Ended))),
                Err(e) => (next, Err(e)),
            }
        } else {
            (prev, res)
        }
    }
}

/// The interpreter after a step that ran, moved to `pc`, in string mode
/// `string_mode`, with machine `m`.
pub open spec fn moved_to(s: InterpreterState, m: MachineView, pc: PC, string_mode: bool) -> InterpreterState {
    InterpreterState { machine: m, pc, string_mode, steps: counted(s.steps) }
}

/// Tracing a cell compiles exactly what the step interpreter does on it.
///
/// Where the trace moves on, the interpreter moves to the same program
/// counter and string mode, and its machine changes as the emitted
/// operation, if any, says. Where the trace stops, the interpreter on the
/// cell follows the same decision: a branch pops its condition, `?` takes
/// the chosen neighbour, `@` ends the program, a byte that is no command
/// fails alike; the size limit stops the trace before the cell runs.
pub proof fn lemma_trace_matches_step(g: Seq<u8>, st: TraceState, s: InterpreterState, choice: int)
    requires
        g.len() == crate::grid::GRID_CELLS,
        s.machine.grid.len() == crate::grid::GRID_CELLS,
        trace_state_ok(st),
        s.pc == st.pc,
        s.string_mode == st.string_mode,
        s.machine.grid[st.pc.position.cell()] == g[st.pc.position.cell()],
        0 <= choice < 4,
    ensures
        ({
            let (s2, r) = step_spec(s, choice);
            match trace_step(g, st) {
                TraceStep::Continue(next) => if next.ops.len() == st.ops.len() {
                    r == Ok::<StepStatus, Error>(StepStatus::Stepped) && s2 == moved_to(s, s.machine, next.pc, next.string_mode)
                } else {
                    next.ops == st.ops.push(next.ops.last()) && match op_spec(s.machine, next.ops.last()) {
                        OpOutcome::Done(m) => r == Ok::<StepStatus, Error>(StepStatus::Stepped) && s2 == moved_to(
                            s,
                            m,
                            next.pc,
                            next.string_mode,
                        ),
                        OpOutcome::Wrote(m, _) => r == Ok::<StepStatus, Error>(StepStatus::Stepped) && s2 == moved_to(
                            s,
                            m,
                            next.pc,
                            next.string_mode,
                        ),
                        OpOutcome::Blocked => r == Ok::<StepStatus, Error>(StepStatus::NeedInput) && s2 == s,
                        OpOutcome::Failed(m, e) => r == Err::<StepStatus, Error>(e) && s2 == InterpreterState {
                            machine: m,
                            steps: counted(s.steps),
                            ..s
                        },
                    }
                },
                TraceStep::Stop(Ok((ops, term, _))) => ops == st.ops && match term {
                    ControlFlowDecision::Jump(p) => p == st.pc && !st.string_mode,
                    ControlFlowDecision::EndProgram => r == Err::<StepStatus, Error>(Error::ProgramEnd) && s2.machine
                        == s.machine,
                    ControlFlowDecision::Branch { .. } => r == Ok::<StepStatus, Error>(StepStatus::Stepped) && s2
                        == moved_to(
                        s,
                        with_stack(s.machine, pop(s.machine.stack).1),
                        target_spec(term, pop(s.machine.stack).0, choice, s.pc),
                        false,
                    ),
                    ControlFlowDecision::Random { .. } => r == Ok::<StepStatus, Error>(StepStatus::Stepped) && s2
                        == moved_to(s, s.machine, target_spec(term, 0, choice, s.pc), false),
                },
                TraceStep::Stop(Err(e)) => r == Err::<StepStatus, Error>(e),
            }
        }),
{
    reveal(step_spec);
}

/// Number of values the step from `s` pops.
pub open spec fn cell_pops(s: InterpreterState) -> nat {
    if s.string_mode {
        0
    } else {
        match command_of(s.machine.grid[s.pc.position.cell()]) {
            Command::Emit(op) => crate::machine::pops(op),
            Command::Store => 3,
            Command::BranchHorizontal | Command::BranchVertical => 1,
            _ => 0,
        }
    }
}

/// An empty stack behaves as if it held zeros: a step on an empty stack
/// reports what the same step reports on a stack of three zeros, and
/// leaves the same state but for the zeros it did not pop.
pub proof fn lemma_step_pop_empty(s: InterpreterState, choice: int)
    requires
        s.machine.stack.len() == 0,
        s.pc.valid(),
        s.machine.grid.len() == crate::grid::GRID_CELLS,
    ensures
        ({
            let z = InterpreterState { machine: with_stack(s.machine, seq![0i64, 0i64, 0i64]), ..s };
            let (a, ra) = step_spec(s, choice);
            let (b, rb) = step_spec(z, choice);
            &&& ra == rb
            &&& a == InterpreterState {
                machine: with_stack(b.machine, b.machine.stack.skip(3 - cell_pops(s))),
                ..b
            }
        }),
{
    reveal(step_spec);
    let z = InterpreterState { machine: with_stack(s.machine, seq![0i64, 0i64, 0i64]), ..s };
    let zs = seq![0i64, 0i64, 0i64];
    assert(zs.drop_last() =~= seq![0i64, 0i64]);
    assert(zs.skip(3) =~= Seq::<i64>::empty());
    assert(seq![0i64, 0i64].skip(2) =~= Seq::<i64>::empty());
    let c = s.machine.grid[s.pc.position.cell()];
    let (a, ra) = step_spec(s, choice);
    let (b, rb) = step_spec(z, choice);
    if s.string_mode {
        if c != 34 {
            assert(zs.push(signed_byte(c)).skip(3) =~= Seq::<i64>::empty().push(signed_byte(c)));
        }
    } else {
        match command_of(c) {
            Command::Emit(op) => {
                crate::machine::lemma_pop_empty(s.machine, op);
            },
            Command::Store => {
                crate::machine::lemma_pop_empty(s.machine, Operation::SetValue { pc_after: s.pc.stepped() });
            },
            _ => {},
        }
    }
    assert(a.machine.stack =~= b.machine.stack.skip(3 - cell_pops(s)));
}

} // verus!
