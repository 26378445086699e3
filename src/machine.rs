//! The state that Befunge commands act on, and the effect of each byte code
//! operation on it.

use vstd::prelude::*;
use crate::error::Error;
use crate::grid::{cell_value, in_bounds, stored, Grid};
use crate::io::{decimal_text, push_decimal, scan_next, scan_spec, InputBuffer, ReadByte};
use crate::ops::{binary_result, IOMode, Operation};
use crate::pc::Position;

verus! {

/// The state of a running program, as values.
pub struct MachineView {
    pub grid: Seq<u8>,
    pub stack: Seq<i64>,
    pub input: Seq<u8>,
    pub closed: bool,
    pub output: Seq<u8>,
}

/// The top of a stack and the rest; an empty stack yields 0 and stays empty.
pub open spec fn pop(s: Seq<i64>) -> (i64, Seq<i64>) {
    if s.len() == 0 {
        (0, s)
    } else {
        (s.last(), s.drop_last())
    }
}

/// What an operation does to a machine.
pub enum OpOutcome {
    /// The operation ran; the machine is now as given.
    Done(MachineView),
    /// The operation stored to the given in-grid cell; the machine is now as given.
    Wrote(MachineView, Position),
    /// The operation needs input that was not given yet; nothing changed.
    Blocked,
    /// The operation failed, leaving the machine as given.
    Failed(MachineView, Error),
}

/// The machine with another stack.
pub open spec fn with_stack(m: MachineView, s: Seq<i64>) -> MachineView {
    MachineView { stack: s, ..m }
}

/// The effect of one operation, as the byte code table defines it.
pub open spec fn op_spec(m: MachineView, op: Operation) -> OpOutcome {
    let (t, s1) = pop(m.stack);
    let (u, s2) = pop(s1);
    match op {
        Operation::PushConstant(v) => OpOutcome::Done(with_stack(m, m.stack.push(v))),
        Operation::Duplicate => OpOutcome::Done(with_stack(m, s1.push(t).push(t))),
        Operation::Swap => OpOutcome::Done(with_stack(m, s2.push(t).push(u))),
        Operation::Drop => OpOutcome::Done(with_stack(m, s1)),
        Operation::Binary(b) => OpOutcome::Done(with_stack(m, s2.push(binary_result(b, u, t)))),
        Operation::Negate => OpOutcome::Done(
            with_stack(
                m,
                s1.push(
                    if t == 0 {
                        1
                    } else {
                        0
                    },
                ),
            ),
        ),
        Operation::Input(IOMode::Ascii) => if m.input.len() > 0 {
            OpOutcome::Done(
                MachineView { stack: m.stack.push(m.input[0] as i64), input: m.input.drop_first(), ..m },
            )
        } else if m.closed {
            OpOutcome::Done(with_stack(m, m.stack.push(-1i64)))
        } else {
            OpOutcome::Blocked
        },
        Operation::Input(IOMode::Decimal) => match scan_spec(m.input, m.closed) {
            None => OpOutcome::Blocked,
            Some((Some(n), used)) => OpOutcome::Done(
                MachineView { stack: m.stack.push(n), input: m.input.skip(used), ..m },
            ),
            Some((None, used)) => OpOutcome::Failed(
                MachineView { input: m.input.skip(used), ..m },
                Error::Io(crate::error::IoErrorKind::InvalidData),
            ),
        },
        Operation::Output(IOMode::Ascii) => if 0 <= t < 128 {
            OpOutcome::Done(MachineView { stack: s1, output: m.output.push(t as u8), ..m })
        } else {
            OpOutcome::Failed(with_stack(m, s1), Error::NonAscii(t))
        },
        Operation::Output(IOMode::Decimal) => OpOutcome::Done(
            MachineView { stack: s1, output: m.output + decimal_text(t as int) + seq![32u8], ..m },
        ),
        Operation::GetValue => OpOutcome::Done(
            with_stack(m, s2.push(cell_value(m.grid, u as int, t as int))),
        ),
        Operation::SetValue { .. } => {
            let (v, s3) = pop(s2);
            let next = MachineView { stack: s3, grid: stored(m.grid, u as int, t as int, v as int), ..m };
            if in_bounds(u as int, t as int) {
                OpOutcome::Wrote(next, Position { x: u, y: t })
            } else {
                OpOutcome::Done(next)
            }
        },
    }
}

/// What applying an operation reports.
#[derive(Clone, Copy, Debug, PartialEq, Eq, Structural)]
pub enum Applied {
    /// The operation ran.
    Done,
    /// The operation stored to this in-grid cell.
    Wrote(Position),
    /// The operation waits for input; nothing changed.
    Blocked,
}

/// Playfield, stack and byte streams of a running program.
pub struct Machine {
    pub(crate) grid: Grid,
    pub(crate) stack: Vec<i64>,
    pub(crate) input: InputBuffer,
    pub(crate) output: Vec<u8>,
}

impl View for Machine {
    type V = MachineView;

    closed spec fn view(&self) -> MachineView {
        MachineView {
            grid: self.grid@,
            stack: self.stack@,
            input: self.input.remaining(),
            closed: self.input.is_closed(),
            output: self.output@,
        }
    }
}

impl Machine {
    /// Internal consistency of the parts.
    pub closed spec fn wf(&self) -> bool {
        self.grid.wf() && self.input.wf()
    }

    /// A machine on playfield `grid`, with an empty stack and output.
    pub fn new(grid: Grid, input: InputBuffer) -> (r: Machine)
        requires
            grid.wf(),
            input.wf(),
        ensures
            r.wf(),
            r@ == (MachineView {
                grid: grid@,
                stack: Seq::empty(),
                input: input.remaining(),
                closed: input.is_closed(),
                output: Seq::empty(),
            }),
    {
        Machine { grid, stack: Vec::new(), input, output: Vec::new() }
    }

    /// The playfield.
    pub fn grid(&self) -> (r: &Grid)
        requires
            self.wf(),
        ensures
            r@ == self@.grid,
            r.wf(),
    {
        &self.grid
    }

    /// Removes and returns the top of the stack, 0 when it is empty.
    pub fn pop(&mut self) -> (r: i64)
        ensures
            (r, final(self)@.stack) == pop(old(self)@.stack),
            final(self)@ == with_stack(old(self)@, final(self)@.stack),
            final(self).wf() == old(self).wf(),
    {
        match self.stack.pop() {
            Some(v) => v,
            None => 0,
        }
    }

    /// Pushes a value.
    pub fn push(&mut self, v: i64)
        ensures
            final(self)@ == with_stack(old(self)@, old(self)@.stack.push(v)),
            final(self).wf() == old(self).wf(),
    {
        self.stack.push(v);
    }

    /// Adds bytes to the input.
    pub fn feed_input(&mut self, bytes: &[u8])
        requires
            old(self).wf(),
        ensures
            final(self).wf(),
            final(self)@ == (MachineView { input: old(self)@.input + bytes@, ..old(self)@ }),
    {
        self.input.feed(bytes);
    }

    /// Says that no more input will come.
    pub fn close_input(&mut self)
        requires
            old(self).wf(),
        ensures
            final(self).wf(),
            final(self)@ == (MachineView { closed: true, ..old(self)@ }),
    {
        self.input.close();
    }

    /// Hands out the output written so far and forgets it.
    pub fn take_output(&mut self) -> (r: Vec<u8>)
        ensures
            r@ == old(self)@.output,
            final(self)@ == (MachineView { output: Seq::empty(), ..old(self)@ }),
            final(self).wf() == old(self).wf(),
    {
        let mut r: Vec<u8> = Vec::new();
        std::mem::swap(&mut r, &mut self.output);
        r
    }

    /// Runs one operation.
    pub fn apply(&mut self, op: Operation) -> (r: Result<Applied, Error>)
        requires
            old(self).wf(),
        ensures
            final(self).wf(),
            final(self)@.grid.len() == old(self)@.grid.len(),
            r is Err ==> final(self)@.grid == old(self)@.grid,
            match op_spec(old(self)@, op) {
                OpOutcome::Done(m) => r == Ok::<Applied, Error>(Applied::Done) && final(self)@ == m,
                OpOutcome::Wrote(m, p) => r == Ok::<Applied, Error>(Applied::Wrote(p)) && final(self)@ == m,
                OpOutcome::Blocked => r == Ok::<Applied, Error>(Applied::Blocked) && final(self)@ == old(self)@,
                OpOutcome::Failed(m, e) => r == Err::<Applied, Error>(e) && final(self)@ == m,
            },
    {
        match op {
            Operation::PushConstant(v) => {
                self.push(v);
                Ok(Applied::Done)
            },
            Operation::Duplicate => {
                let t = self.pop();
                self.push(t);
                self.push(t);
                Ok(Applied::Done)
            },
            Operation::Swap => {
                let t = self.pop();
                let u = self.pop();
                self.push(t);
                self.push(u);
                Ok(Applied::Done)
            },
            Operation::Drop => {
                self.pop();
                Ok(Applied::Done)
            },
            Operation::Binary(b) => {
                let t = self.pop();
                let u = self.pop();
                self.push(b.call(u, t));
                Ok(Applied::Done)
            },
            Operation::Negate => {
                let t = self.pop();
                self.push(
                    if t == 0 {
                        1
                    } else {
                        0
                    },
                );
                Ok(Applied::Done)
            },
            Operation::Input(IOMode::Ascii) => {
                match self.input.read_byte() {
                    ReadByte::Byte(b) => {
                        self.stack.push(b as i64);
                        assert(self@.stack =~= old(self)@.stack.push(old(self)@.input[0] as i64));
                        Ok(Applied::Done)
                    },
                    ReadByte::EndOfStream => {
                        self.stack.push(-1);
                        Ok(Applied::Done)
                    },
                    ReadByte::Pending => Ok(Applied::Blocked),
                }
            },
            Operation::Input(IOMode::Decimal) => {
                match scan_next(&mut self.input) {
                    Ok(Some(n)) => {
                        self.stack.push(n);
                        Ok(Applied::Done)
                    },
                    Ok(None) => Ok(Applied::Blocked),
                    Err(e) => Err(e),
                }
            },
            Operation::Output(IOMode::Ascii) => {
                let t = self.pop();
                if 0 <= t && t < 128 {
                    self.output.push(t as u8);
                    Ok(Applied::Done)
                } else {
                    Err(Error::NonAscii(t))
                }
            },
            Operation::Output(IOMode::Decimal) => {
                let t = self.pop();
                let ghost before = self.output@;
                push_decimal(&mut self.output, t);
                self.output.push(32);
                assert(self.output@ =~= before + decimal_text(t as int) + seq![32u8]);
                Ok(Applied::Done)
            },
            Operation::GetValue => {
                let t = self.pop();
                let u = self.pop();
                let v = self.grid.read(u, t);
                self.push(v);
                Ok(Applied::Done)
            },
            Operation::SetValue { .. } => {
                let t = self.pop();
                let u = self.pop();
                let v = self.pop();
                self.grid.write(u, t, v);
                if 0 <= u && u < 80 && 0 <= t && t < 25 {
                    Ok(Applied::Wrote(Position { x: u, y: t }))
                } else {
                    Ok(Applied::Done)
                }
            },
        }
    }
}

/// Number of values an operation pops.
pub open spec fn pops(op: Operation) -> nat {
    match op {
        Operation::PushConstant(_) | Operation::Input(_) => 0,
        Operation::Duplicate | Operation::Drop | Operation::Negate | Operation::Output(_) => 1,
        Operation::Swap | Operation::Binary(_) | Operation::GetValue => 2,
        Operation::SetValue { .. } => 3,
    }
}

/// An empty stack behaves as if it held zeros: on an empty stack every
/// operation does what it does on a stack of three zeros, but for the zeros
/// it did not pop. In particular no operation fails for want of values.
pub proof fn lemma_pop_empty(m: MachineView, op: Operation)
    requires
        m.stack.len() == 0,
    ensures
        ({
            let z = with_stack(m, seq![0i64, 0i64, 0i64]);
            let unpopped = 3 - pops(op);
            match (op_spec(m, op), op_spec(z, op)) {
                (OpOutcome::Done(a), OpOutcome::Done(b)) => a == with_stack(b, b.stack.skip(unpopped)),
                (OpOutcome::Wrote(a, p), OpOutcome::Wrote(b, q)) => p == q && a == with_stack(
                    b,
                    b.stack.skip(unpopped),
                ),
                (OpOutcome::Blocked, OpOutcome::Blocked) => true,
                (OpOutcome::Failed(a, e), OpOutcome::Failed(b, f)) => e == f && a == with_stack(
                    b,
                    b.stack.skip(unpopped),
                ),
                _ => false,
            }
        }),
{
    let z = with_stack(m, seq![0i64, 0i64, 0i64]);
    let s = seq![0i64, 0i64, 0i64];
    assert(s.drop_last() =~= seq![0i64, 0i64]);
    assert(s.drop_last().drop_last() =~= seq![0i64]);
    assert(s.drop_last().drop_last().drop_last() =~= Seq::<i64>::empty());
    match (op_spec(m, op), op_spec(z, op)) {
        (OpOutcome::Done(a), OpOutcome::Done(b)) => {
            assert(a.stack =~= b.stack.skip(3 - pops(op)));
        },
        (OpOutcome::Wrote(a, p), OpOutcome::Wrote(b, q)) => {
            assert(a.stack =~= b.stack.skip(3 - pops(op)));
        },
        (OpOutcome::Failed(a, e), OpOutcome::Failed(b, f)) => {
            assert(a.stack =~= b.stack.skip(3 - pops(op)));
        },
        _ => {},
    }
}

/// `k` zeros.
pub open spec fn zeros(k: nat) -> Seq<i64> {
    Seq::new(k, |i: int| 0i64)
}

/// The machine with `k` zeros below its stack.
pub open spec fn padded(m: MachineView, k: nat) -> MachineView {
    with_stack(m, zeros(k) + m.stack)
}

/// Whether `op` on `m` with `k` zeros below the stack ends as on the bare
/// machine, with `k2` zeros left below.
pub open spec fn padded_outcome(m: MachineView, op: Operation, k: nat, k2: nat) -> bool {
    match (op_spec(m, op), op_spec(padded(m, k), op)) {
        (OpOutcome::Done(a), OpOutcome::Done(b)) => b == padded(a, k2),
        (OpOutcome::Wrote(a, p), OpOutcome::Wrote(b, q)) => p == q && b == padded(a, k2),
        (OpOutcome::Blocked, OpOutcome::Blocked) => true,
        (OpOutcome::Failed(a, e), OpOutcome::Failed(b, f)) => e == f && b == padded(a, k2),
        _ => false,
    }
}

proof fn lemma_pop_padded(s: Seq<i64>, k: nat)
    requires
        k >= 1,
    ensures
        pop(zeros(k) + s).0 == pop(s).0,
        pop(zeros(k) + s).1 == zeros(if s.len() > 0 { k } else { (k - 1) as nat }) + pop(s).1,
{
    let t = zeros(k) + s;
    if s.len() > 0 {
        assert(t.drop_last() =~= zeros(k) + s.drop_last());
    } else {
        assert(t.drop_last() =~= zeros((k - 1) as nat) + s);
        assert(zeros((k - 1) as nat) + s =~= zeros((k - 1) as nat) + pop(s).1);
    }
}

/// Zeros below the stack change nothing but the zeros: an operation on a
/// machine with at least three zeros below its stack does what it does on
/// the bare machine, and leaves at most three of those zeros popped.
pub proof fn lemma_op_padded(m: MachineView, op: Operation, k: nat)
    requires
        k >= 3,
    ensures
        exists|k2: nat| k2 + 3 >= k && #[trigger] padded_outcome(m, op, k, k2),
{
    let s0 = m.stack;
    lemma_pop_padded(s0, k);
    let k1: nat = if s0.len() > 0 { k } else { (k - 1) as nat };
    let s1 = pop(s0).1;
    lemma_pop_padded(s1, k1);
    let k2: nat = if s1.len() > 0 { k1 } else { (k1 - 1) as nat };
    let s2 = pop(s1).1;
    lemma_pop_padded(s2, k2);
    let k3: nat = if s2.len() > 0 { k2 } else { (k2 - 1) as nat };
    let s3 = pop(s2).1;
    let n = pops(op);
    let kk: nat = if n == 0 { k } else if n == 1 { k1 } else if n == 2 { k2 } else { k3 };
    assert(kk + 3 >= k);
    match (op_spec(m, op), op_spec(padded(m, k), op)) {
        (OpOutcome::Done(a), OpOutcome::Done(b)) => {
            assert(b.stack =~= zeros(kk) + a.stack);
            assert(b == padded(a, kk));
        },
        (OpOutcome::Wrote(a, p), OpOutcome::Wrote(b, q)) => {
            assert(b.stack =~= zeros(kk) + a.stack);
            assert(b == padded(a, kk));
        },
        (OpOutcome::Failed(a, e), OpOutcome::Failed(b, f)) => {
            assert(b.stack =~= zeros(kk) + a.stack);
            assert(b == padded(a, kk));
        },
        _ => {},
    }
    assert(padded_outcome(m, op, k, kk));
}

} // verus!
