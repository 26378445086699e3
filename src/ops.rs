//! Byte code of the compiled blocks and the arithmetic of the machine word.

use vstd::prelude::*;
use crate::pc::PC;

verus! {

/// Number of distinct machine words.
pub open spec fn word_range() -> int {
    0x1_0000_0000_0000_0000
}

/// Absolute value.
pub open spec fn abs(v: int) -> int {
    if v < 0 {
        -v
    } else {
        v
    }
}

/// The machine word congruent to `v` modulo 2^64 (two's complement wrap).
pub open spec fn wrap_word(v: int) -> i64 {
    let m = v % word_range();
    if m > i64::MAX {
        (m - word_range()) as i64
    } else {
        m as i64
    }
}

/// Quotient of `a` by `b` rounded toward zero, `b` non-zero.
pub open spec fn trunc_div(a: int, b: int) -> int {
    if (a >= 0) == (b > 0) || a == 0 {
        abs(a) / abs(b)
    } else {
        -(abs(a) / abs(b))
    }
}

/// Remainder of `a` by `b` with the sign of `a`, `b` non-zero.
pub open spec fn trunc_rem(a: int, b: int) -> int {
    if a >= 0 {
        abs(a) % abs(b)
    } else {
        -(abs(a) % abs(b))
    }
}

/// Operations that map two stack values to one new value.
#[derive(Clone, Copy, Debug, PartialEq, Eq, Structural)]
pub enum BinaryOperation {
    Add,
    Subtract,
    Divide,
    Multiply,
    Remainder,
    Greater,
}

/// Result of a binary operation on `a` (second of the stack) and `b` (top).
/// Arithmetic wraps around the machine word; division and remainder by zero
/// give zero.
pub open spec fn binary_result(op: BinaryOperation, a: i64, b: i64) -> i64 {
    match op {
        BinaryOperation::Add => wrap_word(a + b),
        BinaryOperation::Subtract => wrap_word(a - b),
        BinaryOperation::Multiply => wrap_word(a * b),
        BinaryOperation::Divide => if b == 0 {
            0
        } else {
            wrap_word(trunc_div(a as int, b as int))
        },
        BinaryOperation::Remainder => if b == 0 {
            0
        } else {
            wrap_word(trunc_rem(a as int, b as int))
        },
        BinaryOperation::Greater => if a > b {
            1
        } else {
            0
        },
    }
}

proof fn lemma_wrap_in_range(v: int)
    requires
        i64::MIN <= v <= i64::MAX,
    ensures
        wrap_word(v) == v,
{
}

proof fn lemma_wrap_shift(v: int, k: int)
    requires
        -2 <= k <= 2,
    ensures
        wrap_word(v + k * word_range()) == wrap_word(v),
{
    assert((v + k * word_range()) % word_range() == v % word_range()) by {
        vstd::arithmetic::div_mod::lemma_mod_multiples_vanish(k, v, word_range());
    }
}

/// Division and remainder by a non-zero divisor give the quotient rounded
/// toward zero and the remainder with the sign of the dividend; only the
/// quotient of the smallest word by -1 wraps, back to the smallest word.
pub proof fn lemma_division_results(a: i64, b: i64)
    requires
        b != 0,
    ensures
        !(a == i64::MIN && b == -1) ==> binary_result(BinaryOperation::Divide, a, b) == trunc_div(a as int, b as int),
        a == i64::MIN && b == -1 ==> binary_result(BinaryOperation::Divide, a, b) == i64::MIN,
        binary_result(BinaryOperation::Remainder, a, b) == trunc_rem(a as int, b as int),
{
    let q = abs(a as int) / abs(b as int);
    assert(0 <= q <= abs(a as int)) by (nonlinear_arith)
        requires
            q == abs(a as int) / abs(b as int),
            abs(b as int) >= 1,
            abs(a as int) >= 0,
    ;
    assert(abs(a as int) == abs(b as int) * q + abs(a as int) % abs(b as int)) by (nonlinear_arith)
        requires
            q == abs(a as int) / abs(b as int),
            abs(b as int) >= 1,
    ;
    if a == i64::MIN && b == -1 {
        lemma_wrap_shift(trunc_div(a as int, b as int) - word_range(), 1);
    } else {
        if abs(b as int) >= 2 {
            assert(q <= abs(a as int) / 2) by (nonlinear_arith)
                requires
                    q == abs(a as int) / abs(b as int),
                    abs(b as int) >= 2,
                    abs(a as int) >= 0,
            ;
        }
        lemma_wrap_in_range(trunc_div(a as int, b as int));
    }
    let m = abs(a as int) % abs(b as int);
    assert(0 <= m < abs(b as int));
    lemma_wrap_in_range(trunc_rem(a as int, b as int));
}

impl BinaryOperation {
    /// Applies the operation to `a`, the second value of the stack, and
    /// `b`, its top.
    pub fn call(self, a: i64, b: i64) -> (r: i64)
        ensures
            r == binary_result(self, a, b),
    {
        match self {
            BinaryOperation::Add => {
                proof {
                    if a + b > i64::MAX {
                        lemma_wrap_shift(a + b - word_range(), 1);
                        lemma_wrap_in_range(a + b - word_range());
                    } else if a + b < i64::MIN {
                        lemma_wrap_shift(a + b + word_range(), -1);
                        lemma_wrap_in_range(a + b + word_range());
                    } else {
                        lemma_wrap_in_range(a + b);
                    }
                }
                let r = a.wrapping_add(b);
                assert(r == binary_result(self, a, b));
                r
            },
            BinaryOperation::Subtract => {
                proof {
                    if a - b > i64::MAX {
                        lemma_wrap_shift(a - b - word_range(), 1);
                        lemma_wrap_in_range(a - b - word_range());
                    } else if a - b < i64::MIN {
                        lemma_wrap_shift(a - b + word_range(), -1);
                        lemma_wrap_in_range(a - b + word_range());
                    } else {
                        lemma_wrap_in_range(a - b);
                    }
                }
                let r = a.wrapping_sub(b);
                assert(r == binary_result(self, a, b));
                r
            },
            BinaryOperation::Multiply => a.wrapping_mul(b),
            BinaryOperation::Divide => {
                if b == 0 {
                    0
                } else {
                    match a.checked_div(b) {
                        Some(q) => {
                            assert(q == binary_result(self, a, b));
                            q
                        },
                        None => {
                            proof {
                                lemma_wrap_shift(trunc_div(a as int, b as int) - word_range(), 1);
                            }
                            a
                        },
                    }
                }
            },
            BinaryOperation::Remainder => {
                if b == 0 {
                    0
                } else {
                    match a.checked_rem(b) {
                        Some(m) => {
                            assert(m == binary_result(self, a, b));
                            m
                        },
                        None => 0,
                    }
                }
            },
            BinaryOperation::Greater => if a > b {
                1
            } else {
                0
            },
        }
    }
}

/// The kind of an input or output operation.
#[derive(Clone, Copy, Debug, PartialEq, Eq, Structural)]
pub enum IOMode {
    /// Single bytes.
    Ascii,
    /// Decimal numbers, separated by whitespace.
    Decimal,
}

/// Byte code operations of a compiled block.
#[derive(Clone, Copy, Debug, PartialEq, Eq, Structural)]
pub enum Operation {
    /// Push a constant.
    PushConstant(i64),
    /// Duplicate the top of the stack.
    Duplicate,
    /// Swap the two top values.
    Swap,
    /// Drop the top of the stack.
    Drop,
    /// Replace the two top values by the result of an operation on them.
    Binary(BinaryOperation),
    /// Logical not of the top value.
    Negate,
    /// Read a value.
    Input(IOMode),
    /// Write the top value.
    Output(IOMode),
    /// Read a playfield cell.
    GetValue,
    /// Write a playfield cell; `pc_after` is where execution resumes if the
    /// write invalidates the running block.
    SetValue { pc_after: PC },
}

/// The control-flow decision that ends a block.
#[derive(Clone, Copy, Debug, PartialEq, Eq, Structural)]
pub enum ControlFlowDecision {
    /// Continue at the given program counter.
    Jump(PC),
    /// Pop a value: continue at `true_target` if it is non-zero, else at
    /// `false_target`.
    Branch { true_target: PC, false_target: PC },
    /// End the program.
    EndProgram,
    /// Continue at one of four program counters, chosen at random: the
    /// neighbours of the `?` cell above, below, left and right of it, each
    /// moving away from it.
    Random { up: PC, down: PC, left: PC, right: PC },
}

} // verus!
