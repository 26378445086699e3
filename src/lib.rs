//! A Befunge-93 engine: a playfield grid, a step interpreter, and a
//! just-in-time compiler that compiles the two-dimensional program into
//! cached basic blocks of linear byte code.
//!
//! Programs talk to the outside through byte buffers: input is handed in
//! with `feed_input` (or whole, at construction), output is taken with
//! `take_output`, and the run loops return when they wait for input.
//!
//! Besides the contracts of the functions, these laws are proved:
//! - `simulation::lemma_block_simulation`: one dispatch of the compiler
//!   does what the step interpreter does;
//! - `jit::lemma_cache_hit`: the cache serves the block that compiling the
//!   current playfield gives, and compiles only on a miss;
//! - `jit::lemma_self_invalidation` and `jit::lemma_still_cached`: a store
//!   over the running block's entry cell stops the block right after it;
//! - `machine::lemma_pop_empty`, `interpreter::lemma_step_pop_empty` and
//!   `jit::lemma_block_pop_empty`: an empty stack acts as a stack of zeros;
//! - `ops::lemma_division_results`, `grid::lemma_parse_round_trip` and
//!   `pc::lemma_toroidal_wrap`.

pub mod block;
pub mod command;
pub mod error;
pub mod grid;
pub mod interpreter;
pub mod io;
pub mod jit;
pub mod machine;
pub mod ops;
pub mod pc;
pub mod random;
pub mod simulation;

pub use crate::error::{Error, IoErrorKind};
pub use crate::interpreter::{Interpreter, StepStatus};
pub use crate::io::{push_decimal, scan_next, InputBuffer};
pub use crate::jit::{BlockExit, JustInTimeCompiler, RunStatus};
pub use crate::ops::{BinaryOperation, ControlFlowDecision, IOMode, Operation};
pub use crate::pc::{Direction, Position, PC};
