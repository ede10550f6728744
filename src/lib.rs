//! A compiler and interpreter for the eight-command tape-machine language.
//!
//! Source bytes are folded into an instruction stream (`fold`), which either
//! runs on the interpreter (`Machine`) or is lowered to the operations of a
//! native function (`lower`, `compile_plan`).

pub mod balance;
pub mod brackets;
pub mod fold;
pub mod idioms;
pub mod lower;
pub mod machine;
pub mod refold;
pub mod tape;

pub use brackets::match_brackets;
pub use fold::{fold, Instruction, RunError};
pub use lower::{compile_plan, lower, plan_wrap, IrOp, Wrap};
pub use machine::{interpret, Action, Machine};
pub use tape::{add_wrapping, wrap_position, TAPE_LEN};
