//! An interpreter for a minimal tape-machine language with eight instructions, in two
//! engines: one that steps through the instructions, with every bracket resolved to its
//! partner when the text is parsed, and one that runs a tree of blocks into which runs of
//! pointer moves and cell changes were folded.

pub mod laws;
pub mod optimized;
pub mod program;
pub mod state;

pub use optimized::{Block, IoInstruction, OProgram, OpArgs};
pub use program::{Instruction, ParseError, Program};
pub use state::{ProgramState, RunError};
