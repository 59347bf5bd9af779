//! An interpreter for the Chocolate programming language: a two-dimensional language in
//! which a program is a grid of command characters. Connected areas of one character form
//! blocks; the program moves from block to block, following a direction pointer and a codel
//! chooser, and each block it enters carries out its command on a stack of 64-bit integers.

use vstd::prelude::*;

pub mod grid;
pub mod code;
pub mod error;
pub mod source;
pub mod machine;
pub mod state;
pub mod laws;

pub use code::{Block, Code};
pub use error::Error;
pub use machine::{RunState, run, run_checked};
pub use state::State;

