//! A verified interpreter for a minimal eight-symbol tape language: a
//! compiler from source text to a command tree, a tape machine with
//! configurable wraparound behavior that executes such trees, and the
//! statement assembler of the interactive session around it.

pub mod arguments;
pub mod cell;
pub mod command;
pub mod decimal;
pub mod error;
pub mod interpreter;
pub mod io;
pub mod repl;
pub mod semantics;
pub mod utils;
