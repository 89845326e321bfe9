//! The input source and output sink of the interpreter: either the live
//! console or in-memory buffers.

use std::io::Write;

use vstd::prelude::*;

verus! {

#[verifier::external_type_specification]
#[verifier::external_body]
pub struct ExTerm(console::Term);

/// In-memory input and output: the read instruction takes successive
/// characters of `input`, the output instruction appends to `output`.
pub struct IoBuffer {
    /// The characters left to read are `input[cursor..]`.
    pub input: Vec<char>,
    /// How many input characters were already consumed.
    pub cursor: usize,
    /// Everything written so far.
    pub output: Vec<char>,
}

/// Where the interpreter reads from and writes to.
pub enum IoPort {
    /// The live terminal: reads come from `console::Term`, writes go to
    /// standard output and are flushed at once.
    Console(console::Term),
    /// In-memory buffers.
    Buffered(IoBuffer),
}

/// Relies on `console::Term::read_char`: it blocks until one character is
/// entered and returns it, or returns an error (for one, when the terminal
/// is not user-attended). Nothing is assumed about which character comes.
#[verifier::external_body]
pub(crate) fn term_read_char(term: &console::Term) -> (r: Result<char, String>) {
    match term.read_char() {
        Ok(c) => Ok(c),
        Err(e) => Err(format!("{}", e)),
    }
}

/// Relies on `std::io::Stdout::write_fmt` (through `write!`): it writes the
/// character to standard output, or reports the sink's error.
#[verifier::external_body]
pub(crate) fn write_stdout_char(c: char) -> (r: Result<(), String>) {
    match write!(std::io::stdout(), "{}", c) {
        Ok(()) => Ok(()),
        Err(e) => Err(format!("{}", e)),
    }
}

/// Relies on `std::io::Stdout::flush`: it flushes standard output, or
/// reports the sink's error.
#[verifier::external_body]
pub(crate) fn flush_stdout() -> (r: Result<(), String>) {
    match std::io::stdout().flush() {
        Ok(()) => Ok(()),
        Err(e) => Err(format!("{}", e)),
    }
}

} // verus!
