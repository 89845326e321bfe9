//! The error taxonomy: one kind per failure, each with a fixed message
//! and a stable numeric code.

use vstd::prelude::*;

use crate::decimal::{append_dec_i32, append_dec_u64, dec_digits, dec_int, u64_to_string};

verus! {

/// The ghost face of an error: the kind together with the plain data its
/// message carries.
pub ghost enum ErrV {
    PointerOutOfBounds(int),
    ValueOutOfBounds,
    IoError(Seq<char>),
    FlushError(Seq<char>),
    UnmatchedBracket,
    InvalidUtf8,
    StepLimit,
}

/// The stable numeric code of each error kind.
pub open spec fn code_of(e: ErrV) -> int {
    match e {
        ErrV::PointerOutOfBounds(_) => 11,
        ErrV::ValueOutOfBounds => 12,
        ErrV::IoError(_) => 13,
        ErrV::FlushError(_) => 14,
        ErrV::UnmatchedBracket => 15,
        ErrV::InvalidUtf8 => 16,
        ErrV::StepLimit => 17,
    }
}

/// The message of each error kind.
pub open spec fn msg_of(e: ErrV) -> Seq<char> {
    match e {
        ErrV::PointerOutOfBounds(p) => "Pointer out of bounds "@ + dec_digits(p as nat),
        ErrV::ValueOutOfBounds => "Value out of bounds"@,
        ErrV::IoError(d) => "Failed to read byte from stdin: no bytes available: "@ + d,
        ErrV::FlushError(d) => "Failed to flush stdout: "@ + d,
        ErrV::UnmatchedBracket => "Unmatched bracket"@,
        ErrV::InvalidUtf8 => "Invalid utf8"@,
        ErrV::StepLimit => "Step limit exceeded"@,
    }
}

/// An error surfaced by the interpreter: a rendered message and the stable
/// code of the kind it came from.
#[derive(Debug, PartialEq, Eq)]
pub struct InterpreterError {
    pub message: String,
    pub code: i32,
}

/// Whether `e` is exactly the error that the kind `v` produces.
pub open spec fn is_error(e: InterpreterError, v: ErrV) -> bool {
    e.message@ == msg_of(v) && e.code == code_of(v)
}

impl InterpreterError {
    /// Packs a message and a code into an error.
    pub fn new(message: String, code: i32) -> (r: Self)
        ensures
            r.message@ == message@,
            r.code == code,
    {
        Self { message, code }
    }

    /// The rendered message.
    pub fn message(&self) -> (r: &str)
        ensures
            r@ == self.message@,
    {
        self.message.as_str()
    }

    /// The message followed by the code, as one line.
    pub fn describe(&self) -> (r: String)
        ensures
            r@ == self.message@ + ", code: "@ + dec_int(self.code as int),
    {
        let mut s = self.message.clone();
        s.append(", code: ");
        append_dec_i32(&mut s, self.code);
        s
    }
}

/// One kind per way a run can fail; `to_error` renders the kind into an
/// `InterpreterError`.
#[derive(Debug)]
pub enum InterpreterErrorKind {
    /// The pointer would leave the tape; carries the offending index.
    PointerOutOfBounds(usize),
    /// A cell value would pass its numeric boundary.
    ValueOutOfBounds,
    /// The input source failed or had nothing to read; carries the detail.
    IoError(String),
    /// The output sink failed to take or flush a character; carries the detail.
    FlushError(String),
    /// Compilation found an opening bracket with no matching closing one.
    UnmatchedBracket,
    /// A wide cell value is not a valid Unicode scalar.
    InvalidUtf8,
    /// The run passed the step budget of the interpreter. This kind is
    /// this crate's own addition to the classic taxonomy: every loop
    /// here must provably end, so execution carries a budget of loop
    /// passes, far beyond any feasible run.
    StepLimitExceeded,
}

impl InterpreterErrorKind {
    /// The ghost face of this kind.
    pub open spec fn view_v(&self) -> ErrV {
        match self {
            InterpreterErrorKind::PointerOutOfBounds(p) => ErrV::PointerOutOfBounds(*p as int),
            InterpreterErrorKind::ValueOutOfBounds => ErrV::ValueOutOfBounds,
            InterpreterErrorKind::IoError(d) => ErrV::IoError(d@),
            InterpreterErrorKind::FlushError(d) => ErrV::FlushError(d@),
            InterpreterErrorKind::UnmatchedBracket => ErrV::UnmatchedBracket,
            InterpreterErrorKind::InvalidUtf8 => ErrV::InvalidUtf8,
            InterpreterErrorKind::StepLimitExceeded => ErrV::StepLimit,
        }
    }

    /// The stable code of this kind.
    pub fn code(&self) -> (r: i32)
        ensures
            r as int == code_of(self.view_v()),
    {
        match self {
            InterpreterErrorKind::PointerOutOfBounds(_) => 11,
            InterpreterErrorKind::ValueOutOfBounds => 12,
            InterpreterErrorKind::IoError(_) => 13,
            InterpreterErrorKind::FlushError(_) => 14,
            InterpreterErrorKind::UnmatchedBracket => 15,
            InterpreterErrorKind::InvalidUtf8 => 16,
            InterpreterErrorKind::StepLimitExceeded => 17,
        }
    }

    /// Renders this kind into the error it stands for.
    pub fn to_error(&self) -> (r: InterpreterError)
        ensures
            is_error(r, self.view_v()),
    {
        let code = self.code();
        let message: String = match self {
            InterpreterErrorKind::PointerOutOfBounds(p) => {
                let mut s = String::from_str("Pointer out of bounds ");
                append_dec_u64(&mut s, *p as u64);
                s
            },
            InterpreterErrorKind::ValueOutOfBounds => String::from_str("Value out of bounds"),
            InterpreterErrorKind::IoError(d) => {
                let mut s = String::from_str(
                    "Failed to read byte from stdin: no bytes available: ",
                );
                s.append(d.as_str());
                s
            },
            InterpreterErrorKind::FlushError(d) => {
                let mut s = String::from_str("Failed to flush stdout: ");
                s.append(d.as_str());
                s
            },
            InterpreterErrorKind::UnmatchedBracket => String::from_str("Unmatched bracket"),
            InterpreterErrorKind::InvalidUtf8 => String::from_str("Invalid utf8"),
            InterpreterErrorKind::StepLimitExceeded => String::from_str("Step limit exceeded"),
        };
        InterpreterError::new(message, code)
    }
}

} // verus!
