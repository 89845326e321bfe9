//! The compiled command tree and the compiler that builds it from source
//! characters, resolving loop boundaries ahead of execution.

use vstd::prelude::*;

use crate::error::{is_error, ErrV, InterpreterError, InterpreterErrorKind};

verus! {

/// One node of a compiled program: a pointer move, a value move, an I/O
/// instruction, or a loop holding its fully compiled body.
#[derive(Debug, PartialEq)]
pub enum BfCommand {
    /// Move the pointer one cell forward.
    IncPtr,
    /// Move the pointer one cell backward.
    DecPtr,
    /// Add one to the current cell.
    IncVal,
    /// Take one from the current cell.
    DecVal,
    /// Write the current cell's character to the output sink.
    Print,
    /// Read one character into the current cell.
    Read,
    /// Run the body while the current cell is not zero.
    Loop(Vec<BfCommand>),
}

/// The simple command a character stands for; `None` for every other
/// character, brackets included.
pub open spec fn cmd_of_char(c: char) -> Option<BfCommand> {
    if c == '>' {
        Some(BfCommand::IncPtr)
    } else if c == '<' {
        Some(BfCommand::DecPtr)
    } else if c == '+' {
        Some(BfCommand::IncVal)
    } else if c == '-' {
        Some(BfCommand::DecVal)
    } else if c == '.' {
        Some(BfCommand::Print)
    } else if c == ',' {
        Some(BfCommand::Read)
    } else {
        None
    }
}

/// Whether `c` is one of the eight symbols of the language.
pub open spec fn is_bf_char(c: char) -> bool {
    c == '>' || c == '<' || c == '+' || c == '-' || c == '.' || c == ',' || c == '[' || c == ']'
}

impl BfCommand {
    /// The simple command `c` stands for; `None` for every other
    /// character, brackets included.
    pub fn from(c: char) -> (r: Option<BfCommand>)
        ensures
            r == cmd_of_char(c),
    {
        match c {
            '>' => Some(BfCommand::IncPtr),
            '<' => Some(BfCommand::DecPtr),
            '+' => Some(BfCommand::IncVal),
            '-' => Some(BfCommand::DecVal),
            '.' => Some(BfCommand::Print),
            ',' => Some(BfCommand::Read),
            _ => None,
        }
    }
}

/// The index of the closing bracket in `s[j..to]` that brings the bracket
/// nesting `depth` back down to zero, scanning left to right; `None` when
/// the range ends first.
pub open spec fn find_close(s: Seq<char>, j: int, to: int, depth: int) -> Option<int>
    decreases to - j,
{
    if j >= to {
        None
    } else if s[j] == ']' && depth == 1 {
        Some(j)
    } else {
        let d = if s[j] == '[' {
            depth + 1
        } else if s[j] == ']' {
            depth - 1
        } else {
            depth
        };
        find_close(s, j + 1, to, d)
    }
}

/// A found closing bracket lies inside the scanned range.
pub proof fn lemma_find_close_in_range(s: Seq<char>, j: int, to: int, depth: int)
    requires
        find_close(s, j, to, depth) is Some,
    ensures
        j <= find_close(s, j, to, depth)->Some_0 < to,
    decreases to - j,
{
    if j >= to {
    } else if s[j] == ']' && depth == 1 {
    } else {
        let d = if s[j] == '[' {
            depth + 1
        } else if s[j] == ']' {
            depth - 1
        } else {
            depth
        };
        lemma_find_close_in_range(s, j + 1, to, d);
    }
}

/// Whether every opening bracket in `s[from..to]` has a matching closing
/// one. A closing bracket with no opening one does not hurt: the compiler
/// skips it like any unrecognized character.
pub open spec fn well_bracketed(s: Seq<char>, from: int, to: int) -> bool
    decreases to - from,
{
    if from >= to {
        true
    } else if s[from] == '[' {
        match find_close(s, from + 1, to, 1) {
            None => false,
            Some(j) => {
                proof {
                    lemma_find_close_in_range(s, from + 1, to, 1);
                }
                well_bracketed(s, from + 1, j) && well_bracketed(s, j + 1, to)
            },
        }
    } else {
        well_bracketed(s, from + 1, to)
    }
}

/// Whether `cmds` is the compilation of `s[from..to]`: each recognized
/// character in order becomes its command, each opening bracket becomes a
/// loop node holding the compilation of the characters up to its matching
/// closing bracket, and everything else is skipped.
pub open spec fn parses_to(s: Seq<char>, from: int, to: int, cmds: Seq<BfCommand>) -> bool
    decreases to - from,
{
    if from >= to {
        cmds.len() == 0
    } else if s[from] == '[' {
        match find_close(s, from + 1, to, 1) {
            None => false,
            Some(j) => {
                proof {
                    lemma_find_close_in_range(s, from + 1, to, 1);
                }
                cmds.len() > 0 && cmds[0] is Loop && parses_to(s, from + 1, j, cmds[0]->Loop_0@)
                    && parses_to(s, j + 1, to, cmds.skip(1))
            },
        }
    } else {
        match cmd_of_char(s[from]) {
            Some(c) => cmds.len() > 0 && cmds[0] == c && parses_to(s, from + 1, to, cmds.skip(1)),
            None => parses_to(s, from + 1, to, cmds),
        }
    }
}

/// Scans `src[start..to]` for the closing bracket matching an opening one
/// just before `start`.
fn scan_close(src: &Vec<char>, start: usize, to: usize) -> (r: Option<usize>)
    requires
        1 <= start <= to <= src@.len(),
    ensures
        match r {
            Some(j) => find_close(src@, start as int, to as int, 1) == Some(j as int) && start <= j
                < to,
            None => find_close(src@, start as int, to as int, 1) is None,
        },
{
    let mut j = start;
    let mut depth: usize = 1;
    while j < to
        invariant
            start <= j <= to <= src@.len(),
            1 <= start,
            1 <= depth <= 1 + j - start,
            find_close(src@, start as int, to as int, 1) == find_close(
                src@,
                j as int,
                to as int,
                depth as int,
            ),
        decreases to - j,
    {
        let c = src[j];
        if c == ']' && depth == 1 {
            proof {
                lemma_find_close_in_range(src@, start as int, to as int, 1);
            }
            return Some(j);
        }
        if c == '[' {
            depth = depth + 1;
        } else if c == ']' {
            depth = depth - 1;
        }
        j = j + 1;
    }
    None
}

/// Compiles `src[from..to]`, failing with `UnmatchedBracket` exactly when
/// some opening bracket in the range has no matching closing one.
fn compile_range(src: &Vec<char>, from: usize, to: usize) -> (r: Result<
    Vec<BfCommand>,
    InterpreterError,
>)
    requires
        from <= to <= src@.len(),
    ensures
        (r is Ok) == well_bracketed(src@, from as int, to as int),
        r is Ok ==> parses_to(src@, from as int, to as int, r->Ok_0@),
        r is Err ==> is_error(r->Err_0, ErrV::UnmatchedBracket),
    decreases to - from,
{
    let ghost s = src@;
    let mut cmds: Vec<BfCommand> = Vec::new();
    let mut i = from;
    while i < to
        invariant
            from <= i <= to <= s.len(),
            s == src@,
            well_bracketed(s, from as int, to as int) == well_bracketed(s, i as int, to as int),
            forall|rest: Seq<BfCommand>| #[trigger]
                parses_to(s, i as int, to as int, rest) ==> parses_to(
                    s,
                    from as int,
                    to as int,
                    cmds@ + rest,
                ),
        decreases to - i,
    {
        let c = src[i];
        if c == '[' {
            match scan_close(src, i + 1, to) {
                None => {
                    return Err(InterpreterErrorKind::UnmatchedBracket.to_error());
                },
                Some(j) => {
                    match compile_range(src, i + 1, j) {
                        Ok(body) => {
                            let ghost prev = cmds@;
                            let ghost node = BfCommand::Loop(body);
                            proof {
                                assert forall|rest: Seq<BfCommand>| #[trigger]
                                    parses_to(s, j + 1, to as int, rest) implies parses_to(
                                    s,
                                    from as int,
                                    to as int,
                                    (prev + seq![node]) + rest,
                                ) by {
                                    let with_node = seq![node] + rest;
                                    assert(with_node.skip(1) =~= rest);
                                    assert(with_node[0] == node);
                                    assert(parses_to(s, i as int, to as int, with_node));
                                    assert(prev + with_node =~= (prev + seq![node]) + rest);
                                };
                            }
                            cmds.push(BfCommand::Loop(body));
                            proof {
                                assert(cmds@ =~= prev + seq![node]);
                            }
                            i = j + 1;
                        },
                        Err(e) => {
                            return Err(e);
                        },
                    }
                },
            }
        } else {
            match BfCommand::from(c) {
                Some(cmd) => {
                    let ghost prev = cmds@;
                    let ghost cv = cmd_of_char(s[i as int])->Some_0;
                    proof {
                        assert forall|rest: Seq<BfCommand>| #[trigger]
                            parses_to(s, i + 1, to as int, rest) implies parses_to(
                            s,
                            from as int,
                            to as int,
                            (prev + seq![cv]) + rest,
                        ) by {
                            let with_c = seq![cv] + rest;
                            assert(with_c.skip(1) =~= rest);
                            assert(parses_to(s, i as int, to as int, with_c));
                            assert(prev + with_c =~= (prev + seq![cv]) + rest);
                        };
                    }
                    cmds.push(cmd);
                    proof {
                        assert(cmds@ =~= prev + seq![cv]);
                    }
                },
                None => {
                    proof {
                        assert forall|rest: Seq<BfCommand>| #[trigger]
                            parses_to(s, i + 1, to as int, rest) implies parses_to(
                            s,
                            from as int,
                            to as int,
                            cmds@ + rest,
                        ) by {
                            assert(parses_to(s, i as int, to as int, rest));
                        };
                    }
                },
            }
            i = i + 1;
        }
    }
    proof {
        assert(parses_to(s, to as int, to as int, Seq::<BfCommand>::empty()));
        assert(cmds@ + Seq::<BfCommand>::empty() =~= cmds@);
    }
    Ok(cmds)
}

/// Compiles a whole source text into a command tree. Succeeds exactly when
/// every opening bracket has a matching closing one, and then yields the
/// one command sequence the source parses to; fails with
/// `UnmatchedBracket` otherwise.
pub fn to_bf_commands(bf_code: Vec<char>) -> (r: Result<Vec<BfCommand>, InterpreterError>)
    ensures
        (r is Ok) == well_bracketed(bf_code@, 0, bf_code@.len() as int),
        r is Ok ==> parses_to(bf_code@, 0, bf_code@.len() as int, r->Ok_0@),
        r is Err ==> is_error(r->Err_0, ErrV::UnmatchedBracket),
{
    let n = bf_code.len();
    compile_range(&bf_code, 0, n)
}

} // verus!

verus! {

/// Structural identity of two command sequences: the same commands in
/// the same order, loop bodies included. (Two equal trees held in
/// different buffers compare equal under it.)
pub open spec fn cmds_alike(a: Seq<BfCommand>, b: Seq<BfCommand>) -> bool
    decreases a,
{
    if a.len() != b.len() {
        false
    } else if a.len() == 0 {
        true
    } else {
        let heads = match (a[0], b[0]) {
            (BfCommand::Loop(x), BfCommand::Loop(y)) => {
                proof {
                    assert(decreases_to!(a => a[0]));
                    assert(decreases_to!(a[0] => a[0]->Loop_0));
                    assert(decreases_to!(a[0]->Loop_0 => a[0]->Loop_0@));
                }
                cmds_alike(x@, y@)
            },
            (x, y) => !(x is Loop) && x == y,
        };
        heads && cmds_alike(a.skip(1), b.skip(1))
    }
}

/// Compilation is functional: one source range parses to at most one
/// command tree, so recompiling the same source always yields the same
/// tree.
pub proof fn lemma_parses_to_unique(
    s: Seq<char>,
    from: int,
    to: int,
    c1: Seq<BfCommand>,
    c2: Seq<BfCommand>,
)
    requires
        parses_to(s, from, to, c1),
        parses_to(s, from, to, c2),
    ensures
        cmds_alike(c1, c2),
    decreases to - from,
{
    if from >= to {
    } else if s[from] == '[' {
        let j = find_close(s, from + 1, to, 1)->Some_0;
        lemma_find_close_in_range(s, from + 1, to, 1);
        lemma_parses_to_unique(s, from + 1, j, c1[0]->Loop_0@, c2[0]->Loop_0@);
        lemma_parses_to_unique(s, j + 1, to, c1.skip(1), c2.skip(1));
        lemma_parses_to_same_len(s, from, to, c1, c2);
    } else {
        match cmd_of_char(s[from]) {
            Some(c) => {
                lemma_parses_to_unique(s, from + 1, to, c1.skip(1), c2.skip(1));
                lemma_parses_to_same_len(s, from, to, c1, c2);
            },
            None => {
                lemma_parses_to_unique(s, from + 1, to, c1, c2);
            },
        }
    }
}

proof fn lemma_parses_to_same_len(
    s: Seq<char>,
    from: int,
    to: int,
    c1: Seq<BfCommand>,
    c2: Seq<BfCommand>,
)
    requires
        parses_to(s, from, to, c1),
        parses_to(s, from, to, c2),
    ensures
        c1.len() == c2.len(),
    decreases to - from,
{
    if from >= to {
    } else if s[from] == '[' {
        lemma_find_close_in_range(s, from + 1, to, 1);
        let j = find_close(s, from + 1, to, 1)->Some_0;
        lemma_parses_to_same_len(s, j + 1, to, c1.skip(1), c2.skip(1));
    } else {
        match cmd_of_char(s[from]) {
            Some(c) => {
                lemma_parses_to_same_len(s, from + 1, to, c1.skip(1), c2.skip(1));
            },
            None => {
                lemma_parses_to_same_len(s, from + 1, to, c1, c2);
            },
        }
    }
}

} // verus!
