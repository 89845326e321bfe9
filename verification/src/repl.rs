//! The statement assembler of the interactive session: it gathers lines
//! into complete statements (a loop may span several lines) and hands
//! each finished statement to the machine or back to the shell.

use vstd::prelude::*;

use crate::error::InterpreterError;
use crate::interpreter::{run_rel, Interpreter};

verus! {

/// The prefix that marks a shell command rather than a program.
pub const COMMAND_PREFIX: &'static str = "!";

/// What became of one line of input.
pub enum ProcessOutcome {
    /// The line was absorbed into a pending loop body, or discarded.
    Pending,
    /// The line completed a shell command; the shell interprets it.
    Command(String),
    /// The line completed a program, which ran with this result.
    Ran(Result<i32, InterpreterError>),
}

/// `d` plus one, capped at the machine word (an input would need that
/// many nested brackets to reach the cap).
pub open spec fn sat_inc(d: nat) -> nat {
    if d < usize::MAX {
        (d + 1) as nat
    } else {
        d
    }
}

/// The bracket depth after `s`, starting from `d`; `None` when some
/// prefix closes more brackets than are open.
pub open spec fn scan_depth(s: Seq<char>, d: nat) -> Option<nat>
    decreases s.len(),
{
    if s.len() == 0 {
        Some(d)
    } else if s[0] == '[' {
        scan_depth(s.skip(1), sat_inc(d))
    } else if s[0] == ']' {
        if d == 0 {
            None
        } else {
            scan_depth(s.skip(1), (d - 1) as nat)
        }
    } else {
        scan_depth(s.skip(1), d)
    }
}

/// The index of the first opening bracket at or after `i`.
pub open spec fn first_open(s: Seq<char>, i: int) -> Option<int>
    decreases s.len() - i,
{
    if i < 0 || i >= s.len() {
        None
    } else if s[i] == '[' {
        Some(i)
    } else {
        first_open(s, i + 1)
    }
}

/// Whether `s` holds a closing bracket.
pub open spec fn has_close(s: Seq<char>) -> bool {
    exists|k: int| 0 <= k < s.len() && s[k] == ']'
}

/// What one line does to the assembler: it is discarded (a stray closing
/// bracket), absorbed into the pending loop body, or it finishes a
/// statement, leaving a new pending body behind.
pub ghost enum PlanV {
    Discard,
    Absorb { body: Seq<char>, depth: nat },
    Finish { stmt: Seq<char>, body: Seq<char>, depth: nat },
}

/// The assembler's decision for `line`, given the pending body `body0`
/// and depth `d0`: a line that opens a loop at the top level starts a
/// pending body; while a body is pending, lines are absorbed until the
/// depth returns to zero; everything else is a statement of its own.
pub open spec fn process_plan(body0: Seq<char>, d0: nat, line: Seq<char>) -> PlanV {
    match scan_depth(line, d0) {
        None => PlanV::Discard,
        Some(dn) => match first_open(line, 0) {
            Some(idx) => {
                if dn != 0 && body0.len() == 0 {
                    PlanV::Finish {
                        stmt: line.take(idx),
                        body: line.skip(idx),
                        depth: dn,
                    }
                } else if body0.len() > 0 {
                    PlanV::Absorb { body: body0 + line, depth: dn }
                } else if has_close(line) {
                    PlanV::Finish { stmt: body0 + line, body: Seq::empty(), depth: dn }
                } else {
                    PlanV::Finish { stmt: line, body: body0, depth: dn }
                }
            },
            None => {
                if has_close(line) && dn == 0 {
                    PlanV::Finish { stmt: body0 + line, body: Seq::empty(), depth: dn }
                } else if dn != 0 {
                    PlanV::Absorb { body: body0 + line, depth: dn }
                } else {
                    PlanV::Finish { stmt: line, body: body0, depth: dn }
                }
            },
        },
    }
}

/// The interactive session's state: the machine, the pending loop body,
/// and how many brackets of it are still open.
pub struct Repl {
    /// The machine the statements run on.
    pub interpreter: Interpreter,
    /// The lines of a loop that is still open.
    pub loop_body: String,
    /// How many opening brackets are not yet closed.
    pub loop_depth: usize,
}

impl Repl {
    /// Well-formedness: the machine is well-formed.
    pub open spec fn wf(&self) -> bool {
        self.interpreter.wf()
    }

    /// A fresh session around `interpreter`, with nothing pending.
    pub fn new(interpreter: Interpreter) -> (r: Repl)
        ensures
            r.interpreter == interpreter,
            r.loop_body@.len() == 0,
            r.loop_depth == 0,
    {
        Repl { interpreter, loop_body: String::new(), loop_depth: 0 }
    }

    /// Feeds one line to the assembler: the line is discarded, absorbed
    /// into a pending loop body, or completes a statement, which either
    /// comes back as a shell command or runs on the machine at once.
    #[verifier::loop_isolation(false)]
    pub fn process(&mut self, user_input: String) -> (r: ProcessOutcome)
        requires
            old(self).wf(),
        ensures
            final(self).wf(),
            match process_plan(
                old(self).loop_body@,
                old(self).loop_depth as nat,
                user_input@,
            ) {
                PlanV::Discard => r is Pending && *final(self) == *old(self),
                PlanV::Absorb { body, depth } => ({
                    &&& r is Pending
                    &&& final(self).loop_body@ == body
                    &&& final(self).loop_depth as nat == depth
                    &&& final(self).interpreter == old(self).interpreter
                }),
                PlanV::Finish { stmt, body, depth } => ({
                    &&& final(self).loop_body@ == body
                    &&& final(self).loop_depth as nat == depth
                    &&& (if stmt.len() == 0 {
                        r is Pending && final(self).interpreter == old(self).interpreter
                    } else if stmt[0] == '!' {
                        (r matches ProcessOutcome::Command(c) && c@ == stmt)
                            && final(self).interpreter == old(self).interpreter
                    } else {
                        (r matches ProcessOutcome::Ran(res) && run_rel(
                            old(self).interpreter,
                            final(self).interpreter,
                            stmt,
                            res,
                        ))
                    })
                }),
            },
    {
        let ghost body0 = self.loop_body@;
        let ghost d0 = self.loop_depth as nat;
        let ghost line = user_input@;
        let s = user_input.as_str();
        let n = s.unicode_len();

        // Bracket depth over the line, discarding it on a stray `]`.
        proof {
            assert(line.skip(0) =~= line);
        }
        let mut d = self.loop_depth;
        let mut i: usize = 0;
        while i < n
            invariant
                i <= n,
                n == line.len(),
                s@ == line,
                scan_depth(line, d0) == scan_depth(line.skip(i as int), d as nat),
            decreases n - i,
        {
            let c = s.get_char(i);
            proof {
                assert(line.skip(i as int)[0] == line[i as int]);
                assert(line.skip(i as int).skip(1) =~= line.skip(i + 1));
            }
            if c == '[' {
                if d < usize::MAX {
                    d = d + 1;
                }
            } else if c == ']' {
                if d == 0 {
                    proof {
                        assert(scan_depth(line, d0) is None);
                    }
                    return ProcessOutcome::Pending;
                }
                d = d - 1;
            }
            i += 1;
        }
        proof {
            assert(line.skip(n as int) =~= Seq::<char>::empty());
            assert(scan_depth(line, d0) == Some(d as nat));
        }

        // The first opening bracket, if any.
        let mut open_idx: Option<usize> = None;
        let mut j: usize = 0;
        while j < n && open_idx.is_none()
            invariant
                j <= n,
                open_idx is None ==> first_open(line, 0) == first_open(line, j as int),
                match open_idx {
                    Some(x) => first_open(line, 0) == Some(x as int) && x < n,
                    None => true,
                },
            decreases n - j + (if open_idx is None { 1int } else { 0int }),
        {
            if s.get_char(j) == '[' {
                open_idx = Some(j);
            } else {
                j += 1;
            }
        }
        proof {
            if open_idx is None {
                assert(first_open(line, n as int) is None);
            }
        }

        // Whether the line closes any bracket.
        let mut has_cl = false;
        let mut k: usize = 0;
        while k < n && !has_cl
            invariant
                k <= n,
                !has_cl ==> forall|t: int| 0 <= t < k ==> line[t] != ']',
                has_cl ==> has_close(line),
            decreases n - k + (if has_cl { 0int } else { 1int }),
        {
            if s.get_char(k) == ']' {
                has_cl = true;
                proof {
                    assert(has_close(line));
                }
            } else {
                k += 1;
            }
        }
        proof {
            if !has_cl {
                assert(!has_close(line));
            }
        }

        let body_empty = self.loop_body.as_str().is_empty();
        let stmt: String;
        match open_idx {
            Some(idx) => {
                if d != 0 && body_empty {
                    stmt = s.substring_char(0, idx).to_owned();
                    self.loop_body = s.substring_char(idx, n).to_owned();
                    self.loop_depth = d;
                    proof {
                        assert(stmt@ == line.take(idx as int));
                        assert(self.loop_body@ == line.skip(idx as int));
                    }
                } else if !body_empty {
                    self.loop_body.append(s);
                    self.loop_depth = d;
                    return ProcessOutcome::Pending;
                } else {
                    proof {
                        assert(has_close(line)) by {
                            assert(first_open(line, 0) is Some);
                            lemma_open_needs_close(line, d0, 0);
                        };
                        assert(body0 + line =~= line);
                    }
                    stmt = user_input;
                    self.loop_body = String::new();
                    self.loop_depth = d;
                }
            },
            None => {
                if has_cl && d == 0 {
                    self.loop_body.append(s);
                    stmt = self.loop_body.clone();
                    self.loop_body = String::new();
                    self.loop_depth = d;
                } else if d != 0 {
                    self.loop_body.append(s);
                    self.loop_depth = d;
                    return ProcessOutcome::Pending;
                } else {
                    stmt = user_input;
                    self.loop_depth = d;
                }
            },
        }

        let m = stmt.as_str().unicode_len();
        if m == 0 {
            return ProcessOutcome::Pending;
        }
        if stmt.as_str().get_char(0) == '!' {
            proof {
                reveal_strlit("!");
            }
            return ProcessOutcome::Command(stmt);
        }
        let res = self.interpreter.run(stmt);
        ProcessOutcome::Ran(res)
    }
}

/// A line whose first opening bracket leaves the scan at depth zero must
/// close a bracket after it.
proof fn lemma_open_needs_close(s: Seq<char>, d: nat, i: int)
    requires
        0 <= i <= s.len(),
        first_open(s, i) is Some,
        scan_depth(s.skip(i), d) == Some(0nat),
    ensures
        has_close(s),
    decreases s.len() - i,
{
    assert(s.skip(i).len() > 0) by {
        lemma_first_open_in_range(s, i);
    };
    lemma_first_open_in_range(s, i);
    assert(s.skip(i)[0] == s[i]);
    assert(s.skip(i).skip(1) =~= s.skip(i + 1));
    if s[i] == '[' {
        lemma_depth_zero_has_close(s, sat_inc(d), i + 1);
    } else if s[i] == ']' {
        assert(has_close(s));
    } else {
        lemma_open_needs_close(s, d, i + 1);
    }
}

/// A scan that starts above depth zero and ends at zero passes a closing
/// bracket.
proof fn lemma_depth_zero_has_close(s: Seq<char>, d: nat, i: int)
    requires
        0 <= i <= s.len(),
        d > 0,
        scan_depth(s.skip(i), d) == Some(0nat),
    ensures
        has_close(s),
    decreases s.len() - i,
{
    assert(s.skip(i).len() > 0);
    assert(s.skip(i)[0] == s[i]);
    assert(s.skip(i).skip(1) =~= s.skip(i + 1));
    if s[i] == ']' {
        assert(has_close(s));
    } else if s[i] == '[' {
        lemma_depth_zero_has_close(s, sat_inc(d), i + 1);
    } else {
        lemma_depth_zero_has_close(s, d, i + 1);
    }
}

/// A found opening bracket lies in the sequence.
proof fn lemma_first_open_in_range(s: Seq<char>, i: int)
    requires
        first_open(s, i) is Some,
    ensures
        i <= first_open(s, i)->Some_0 < s.len(),
        0 <= i < s.len(),
    decreases s.len() - i,
{
    if 0 <= i < s.len() && s[i] != '[' {
        lemma_first_open_in_range(s, i + 1);
    }
}

} // verus!
