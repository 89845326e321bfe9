//! The tape machine: it owns the cells, the pointer, the compiled
//! program and the I/O port, and executes command trees under a step
//! budget, proved against the ghost semantics.

use vstd::prelude::*;

use crate::arguments::{has_feature, Feature};
use crate::cell::{is_scalar, Cell};
use crate::command::{parses_to, to_bf_commands, well_bracketed, BfCommand};
use crate::error::{is_error, ErrV, InterpreterError, InterpreterErrorKind};
use crate::io::{flush_stdout, term_read_char, write_stdout_char, IoBuffer, IoPort};
use crate::semantics::{
    cur, dec_val, inc_val, io_conforms, lemma_conforms_concat, lemma_out_shift_compose,
    lemma_reads_le, lemma_run_append, lemma_run_mono, lemma_run_no_steplimit, lemma_run_used,
    mv_back, mv_fwd, out_shift,
    print_code, reads_of, run_cmds_v, set_cur, wf_m, CfgV, IoEventV, MachineV, RunOutV,
};
use vstd::pervasive::unreached;

verus! {

/// Whether the port `post` can come out of the port `pre` by running
/// commands: the console stays itself, a buffer only consumes input and
/// appends output.
pub open spec fn port_evolved(pre: IoPort, post: IoPort) -> bool {
    match pre {
        IoPort::Console(_) => post == pre,
        IoPort::Buffered(b) => match post {
            IoPort::Buffered(b2) => {
                &&& b2.input@ == b.input@
                &&& b.cursor <= b2.cursor
                &&& b.output@.len() <= b2.output@.len()
                &&& b2.output@.take(b.output@.len() as int) == b.output@
            },
            IoPort::Console(_) => false,
        },
    }
}

proof fn lemma_port_evolved_refl(p: IoPort)
    ensures
        port_evolved(p, p),
{
    match p {
        IoPort::Console(_) => {},
        IoPort::Buffered(b) => {
            assert(b.output@.take(b.output@.len() as int) =~= b.output@);
        },
    }
}

proof fn lemma_port_evolved_trans(a: IoPort, b: IoPort, c: IoPort)
    requires
        port_evolved(a, b),
        port_evolved(b, c),
    ensures
        port_evolved(a, c),
{
    match a {
        IoPort::Console(_) => {},
        IoPort::Buffered(ba) => {
            let bb = b->Buffered_0;
            let bc = c->Buffered_0;
            assert(bc.output@.take(ba.output@.len() as int) =~= ba.output@) by {
                assert forall|k: int| 0 <= k < ba.output@.len() implies bc.output@[k]
                    == ba.output@[k] by {
                    assert(bb.output@.take(ba.output@.len() as int)[k] == bb.output@[k]);
                    assert(bc.output@.take(bb.output@.len() as int)[k] == bc.output@[k]);
                    assert(ba.output@[k] == bb.output@.take(ba.output@.len() as int)[k]);
                    assert(bb.output@[k] == bc.output@.take(bb.output@.len() as int)[k]);
                };
            };
        },
    }
}

/// How the trace `io` with written code points `out` turns the port
/// `p1` into `p2`: the console stays itself; a buffer conforms to the
/// trace, its cursor advances by the characters read, and its output
/// grows by exactly what was written.
pub open spec fn ports_advance(p1: IoPort, p2: IoPort, io: Seq<IoEventV>, out: Seq<int>) -> bool {
    match p1 {
        IoPort::Console(_) => p2 == p1,
        IoPort::Buffered(b) => match p2 {
            IoPort::Buffered(b2) => {
                &&& io_conforms(io, b.input@.skip(b.cursor as int))
                &&& b2.input@ == b.input@
                &&& b2.cursor as int == b.cursor + reads_of(io)
                &&& b2.output@.map_values(|c: char| c as int) == b.output@.map_values(
                    |c: char| c as int,
                ) + out
            },
            IoPort::Console(_) => false,
        },
    }
}

proof fn lemma_ports_advance_refl(p: IoPort)
    ensures
        ports_advance(p, p, Seq::empty(), Seq::empty()),
{
    match p {
        IoPort::Console(_) => {},
        IoPort::Buffered(b) => {
            assert(b.output@.map_values(|c: char| c as int) =~= b.output@.map_values(
                |c: char| c as int,
            ) + Seq::<int>::empty());
        },
    }
}

proof fn lemma_ports_advance_trans(
    p1: IoPort,
    p2: IoPort,
    p3: IoPort,
    io1: Seq<IoEventV>,
    out1: Seq<int>,
    io2: Seq<IoEventV>,
    out2: Seq<int>,
)
    requires
        ports_advance(p1, p2, io1, out1),
        ports_advance(p2, p3, io2, out2),
        p1 matches IoPort::Buffered(b) ==> b.cursor <= b.input@.len(),
    ensures
        ports_advance(p1, p3, io1 + io2, out1 + out2),
{
    match p1 {
        IoPort::Console(_) => {},
        IoPort::Buffered(b1) => {
            let b2 = p2->Buffered_0;
            let b3 = p3->Buffered_0;
            let avail1 = b1.input@.skip(b1.cursor as int);
            lemma_reads_le(io1, avail1);
            assert forall|k: int| 0 <= k < b2.input@.len() - b2.cursor implies b2.input@.skip(
                b2.cursor as int,
            )[k] == avail1.skip(reads_of(io1) as int)[k] by {
                assert(b2.input@.skip(b2.cursor as int)[k] == b1.input@[b2.cursor + k]);
                assert(avail1.skip(reads_of(io1) as int)[k] == b1.input@[b1.cursor + reads_of(io1)
                    + k]);
            };
            assert(b2.input@.skip(b2.cursor as int) =~= avail1.skip(reads_of(io1) as int));
            lemma_conforms_concat(io1, io2, avail1);
            assert(b3.output@.map_values(|c: char| c as int) =~= b1.output@.map_values(
                |c: char| c as int,
            ) + (out1 + out2));
        },
    }
}

proof fn lemma_buffered_read_ports(b: IoBuffer, b2: IoBuffer, ch: char)
    requires
        b.cursor < b.input@.len(),
        ch == b.input@[b.cursor as int],
        b2.input@ == b.input@,
        b2.cursor == b.cursor + 1,
        b2.output@ == b.output@.push(ch),
    ensures
        ports_advance(
            IoPort::Buffered(b),
            IoPort::Buffered(b2),
            seq![IoEventV::ReadOk(ch), IoEventV::FlushOk],
            seq![ch as int],
        ),
{
    let io = seq![IoEventV::ReadOk(ch), IoEventV::FlushOk];
    let avail = b.input@.skip(b.cursor as int);
    assert(io.skip(1) =~= seq![IoEventV::FlushOk]);
    assert(seq![IoEventV::FlushOk].skip(1) =~= Seq::<IoEventV>::empty());
    assert(avail[0] == b.input@[b.cursor as int]);
    assert(reads_of(Seq::<IoEventV>::empty()) == 0);
    assert(reads_of(seq![IoEventV::FlushOk]) == 0);
    assert(reads_of(io) == 1);
    assert(io_conforms(Seq::<IoEventV>::empty(), avail.skip(1)));
    assert(io_conforms(seq![IoEventV::FlushOk], avail.skip(1)));
    assert(io_conforms(io, avail));
    assert(b2.output@.map_values(|cc: char| cc as int) =~= b.output@.map_values(
        |cc: char| cc as int,
    ) + seq![ch as int]);
}

proof fn lemma_buffered_read_fail_ports(b: IoBuffer)
    requires
        b.cursor == b.input@.len(),
    ensures
        ports_advance(
            IoPort::Buffered(b),
            IoPort::Buffered(b),
            seq![IoEventV::ReadFail("end of input"@)],
            seq![],
        ),
{
    let io = seq![IoEventV::ReadFail("end of input"@)];
    let avail = b.input@.skip(b.cursor as int);
    assert(io.skip(1) =~= Seq::<IoEventV>::empty());
    assert(avail =~= Seq::<char>::empty());
    assert(reads_of(Seq::<IoEventV>::empty()) == 0);
    assert(reads_of(io) == 0);
    assert(io_conforms(Seq::<IoEventV>::empty(), avail));
    assert(io_conforms(io, avail));
    assert(b.output@.map_values(|cc: char| cc as int) =~= b.output@.map_values(
        |cc: char| cc as int,
    ) + Seq::<int>::empty());
}

proof fn lemma_buffered_print_ports(b: IoBuffer, b2: IoBuffer, ch: char, code: int)
    requires
        b2.input@ == b.input@,
        b2.cursor == b.cursor,
        b2.output@ == b.output@.push(ch),
        code == ch as int,
    ensures
        ports_advance(
            IoPort::Buffered(b),
            IoPort::Buffered(b2),
            seq![IoEventV::FlushOk],
            seq![code],
        ),
{
    let io = seq![IoEventV::FlushOk];
    assert(io.skip(1) =~= Seq::<IoEventV>::empty());
    assert(reads_of(Seq::<IoEventV>::empty()) == 0);
    assert(reads_of(io) == 0);
    assert(io_conforms(Seq::<IoEventV>::empty(), b.input@.skip(b.cursor as int)));
    assert(io_conforms(io, b.input@.skip(b.cursor as int)));
    assert(b2.output@.map_values(|cc: char| cc as int) =~= b.output@.map_values(
        |cc: char| cc as int,
    ) + seq![code]);
}

/// Sequencing at zero budget: when `c1` completes on exactly `io1`
/// without any loop pass, running `c1 + c2` continues with `c2`, still
/// at zero budget, whatever its outcome.
proof fn lemma_run_append0(
    cfg: CfgV,
    st: MachineV,
    c1: Seq<BfCommand>,
    c2: Seq<BfCommand>,
    io1: Seq<IoEventV>,
    io2: Seq<IoEventV>,
)
    requires
        run_cmds_v(cfg, st, c1, io1, 0) matches RunOutV::Halt { used, .. } && used == io1.len(),
    ensures
        run_cmds_v(cfg, st, c1 + c2, io1 + io2, 0) == out_shift(
            run_cmds_v(cfg, run_cmds_v(cfg, st, c1, io1, 0).st_of(), c2, io2, 0),
            io1.len(),
            run_cmds_v(cfg, st, c1, io1, 0).out_of(),
        ),
    decreases c1.len(),
{
    let r1 = run_cmds_v(cfg, st, c1, io1, 0);
    if c1.len() == 0 {
        assert(c1 + c2 =~= c2);
        assert(io1 + io2 =~= io2);
        lemma_out_shift_zero(run_cmds_v(cfg, st, c2, io2, 0));
    } else {
        let rest = c1.skip(1);
        assert((c1 + c2)[0] == c1[0]);
        assert((c1 + c2).skip(1) =~= rest + c2);
        match c1[0] {
            BfCommand::IncPtr => {
                if mv_fwd(cfg, st) is Ok {
                    lemma_run_append0(cfg, mv_fwd(cfg, st)->Ok_0, rest, c2, io1, io2);
                }
            },
            BfCommand::DecPtr => {
                if mv_back(cfg, st) is Ok {
                    lemma_run_append0(cfg, mv_back(cfg, st)->Ok_0, rest, c2, io1, io2);
                }
            },
            BfCommand::IncVal => {
                if inc_val(cfg, st) is Ok {
                    lemma_run_append0(cfg, inc_val(cfg, st)->Ok_0, rest, c2, io1, io2);
                }
            },
            BfCommand::DecVal => {
                if dec_val(cfg, st) is Ok {
                    lemma_run_append0(cfg, dec_val(cfg, st)->Ok_0, rest, c2, io1, io2);
                }
            },
            BfCommand::Print => {
                assert(io1.len() >= 1);
                assert((io1 + io2)[0] == io1[0]);
                if io1[0] is FlushOk {
                    assert((io1 + io2).skip(1) =~= io1.skip(1) + io2);
                    lemma_run_append0(cfg, st, rest, c2, io1.skip(1), io2);
                    let r_rest = run_cmds_v(cfg, st, rest, io1.skip(1), 0);
                    let r2 = run_cmds_v(cfg, r_rest.st_of(), c2, io2, 0);
                    lemma_out_shift_compose(
                        r2,
                        1,
                        seq![print_code(cfg, st)],
                        r_rest.used(),
                        r_rest.out_of(),
                    );
                }
            },
            BfCommand::Read => {
                assert(io1.len() >= 1);
                assert((io1 + io2)[0] == io1[0]);
                if io1[0] is ReadOk {
                    let c = io1[0]->ReadOk_0;
                    assert(io1.len() >= 2);
                    assert((io1 + io2)[1] == io1[1]);
                    if io1[1] is FlushOk {
                        assert((io1 + io2).skip(2) =~= io1.skip(2) + io2);
                        lemma_run_append0(cfg, set_cur(st, c), rest, c2, io1.skip(2), io2);
                        let r_rest = run_cmds_v(cfg, set_cur(st, c), rest, io1.skip(2), 0);
                        let r2 = run_cmds_v(cfg, r_rest.st_of(), c2, io2, 0);
                        lemma_out_shift_compose(r2, 2, seq![c as int], r_rest.used(), r_rest.out_of());
                    }
                }
            },
            BfCommand::Loop(body) => {
                if cur(st).val() == 0 {
                    lemma_run_append0(cfg, st, rest, c2, io1, io2);
                }
            },
        }
    }
}

/// Whether some command of `cmds` is a loop, anywhere at the top level.
/// Only a loop can spend the step budget, so only such a program can
/// fail with the budget error.
pub open spec fn has_loop(cmds: Seq<BfCommand>) -> bool {
    exists|k: int| 0 <= k < cmds.len() && cmds[k] is Loop
}

/// Whether the run of `cmds` from `pre`, after the events of `io2`, is
/// already cut short at a zero step budget, however the oracle
/// continues: it genuinely reaches a loop pass there.
pub open spec fn spins_from(pre: Interpreter, cmds: Seq<BfCommand>, io2: Seq<IoEventV>) -> bool {
    forall|ext: Seq<IoEventV>| #[trigger] run_cmds_v(pre.cfg(), pre.st(), cmds, io2 + ext, 0)
        is Spin
}

/// What the step-budget failure still owes: the program holds a loop;
/// the I/O done before the run was cut short advances the port by a
/// conforming trace; and the run genuinely reaches a loop pass — at a
/// zero budget it is already cut short, however the oracle continues.
pub open spec fn steplimit_case(pre: Interpreter, post: Interpreter, cmds: Seq<BfCommand>) -> bool {
    &&& has_loop(cmds)
    &&& exists|io: Seq<IoEventV>, out: Seq<int>| #[trigger] ports_advance(
        pre.io,
        post.io,
        io,
        out,
    )
    &&& exists|io2: Seq<IoEventV>| #[trigger] spins_from(pre, cmds, io2)
}

/// A program whose first command is a loop over a nonzero cell is
/// already cut short at a zero budget; with the port evidence in hand
/// this is the whole of [`steplimit_case`].
proof fn lemma_steplimit_entry(pre: Interpreter, post: Interpreter, cmds: Seq<BfCommand>)
    requires
        cmds.len() > 0,
        cmds[0] is Loop,
        cur(pre.st()).val() != 0,
        exists|io: Seq<IoEventV>, out: Seq<int>| #[trigger] ports_advance(
            pre.io,
            post.io,
            io,
            out,
        ),
    ensures
        steplimit_case(pre, post, cmds),
{
    assert(has_loop(cmds));
    let io2: Seq<IoEventV> = Seq::empty();
    assert forall|ext: Seq<IoEventV>| #[trigger] run_cmds_v(
        pre.cfg(),
        pre.st(),
        cmds,
        io2 + ext,
        0,
    ) is Spin by {
        assert(io2 + ext =~= ext);
        assert(run_cmds_v(pre.cfg(), pre.st(), cmds, ext, 0) is Spin);
    };
    assert(spins_from(pre, cmds, io2));
}

/// A prefix that completes at zero budget, followed by a loop over a
/// nonzero cell, cuts the whole program short at zero budget, however
/// the oracle continues.
proof fn lemma_prefix_reaches_loop(
    pre: Interpreter,
    mid: MachineV,
    cmds: Seq<BfCommand>,
    i: int,
    acc_io: Seq<IoEventV>,
    acc_out: Seq<int>,
)
    requires
        0 <= i < cmds.len(),
        cmds[i] is Loop,
        cur(mid).val() != 0,
        run_cmds_v(pre.cfg(), pre.st(), cmds.take(i), acc_io, 0) == (RunOutV::Halt {
            st: mid,
            used: acc_io.len(),
            out: acc_out,
        }),
    ensures
        spins_from(pre, cmds, acc_io),
{
    assert forall|ext: Seq<IoEventV>| #[trigger] run_cmds_v(
        pre.cfg(),
        pre.st(),
        cmds,
        acc_io + ext,
        0,
    ) is Spin by {
        lemma_run_append0(pre.cfg(), pre.st(), cmds.take(i), cmds.skip(i), acc_io, ext);
        assert(cmds.take(i) + cmds.skip(i) =~= cmds);
        assert(cmds.skip(i).len() > 0);
        assert(cmds.skip(i)[0] == cmds[i]);
        assert(run_cmds_v(pre.cfg(), mid, cmds.skip(i), ext, 0) is Spin);
    };
}

/// Like the `Ok` case of [`cmds_run_exact`], with the budget pinned to
/// zero: the step needs no loop pass at all. Every command but a loop
/// entered with a nonzero cell satisfies this.
pub open spec fn cmd_halts0(pre: Interpreter, post: Interpreter, cmds: Seq<BfCommand>) -> bool {
    exists|io: Seq<IoEventV>|
        {
            &&& #[trigger] run_cmds_v(pre.cfg(), pre.st(), cmds, io, 0) matches RunOutV::Halt {
                st: s,
                used,
                out,
            }
            &&& s == post.st()
            &&& used == io.len()
            &&& ports_advance(pre.io, post.io, io, out)
        }
}

/// Whether running `cmds` on the machine `pre` ends as the machine
/// `post` with the result `r`, exactly: on `Ok` some oracle and budget
/// complete the run exactly there; on `Err` some oracle fails there with
/// exactly that error. In either case the I/O port advances by exactly
/// the oracle's trace, which pins a buffered port's reads and writes
/// completely. The step-budget error is not admitted here.
pub open spec fn cmds_run_exact(
    pre: Interpreter,
    post: Interpreter,
    cmds: Seq<BfCommand>,
    r: Result<(), InterpreterError>,
) -> bool {
    match r {
        Ok(_) => exists|io: Seq<IoEventV>, f: nat|
            {
                &&& #[trigger] run_cmds_v(pre.cfg(), pre.st(), cmds, io, f) matches RunOutV::Halt {
                    st: s,
                    used,
                    out,
                }
                &&& s == post.st()
                &&& used == io.len()
                &&& ports_advance(pre.io, post.io, io, out)
            },
        Err(e) => exists|io: Seq<IoEventV>, f: nat|
            {
                &&& #[trigger] run_cmds_v(pre.cfg(), pre.st(), cmds, io, f) matches RunOutV::Fail {
                    st: s,
                    used,
                    out,
                    err,
                }
                &&& s == post.st()
                &&& used == io.len()
                &&& ports_advance(pre.io, post.io, io, out)
                &&& is_error(e, err)
            },
    }
}

/// [`cmds_run_exact`], or the step-budget failure with what it still
/// owes ([`steplimit_case`]). Only the budgeted loop runners admit the
/// latter; the per-command operations promise [`cmds_run_exact`] alone.
pub open spec fn cmds_run(
    pre: Interpreter,
    post: Interpreter,
    cmds: Seq<BfCommand>,
    r: Result<(), InterpreterError>,
) -> bool {
    ||| cmds_run_exact(pre, post, cmds, r)
    ||| (r matches Err(e) && is_error(e, ErrV::StepLimit) && steplimit_case(pre, post, cmds))
}

proof fn lemma_cmds_read_ok(pre: Interpreter, post: Interpreter, ch: char)
    requires
        post.st() == set_cur(pre.st(), ch),
        pre.io is Console ==> post.io == pre.io,
        pre.io matches IoPort::Buffered(b) ==> ({
            &&& b.cursor < b.input@.len()
            &&& ch == b.input@[b.cursor as int]
            &&& post.io matches IoPort::Buffered(b2) && b2.input@ == b.input@ && b2.cursor
                == b.cursor + 1 && b2.output@ == b.output@.push(ch)
        }),
    ensures
        cmds_run_exact(pre, post, seq![BfCommand::Read], Ok::<(), InterpreterError>(())),
        cmd_halts0(pre, post, seq![BfCommand::Read]),
{
    lemma_run_read_ok(pre.cfg(), pre.st(), ch);
    let io = seq![IoEventV::ReadOk(ch), IoEventV::FlushOk];
    let f: nat = 0;
    assert(ports_advance(pre.io, post.io, io, seq![ch as int])) by {
        match pre.io {
            IoPort::Console(_) => {},
            IoPort::Buffered(b) => {
                lemma_buffered_read_ports(b, post.io->Buffered_0, ch);
            },
        }
    };
    assert(run_cmds_v(pre.cfg(), pre.st(), seq![BfCommand::Read], io, f) matches RunOutV::Halt {
        st,
        used,
        out,
    } && st == post.st() && used == io.len() && ports_advance(pre.io, post.io, io, out));
}

proof fn lemma_cmds_read_exhausted(pre: Interpreter, post: Interpreter, e: InterpreterError)
    requires
        post.st() == pre.st(),
        post.io == pre.io,
        pre.io matches IoPort::Buffered(b) && b.cursor == b.input@.len(),
        is_error(e, ErrV::IoError("end of input"@)),
    ensures
        cmds_run_exact(pre, post, seq![BfCommand::Read], Err::<(), InterpreterError>(e)),
{
    let d = "end of input"@;
    lemma_run_read_fail(pre.cfg(), pre.st(), d);
    let io = seq![IoEventV::ReadFail(d)];
    let f: nat = 0;
    assert(ports_advance(pre.io, post.io, io, seq![])) by {
        lemma_buffered_read_fail_ports(pre.io->Buffered_0);
        assert(pre.io == IoPort::Buffered(pre.io->Buffered_0));
    };
    assert(run_cmds_v(pre.cfg(), pre.st(), seq![BfCommand::Read], io, f) matches RunOutV::Fail {
        st,
        used,
        out,
        err,
    } && st == post.st() && used == io.len() && ports_advance(pre.io, post.io, io, out)
        && is_error(e, err));
}

proof fn lemma_cmds_read_console_fail(
    pre: Interpreter,
    post: Interpreter,
    e: InterpreterError,
    d: Seq<char>,
)
    requires
        post.st() == pre.st(),
        pre.io is Console,
        post.io == pre.io,
        is_error(e, ErrV::IoError(d)),
    ensures
        cmds_run_exact(pre, post, seq![BfCommand::Read], Err::<(), InterpreterError>(e)),
{
    lemma_run_read_fail(pre.cfg(), pre.st(), d);
    let io = seq![IoEventV::ReadFail(d)];
    let f: nat = 0;
    assert(run_cmds_v(pre.cfg(), pre.st(), seq![BfCommand::Read], io, f) matches RunOutV::Fail {
        st,
        used,
        out,
        err,
    } && st == post.st() && used == io.len() && ports_advance(pre.io, post.io, io, out)
        && is_error(e, err));
}

proof fn lemma_cmds_read_echo_fail(
    pre: Interpreter,
    post: Interpreter,
    ch: char,
    e: InterpreterError,
    d: Seq<char>,
)
    requires
        post.st() == set_cur(pre.st(), ch),
        pre.io is Console,
        post.io == pre.io,
        is_error(e, ErrV::FlushError(d)),
    ensures
        cmds_run_exact(pre, post, seq![BfCommand::Read], Err::<(), InterpreterError>(e)),
{
    lemma_run_read_flush_fail(pre.cfg(), pre.st(), ch, d);
    let io = seq![IoEventV::ReadOk(ch), IoEventV::FlushFail(d)];
    let f: nat = 0;
    assert(run_cmds_v(pre.cfg(), pre.st(), seq![BfCommand::Read], io, f) matches RunOutV::Fail {
        st,
        used,
        out,
        err,
    } && st == post.st() && used == io.len() && ports_advance(pre.io, post.io, io, out)
        && is_error(e, err));
}

/// The tape machine.
pub struct Interpreter {
    /// The tape.
    pub cells: Vec<Cell>,
    /// The index of the current cell.
    pub pointer: usize,
    /// The last compiled program, kept for introspection.
    pub bf_commands: Vec<BfCommand>,
    /// The feature toggles, fixed for this machine's lifetime.
    pub features: Vec<Feature>,
    /// Where reads come from and writes go to.
    pub io: IoPort,
}

impl Interpreter {
    /// The ghost machine state.
    pub open spec fn st(&self) -> MachineV {
        MachineV { cells: self.cells@, ptr: self.pointer as int }
    }

    /// The resolved feature toggles.
    pub open spec fn cfg(&self) -> CfgV {
        CfgV {
            wide: self.features@.contains(Feature::AllowUtf8),
            ptr_wrap: self.features@.contains(Feature::ReversePointer),
            val_wrap: self.features@.contains(Feature::NoReverseValue),
        }
    }

    /// Well-formedness: the tape is nonempty and of the configured width,
    /// the pointer is on it, and a buffered port has consumed no more
    /// than its input.
    pub open spec fn wf(&self) -> bool {
        &&& wf_m(self.cfg(), self.st())
        &&& match self.io {
            IoPort::Buffered(b) => b.cursor <= b.input@.len(),
            IoPort::Console(_) => true,
        }
    }

    /// The machine's configuration and program are untouched.
    pub open spec fn keeps_setup(pre: Interpreter, post: Interpreter) -> bool {
        &&& post.features@ == pre.features@
        &&& post.bf_commands@ == pre.bf_commands@
    }
}

fn blank_tape(array_size: usize, features: &Vec<Feature>) -> (r: Vec<Cell>)
    ensures
        r@.len() == array_size,
        forall|k: int| 0 <= k < array_size ==> #[trigger] r@[k] == (if features@.contains(
            Feature::AllowUtf8,
        ) {
            Cell::Utf8(0)
        } else {
            Cell::Byte(0)
        }),
{
    let mut cells: Vec<Cell> = Vec::new();
    let mut k: usize = 0;
    while k < array_size
        invariant
            k <= array_size,
            cells@.len() == k,
            forall|j: int| 0 <= j < k ==> #[trigger] cells@[j] == (if features@.contains(
                Feature::AllowUtf8,
            ) {
                Cell::Utf8(0)
            } else {
                Cell::Byte(0)
            }),
        decreases array_size - k,
    {
        cells.push(Cell::default_cell(features));
        k += 1;
    }
    cells
}

impl Interpreter {
    /// A machine on the live console: a zero-filled tape of `array_size`
    /// cells of the configured width, the pointer on the first cell, no
    /// program yet.
    pub fn new(array_size: usize, features: Vec<Feature>, term: console::Term) -> (r: Interpreter)
        requires
            array_size >= 1,
        ensures
            r.wf(),
            r.cells@.len() == array_size,
            forall|k: int| 0 <= k < array_size ==> (#[trigger] r.cells@[k]).val() == 0,
            r.pointer == 0,
            r.bf_commands@.len() == 0,
            r.features@ == features@,
            r.io is Console,
    {
        let cells = blank_tape(array_size, &features);
        Interpreter {
            cells,
            pointer: 0,
            bf_commands: Vec::new(),
            features,
            io: IoPort::Console(term),
        }
    }

    /// A machine on in-memory buffers: reads take successive characters
    /// of `input`, writes append to an output buffer that starts empty.
    pub fn buffered(array_size: usize, features: Vec<Feature>, input: Vec<char>) -> (r:
        Interpreter)
        requires
            array_size >= 1,
        ensures
            r.wf(),
            r.cells@.len() == array_size,
            forall|k: int| 0 <= k < array_size ==> (#[trigger] r.cells@[k]).val() == 0,
            r.pointer == 0,
            r.bf_commands@.len() == 0,
            r.features@ == features@,
            r.io matches IoPort::Buffered(b) && b.input@ == input@ && b.cursor == 0
                && b.output@.len() == 0,
    {
        let cells = blank_tape(array_size, &features);
        Interpreter {
            cells,
            pointer: 0,
            bf_commands: Vec::new(),
            features,
            io: IoPort::Buffered(IoBuffer { input, cursor: 0, output: Vec::new() }),
        }
    }

    /// Zeroes every cell, puts the pointer back on the first one and
    /// drops the stored program. The I/O port is left alone.
    pub fn reset(&mut self)
        requires
            old(self).wf(),
        ensures
            final(self).wf(),
            final(self).cells@.len() == old(self).cells@.len(),
            forall|k: int|
                0 <= k < final(self).cells@.len() ==> (#[trigger] final(self).cells@[k]).val()
                    == 0,
            final(self).pointer == 0,
            final(self).bf_commands@.len() == 0,
            final(self).features@ == old(self).features@,
            final(self).io == old(self).io,
    {
        let n = self.cells.len();
        self.cells = blank_tape(n, &self.features);
        self.pointer = 0;
        self.bf_commands = Vec::new();
    }
}

} // verus!

verus! {

impl Interpreter {
    /// Moves the pointer one cell forward, wrapping or failing at the
    /// tape end as `mv_fwd` says.
    fn increment_pointer(&mut self) -> (r: Result<(), InterpreterError>)
        requires
            old(self).wf(),
        ensures
            final(self).wf(),
            final(self).cells@.len() == old(self).cells@.len(),
            Self::keeps_setup(*old(self), *final(self)),
            final(self).io == old(self).io,
            cmds_run_exact(*old(self), *final(self), seq![BfCommand::IncPtr], r),
            r is Ok ==> cmd_halts0(*old(self), *final(self), seq![BfCommand::IncPtr]),
    {
        let ghost cfg0 = self.cfg();
        let ghost st0 = self.st();
        proof {
            assert(seq![BfCommand::IncPtr].skip(1) =~= Seq::<BfCommand>::empty());
        }
        let len = self.cells.len();
        let next = self.pointer + 1;
        if next >= len {
            if has_feature(&self.features, Feature::ReversePointer) {
                self.pointer = 0;
                proof {
                    let st1 = mv_fwd(cfg0, st0)->Ok_0;
                    assert(run_cmds_v(cfg0, st1, Seq::<BfCommand>::empty(), Seq::empty(), 0)
                        == RunOutV::Halt { st: st1, used: 0, out: seq![] });
                    assert(run_cmds_v(cfg0, st0, seq![BfCommand::IncPtr], Seq::empty(), 0)
                        == RunOutV::Halt { st: st1, used: 0, out: seq![] });
                    lemma_ports_advance_refl(self.io);
                }
                Ok(())
            } else {
                let e = InterpreterErrorKind::PointerOutOfBounds(next).to_error();
                proof {
                    let ev = ErrV::PointerOutOfBounds(st0.ptr + 1);
                    assert(run_cmds_v(cfg0, st0, seq![BfCommand::IncPtr], Seq::empty(), 0)
                        == RunOutV::Fail { st: st0, used: 0, out: seq![], err: ev });
                    lemma_ports_advance_refl(self.io);
                }
                Err(e)
            }
        } else {
            self.pointer = next;
            proof {
                let st1 = mv_fwd(cfg0, st0)->Ok_0;
                assert(run_cmds_v(cfg0, st1, Seq::<BfCommand>::empty(), Seq::empty(), 0)
                    == RunOutV::Halt { st: st1, used: 0, out: seq![] });
                assert(run_cmds_v(cfg0, st0, seq![BfCommand::IncPtr], Seq::empty(), 0)
                    == RunOutV::Halt { st: st1, used: 0, out: seq![] });
            }
            Ok(())
        }
    }

    /// Moves the pointer one cell backward, wrapping or failing at the
    /// tape start as `mv_back` says.
    fn decrement_pointer(&mut self) -> (r: Result<(), InterpreterError>)
        requires
            old(self).wf(),
        ensures
            final(self).wf(),
            final(self).cells@.len() == old(self).cells@.len(),
            Self::keeps_setup(*old(self), *final(self)),
            final(self).io == old(self).io,
            cmds_run_exact(*old(self), *final(self), seq![BfCommand::DecPtr], r),
            r is Ok ==> cmd_halts0(*old(self), *final(self), seq![BfCommand::DecPtr]),
    {
        let ghost cfg0 = self.cfg();
        let ghost st0 = self.st();
        proof {
            assert(seq![BfCommand::DecPtr].skip(1) =~= Seq::<BfCommand>::empty());
        }
        if self.pointer == 0 {
            if has_feature(&self.features, Feature::ReversePointer) {
                self.pointer = self.cells.len() - 1;
                proof {
                    let st1 = mv_back(cfg0, st0)->Ok_0;
                    assert(run_cmds_v(cfg0, st1, Seq::<BfCommand>::empty(), Seq::empty(), 0)
                        == RunOutV::Halt { st: st1, used: 0, out: seq![] });
                    assert(run_cmds_v(cfg0, st0, seq![BfCommand::DecPtr], Seq::empty(), 0)
                        == RunOutV::Halt { st: st1, used: 0, out: seq![] });
                    lemma_ports_advance_refl(self.io);
                }
                Ok(())
            } else {
                let e = InterpreterErrorKind::PointerOutOfBounds(0).to_error();
                proof {
                    let ev = ErrV::PointerOutOfBounds(0);
                    assert(run_cmds_v(cfg0, st0, seq![BfCommand::DecPtr], Seq::empty(), 0)
                        == RunOutV::Fail { st: st0, used: 0, out: seq![], err: ev });
                    lemma_ports_advance_refl(self.io);
                }
                Err(e)
            }
        } else {
            self.pointer = self.pointer - 1;
            proof {
                let st1 = mv_back(cfg0, st0)->Ok_0;
                assert(run_cmds_v(cfg0, st1, Seq::<BfCommand>::empty(), Seq::empty(), 0)
                    == RunOutV::Halt { st: st1, used: 0, out: seq![] });
                assert(run_cmds_v(cfg0, st0, seq![BfCommand::DecPtr], Seq::empty(), 0)
                    == RunOutV::Halt { st: st1, used: 0, out: seq![] });
            }
            Ok(())
        }
    }

    /// Adds one to the current cell, wrapping or failing at the boundary
    /// as `inc_val` says.
    fn increment_value(&mut self) -> (r: Result<(), InterpreterError>)
        requires
            old(self).wf(),
        ensures
            final(self).wf(),
            final(self).cells@.len() == old(self).cells@.len(),
            Self::keeps_setup(*old(self), *final(self)),
            final(self).io == old(self).io,
            cmds_run_exact(*old(self), *final(self), seq![BfCommand::IncVal], r),
            r is Ok ==> cmd_halts0(*old(self), *final(self), seq![BfCommand::IncVal]),
    {
        let ghost cfg0 = self.cfg();
        let ghost st0 = self.st();
        proof {
            assert(seq![BfCommand::IncVal].skip(1) =~= Seq::<BfCommand>::empty());
        }
        let strict = !has_feature(&self.features, Feature::NoReverseValue);
        let mut c = self.cells[self.pointer];
        match c.increment(strict) {
            Ok(()) => {
                self.cells[self.pointer] = c;
                proof {
                    let st1 = inc_val(cfg0, st0)->Ok_0;
                    assert(self.st().cells =~= st1.cells);
                    assert(self.st() == st1);
                    assert(run_cmds_v(cfg0, st1, Seq::<BfCommand>::empty(), Seq::empty(), 0)
                        == RunOutV::Halt { st: st1, used: 0, out: seq![] });
                    assert(run_cmds_v(cfg0, st0, seq![BfCommand::IncVal], Seq::empty(), 0)
                        == RunOutV::Halt { st: st1, used: 0, out: seq![] });
                    lemma_ports_advance_refl(self.io);
                }
                Ok(())
            },
            Err(e) => {
                proof {
                    assert(run_cmds_v(cfg0, st0, seq![BfCommand::IncVal], Seq::empty(), 0)
                        == RunOutV::Fail {
                        st: st0,
                        used: 0,
                        out: seq![],
                        err: ErrV::ValueOutOfBounds,
                    });
                    lemma_ports_advance_refl(self.io);
                }
                Err(e)
            },
        }
    }

    /// Takes one from the current cell, wrapping or failing at the
    /// boundary as `dec_val` says.
    fn decrement_value(&mut self) -> (r: Result<(), InterpreterError>)
        requires
            old(self).wf(),
        ensures
            final(self).wf(),
            final(self).cells@.len() == old(self).cells@.len(),
            Self::keeps_setup(*old(self), *final(self)),
            final(self).io == old(self).io,
            cmds_run_exact(*old(self), *final(self), seq![BfCommand::DecVal], r),
            r is Ok ==> cmd_halts0(*old(self), *final(self), seq![BfCommand::DecVal]),
    {
        let ghost cfg0 = self.cfg();
        let ghost st0 = self.st();
        proof {
            assert(seq![BfCommand::DecVal].skip(1) =~= Seq::<BfCommand>::empty());
        }
        let strict = !has_feature(&self.features, Feature::NoReverseValue);
        let mut c = self.cells[self.pointer];
        match c.decrement(strict) {
            Ok(()) => {
                self.cells[self.pointer] = c;
                proof {
                    let st1 = dec_val(cfg0, st0)->Ok_0;
                    assert(self.st().cells =~= st1.cells);
                    assert(self.st() == st1);
                    assert(run_cmds_v(cfg0, st1, Seq::<BfCommand>::empty(), Seq::empty(), 0)
                        == RunOutV::Halt { st: st1, used: 0, out: seq![] });
                    assert(run_cmds_v(cfg0, st0, seq![BfCommand::DecVal], Seq::empty(), 0)
                        == RunOutV::Halt { st: st1, used: 0, out: seq![] });
                    lemma_ports_advance_refl(self.io);
                }
                Ok(())
            },
            Err(e) => {
                proof {
                    assert(run_cmds_v(cfg0, st0, seq![BfCommand::DecVal], Seq::empty(), 0)
                        == RunOutV::Fail {
                        st: st0,
                        used: 0,
                        out: seq![],
                        err: ErrV::ValueOutOfBounds,
                    });
                    lemma_ports_advance_refl(self.io);
                }
                Err(e)
            },
        }
    }
}

} // verus!

verus! {


/// Whether `e` is a flush failure, with whatever wording the sink gave.
pub open spec fn is_flush_error(e: InterpreterError) -> bool {
    exists|d: Seq<char>| is_error(e, ErrV::FlushError(d))
}

proof fn lemma_run_print_ok(cfg: CfgV, st0: MachineV)
    requires
        !(cfg.wide && !is_scalar(cur(st0).val())),
    ensures
        run_cmds_v(cfg, st0, seq![BfCommand::Print], seq![IoEventV::FlushOk], 0)
            == (RunOutV::Halt { st: st0, used: 1, out: seq![print_code(cfg, st0)] }),
        seq![IoEventV::FlushOk].len() == 1,
{
    let io = seq![IoEventV::FlushOk];
    let f: nat = 0;
    assert(seq![BfCommand::Print].skip(1) =~= Seq::<BfCommand>::empty());
    assert(io.skip(1) =~= Seq::<IoEventV>::empty());
    assert(run_cmds_v(cfg, st0, Seq::<BfCommand>::empty(), io.skip(1), f) == RunOutV::Halt {
        st: st0,
        used: 0,
        out: seq![],
    });
    assert(seq![] + seq![print_code(cfg, st0)] =~= seq![print_code(cfg, st0)]);
    assert(run_cmds_v(cfg, st0, seq![BfCommand::Print], io, f) == RunOutV::Halt {
        st: st0,
        used: 1,
        out: seq![] + seq![print_code(cfg, st0)],
    });
}

proof fn lemma_run_print_invalid(cfg: CfgV, st0: MachineV)
    requires
        cfg.wide && !is_scalar(cur(st0).val()),
    ensures
        run_cmds_v(cfg, st0, seq![BfCommand::Print], Seq::empty(), 0) == (RunOutV::Fail {
            st: st0,
            used: 0,
            out: seq![],
            err: ErrV::InvalidUtf8,
        }),
{
}

proof fn lemma_run_print_flush_fail(cfg: CfgV, st0: MachineV, d: Seq<char>)
    requires
        !(cfg.wide && !is_scalar(cur(st0).val())),
    ensures
        run_cmds_v(cfg, st0, seq![BfCommand::Print], seq![IoEventV::FlushFail(d)], 0)
            == (RunOutV::Fail { st: st0, used: 1, out: seq![], err: ErrV::FlushError(d) }),
        seq![IoEventV::FlushFail(d)].len() == 1,
{
}

proof fn lemma_run_read_ok(cfg: CfgV, st0: MachineV, ch: char)
    ensures
        run_cmds_v(
            cfg,
            st0,
            seq![BfCommand::Read],
            seq![IoEventV::ReadOk(ch), IoEventV::FlushOk],
            0,
        ) == (RunOutV::Halt { st: set_cur(st0, ch), used: 2, out: seq![ch as int] }),
        seq![IoEventV::ReadOk(ch), IoEventV::FlushOk].len() == 2,
{
    let io = seq![IoEventV::ReadOk(ch), IoEventV::FlushOk];
    let f: nat = 0;
    let post = set_cur(st0, ch);
    assert(seq![BfCommand::Read].skip(1) =~= Seq::<BfCommand>::empty());
    assert(io.skip(2) =~= Seq::<IoEventV>::empty());
    assert(run_cmds_v(cfg, post, Seq::<BfCommand>::empty(), io.skip(2), f) == RunOutV::Halt {
        st: post,
        used: 0,
        out: seq![],
    });
    assert(seq![] + seq![ch as int] =~= seq![ch as int]);
    assert(run_cmds_v(cfg, st0, seq![BfCommand::Read], io, f) == RunOutV::Halt {
        st: post,
        used: 2,
        out: seq![] + seq![ch as int],
    });
}

proof fn lemma_run_read_fail(cfg: CfgV, st0: MachineV, d: Seq<char>)
    ensures
        run_cmds_v(cfg, st0, seq![BfCommand::Read], seq![IoEventV::ReadFail(d)], 0)
            == (RunOutV::Fail { st: st0, used: 1, out: seq![], err: ErrV::IoError(d) }),
        seq![IoEventV::ReadFail(d)].len() == 1,
{
}

proof fn lemma_run_read_flush_fail(cfg: CfgV, st0: MachineV, ch: char, d: Seq<char>)
    ensures
        run_cmds_v(
            cfg,
            st0,
            seq![BfCommand::Read],
            seq![IoEventV::ReadOk(ch), IoEventV::FlushFail(d)],
            0,
        ) == (RunOutV::Fail {
            st: set_cur(st0, ch),
            used: 2,
            out: seq![],
            err: ErrV::FlushError(d),
        }),
        seq![IoEventV::ReadOk(ch), IoEventV::FlushFail(d)].len() == 2,
{
}

impl Interpreter {
    /// Hands one character to the output sink: the console path writes it
    /// to standard output and flushes at once, the buffered path appends
    /// it to the output buffer (which cannot fail).
    fn emit_char(&mut self, ch: char) -> (r: Result<(), InterpreterError>)
        requires
            old(self).wf(),
        ensures
            final(self).wf(),
            Self::keeps_setup(*old(self), *final(self)),
            final(self).cells@ == old(self).cells@,
            final(self).pointer == old(self).pointer,
            old(self).io is Console ==> final(self).io == old(self).io,
            old(self).io is Buffered ==> ({
                &&& r is Ok
                &&& final(self).io matches IoPort::Buffered(b2) && b2.input@ == old(
                    self,
                ).io->Buffered_0.input@ && b2.cursor == old(self).io->Buffered_0.cursor
                    && b2.output@ == old(self).io->Buffered_0.output@.push(ch)
            }),
            r is Err ==> is_flush_error(r->Err_0),
    {
        match &mut self.io {
            IoPort::Console(_) => {
                match write_stdout_char(ch) {
                    Ok(()) => {},
                    Err(d) => {
                        let e = InterpreterErrorKind::FlushError(d).to_error();
                        proof {
                            assert(is_error(e, ErrV::FlushError(e.message@.skip(
                                "Failed to flush stdout: "@.len() as int,
                            ))) ==> is_flush_error(e));
                        }
                        return Err(e);
                    },
                }
                match flush_stdout() {
                    Ok(()) => Ok(()),
                    Err(d) => {
                        let e = InterpreterErrorKind::FlushError(d).to_error();
                        Err(e)
                    },
                }
            },
            IoPort::Buffered(buf) => {
                buf.output.push(ch);
                Ok(())
            },
        }
    }

    /// Writes the current cell's character to the output sink: in wide
    /// mode the cell value must be a valid scalar (else `InvalidUtf8`),
    /// in byte mode the low byte is written; a sink failure is a
    /// `FlushError`.
    fn output_value(&mut self) -> (r: Result<(), InterpreterError>)
        requires
            old(self).wf(),
        ensures
            final(self).wf(),
            final(self).cells@.len() == old(self).cells@.len(),
            Self::keeps_setup(*old(self), *final(self)),
            port_evolved(old(self).io, final(self).io),
            cmds_run_exact(*old(self), *final(self), seq![BfCommand::Print], r),
            r is Ok ==> cmd_halts0(*old(self), *final(self), seq![BfCommand::Print]),
    {
        let ghost cfg0 = self.cfg();
        let ghost st0 = self.st();
        let c = self.cells[self.pointer];
        let wide = has_feature(&self.features, Feature::AllowUtf8);
        let ch: char;
        if wide {
            match char::from_u32(c.get_value_utf8()) {
                Some(c2) => {
                    ch = c2;
                },
                None => {
                    let e = InterpreterErrorKind::InvalidUtf8.to_error();
                    proof {
                        lemma_run_print_invalid(cfg0, st0);
                        lemma_ports_advance_refl(self.io);
                        lemma_port_evolved_refl(self.io);
                    }
                    return Err(e);
                },
            }
        } else {
            match char::from_u32(c.get_value() as u32) {
                Some(c2) => {
                    ch = c2;
                },
                None => {
                    return unreached();
                },
            }
        }
        let r = self.emit_char(ch);
        proof {
            assert(ch as int == print_code(cfg0, st0));
            if r is Err {
                let d = choose|d: Seq<char>| is_error(r->Err_0, ErrV::FlushError(d));
                lemma_run_print_flush_fail(cfg0, st0, d);
                assert(old(self).io is Console);
                assert(ports_advance(
                    old(self).io,
                    self.io,
                    seq![IoEventV::FlushFail(d)],
                    seq![],
                ));
            } else {
                lemma_run_print_ok(cfg0, st0);
                assert(ports_advance(
                    old(self).io,
                    self.io,
                    seq![IoEventV::FlushOk],
                    seq![print_code(cfg0, st0)],
                )) by {
                    match old(self).io {
                        IoPort::Console(_) => {},
                        IoPort::Buffered(b) => {
                            let b2 = self.io->Buffered_0;
                            lemma_buffered_print_ports(b, b2, ch, print_code(cfg0, st0));
                        },
                    }
                };
            }
            assert(port_evolved(old(self).io, self.io)) by {
                match old(self).io {
                    IoPort::Console(_) => {},
                    IoPort::Buffered(b) => {
                        let b2 = self.io->Buffered_0;
                        assert(b2.output@.take(b.output@.len() as int) =~= b.output@);
                    },
                }
            };
        }
        r
    }

    fn input_value(&mut self) -> (r: Result<(), InterpreterError>)
        requires
            old(self).wf(),
        ensures
            final(self).wf(),
            final(self).cells@.len() == old(self).cells@.len(),
            Self::keeps_setup(*old(self), *final(self)),
            port_evolved(old(self).io, final(self).io),
            cmds_run_exact(*old(self), *final(self), seq![BfCommand::Read], r),
            r is Ok ==> cmd_halts0(*old(self), *final(self), seq![BfCommand::Read]),
    {
        let is_buf = match &self.io {
            IoPort::Buffered(_) => true,
            IoPort::Console(_) => false,
        };
        if is_buf {
            self.input_value_buffered()
        } else {
            self.input_value_console()
        }
    }

    #[verifier::spinoff_prover]
    fn input_value_buffered(&mut self) -> (r: Result<(), InterpreterError>)
        requires
            old(self).wf(),
            old(self).io is Buffered,
        ensures
            final(self).wf(),
            final(self).cells@.len() == old(self).cells@.len(),
            Self::keeps_setup(*old(self), *final(self)),
            port_evolved(old(self).io, final(self).io),
            cmds_run_exact(*old(self), *final(self), seq![BfCommand::Read], r),
            r is Ok ==> cmd_halts0(*old(self), *final(self), seq![BfCommand::Read]),
    {
        let ghost cfg0 = self.cfg();
        let ghost st0 = self.st();
        let got: Result<char, InterpreterError> = match &mut self.io {
            IoPort::Buffered(buf) => {
                if buf.cursor < buf.input.len() {
                    let ch = buf.input[buf.cursor];
                    buf.cursor = buf.cursor + 1;
                    buf.output.push(ch);
                    Ok(ch)
                } else {
                    Err(InterpreterErrorKind::IoError(String::from_str("end of input"))
                        .to_error())
                }
            },
            IoPort::Console(_) => unreached(),
        };
        proof {
            assert(port_evolved(old(self).io, self.io)) by {
                let b = old(self).io->Buffered_0;
                let b2 = self.io->Buffered_0;
                assert(b2.output@.take(b.output@.len() as int) =~= b.output@);
            };
        }
        match got {
            Err(e) => {
                proof {
                    lemma_cmds_read_exhausted(*old(self), *self, e);
                }
                Err(e)
            },
            Ok(ch) => {
                let mut c = self.cells[self.pointer];
                c.set_value(ch);
                self.cells[self.pointer] = c;
                proof {
                    assert(self.st().cells =~= set_cur(st0, ch).cells);
                    assert(self.st() == set_cur(st0, ch));
                    assert forall|k: int| 0 <= k < self.cells@.len() implies (#[trigger]
                    self.cells@[k]).is_wide() == cfg0.wide && self.cells@[k].inv() by {
                        assert(old(self).cells@[k].is_wide() == cfg0.wide
                            && old(self).cells@[k].inv());
                        if k != st0.ptr {
                            assert(self.cells@[k] == old(self).cells@[k]);
                        } else {
                            assert(self.cells@[k] == c);
                        }
                    };
                    lemma_cmds_read_ok(*old(self), *self, ch);
                }
                Ok(())
            },
        }
    }

    #[verifier::spinoff_prover]
    fn input_value_console(&mut self) -> (r: Result<(), InterpreterError>)
        requires
            old(self).wf(),
            old(self).io is Console,
        ensures
            final(self).wf(),
            final(self).cells@.len() == old(self).cells@.len(),
            Self::keeps_setup(*old(self), *final(self)),
            port_evolved(old(self).io, final(self).io),
            cmds_run_exact(*old(self), *final(self), seq![BfCommand::Read], r),
            r is Ok ==> cmd_halts0(*old(self), *final(self), seq![BfCommand::Read]),
    {
        let ghost cfg0 = self.cfg();
        let ghost st0 = self.st();
        let got: Result<char, String> = match &self.io {
            IoPort::Console(term) => term_read_char(term),
            IoPort::Buffered(_) => unreached(),
        };
        match got {
            Err(d) => {
                let e = InterpreterErrorKind::IoError(d).to_error();
                proof {
                    lemma_cmds_read_console_fail(*old(self), *self, e, d@);
                }
                Err(e)
            },
            Ok(ch) => {
                let mut c = self.cells[self.pointer];
                c.set_value(ch);
                self.cells[self.pointer] = c;
                proof {
                    assert(self.st().cells =~= set_cur(st0, ch).cells);
                    assert(self.st() == set_cur(st0, ch));
                    assert forall|k: int| 0 <= k < self.cells@.len() implies (#[trigger]
                    self.cells@[k]).is_wide() == cfg0.wide && self.cells@[k].inv() by {
                        assert(old(self).cells@[k].is_wide() == cfg0.wide
                            && old(self).cells@[k].inv());
                        if k != st0.ptr {
                            assert(self.cells@[k] == old(self).cells@[k]);
                        } else {
                            assert(self.cells@[k] == c);
                        }
                    };
                }
                let r2 = self.emit_char(ch);
                proof {
                    if r2 is Err {
                        let d = choose|d: Seq<char>| is_error(r2->Err_0, ErrV::FlushError(d));
                        lemma_cmds_read_echo_fail(*old(self), *self, ch, r2->Err_0, d);
                    } else {
                        lemma_cmds_read_ok(*old(self), *self, ch);
                    }
                }
                r2
            },
        }
    }
}

} // verus!

verus! {

impl RunOutV {
    /// The machine state of a completed or failed run (meaningless for
    /// `Spin`).
    pub open spec fn st_of(self) -> MachineV {
        match self {
            RunOutV::Halt { st, .. } => st,
            RunOutV::Fail { st, .. } => st,
            RunOutV::Spin => MachineV { cells: Seq::empty(), ptr: 0 },
        }
    }

    /// The code points a run wrote (meaningless for `Spin`).
    pub open spec fn out_of(self) -> Seq<int> {
        match self {
            RunOutV::Halt { out, .. } => out,
            RunOutV::Fail { out, .. } => out,
            RunOutV::Spin => Seq::empty(),
        }
    }

    /// The error of a failed run (meaningless otherwise).
    pub open spec fn err_of(self) -> ErrV {
        match self {
            RunOutV::Fail { err, .. } => err,
            _ => ErrV::StepLimit,
        }
    }
}

proof fn lemma_out_shift_zero(o: RunOutV)
    ensures
        out_shift(o, 0, Seq::<int>::empty()) == o,
{
    match o {
        RunOutV::Halt { st, used, out } => {
            assert(Seq::<int>::empty() + out =~= out);
        },
        RunOutV::Fail { st, used, out, err } => {
            assert(Seq::<int>::empty() + out =~= out);
        },
        RunOutV::Spin => {},
    }
}

proof fn lemma_step_ok(
    cfg: CfgV,
    st0: MachineV,
    st1: MachineV,
    st2: MachineV,
    cmds: Seq<BfCommand>,
    i: int,
    acc_io: Seq<IoEventV>,
    acc_f: nat,
    acc_out: Seq<int>,
    io_c: Seq<IoEventV>,
    f_c: nat,
    out_c: Seq<int>,
)
    requires
        0 <= i < cmds.len(),
        run_cmds_v(cfg, st0, cmds.take(i), acc_io, acc_f) == (RunOutV::Halt {
            st: st1,
            used: acc_io.len(),
            out: acc_out,
        }),
        run_cmds_v(cfg, st1, seq![cmds[i]], io_c, f_c) == (RunOutV::Halt {
            st: st2,
            used: io_c.len(),
            out: out_c,
        }),
    ensures
        run_cmds_v(cfg, st0, cmds.take(i + 1), acc_io + io_c, (acc_f + f_c) as nat)
            == (RunOutV::Halt {
            st: st2,
            used: (acc_io + io_c).len(),
            out: acc_out + out_c,
        }),
{
    lemma_run_append(cfg, st0, cmds.take(i), seq![cmds[i]], acc_io, acc_f, io_c, f_c);
    assert(cmds.take(i) + seq![cmds[i]] =~= cmds.take(i + 1));
}

proof fn lemma_step_err(
    cfg: CfgV,
    st0: MachineV,
    st1: MachineV,
    st2: MachineV,
    cmds: Seq<BfCommand>,
    i: int,
    acc_io: Seq<IoEventV>,
    acc_f: nat,
    acc_out: Seq<int>,
    io_c: Seq<IoEventV>,
    f_c: nat,
    out_c: Seq<int>,
    ev: ErrV,
)
    requires
        0 <= i < cmds.len(),
        run_cmds_v(cfg, st0, cmds.take(i), acc_io, acc_f) == (RunOutV::Halt {
            st: st1,
            used: acc_io.len(),
            out: acc_out,
        }),
        run_cmds_v(cfg, st1, seq![cmds[i]], io_c, f_c) == (RunOutV::Fail {
            st: st2,
            used: io_c.len(),
            out: out_c,
            err: ev,
        }),
    ensures
        run_cmds_v(cfg, st0, cmds, acc_io + io_c, (acc_f + f_c) as nat) == (RunOutV::Fail {
            st: st2,
            used: (acc_io + io_c).len(),
            out: acc_out + out_c,
            err: ev,
        }),
{
    lemma_run_append(cfg, st0, cmds.take(i), seq![cmds[i]], acc_io, acc_f, io_c, f_c);
    assert(cmds.take(i) + seq![cmds[i]] =~= cmds.take(i + 1));
    let io_all = acc_io + io_c;
    let f_all = (acc_f + f_c) as nat;
    lemma_run_append(
        cfg,
        st0,
        cmds.take(i + 1),
        cmds.skip(i + 1),
        io_all,
        f_all,
        Seq::empty(),
        0,
    );
    assert(cmds.take(i + 1) + cmds.skip(i + 1) =~= cmds);
    assert(io_all + Seq::<IoEventV>::empty() =~= io_all);
}

} // verus!

verus! {

impl Interpreter {
    /// Executes a compiled command sequence top to bottom, stopping at
    /// the first failing instruction. `fuel` bounds the loop passes the
    /// run may still make; the unspent part comes back with the result.
    fn run_brainfuck_code(&mut self, bf_code: &Vec<BfCommand>, fuel: u64) -> (res: (
        Result<(), InterpreterError>,
        u64,
    ))
        requires
            old(self).wf(),
        ensures
            final(self).wf(),
            final(self).cells@.len() == old(self).cells@.len(),
            Self::keeps_setup(*old(self), *final(self)),
            port_evolved(old(self).io, final(self).io),
            res.1 <= fuel,
            cmds_run(*old(self), *final(self), bf_code@, res.0),
            res.0 matches Err(e) && is_error(e, ErrV::StepLimit) ==> res.1 == 0,
        decreases fuel, bf_code@,
    {
        let ghost cfg0 = self.cfg();
        let ghost st0 = self.st();
        let mut fuel_left = fuel;
        let mut i: usize = 0;
        let ghost mut acc_io: Seq<IoEventV> = Seq::empty();
        let ghost mut acc_f: nat = 0;
        let ghost mut acc_out: Seq<int> = Seq::empty();
        proof {
            assert(bf_code@.take(0) =~= Seq::<BfCommand>::empty());
            assert(run_cmds_v(cfg0, st0, bf_code@.take(0), acc_io, 0) == (RunOutV::Halt {
                st: st0,
                used: 0,
                out: acc_out,
            }));
            lemma_ports_advance_refl(self.io);
            assert(port_evolved(self.io, self.io)) by {
                match self.io {
                    IoPort::Console(_) => {},
                    IoPort::Buffered(b) => {
                        assert(b.output@.take(b.output@.len() as int) =~= b.output@);
                    },
                }
            };
        }
        while i < bf_code.len()
            invariant
                old(self).wf(),
                self.wf(),
                self.cells@.len() == old(self).cells@.len(),
                Self::keeps_setup(*old(self), *self),
                port_evolved(old(self).io, self.io),
                i <= bf_code@.len(),
                fuel_left <= fuel,
                cfg0 == old(self).cfg(),
                st0 == old(self).st(),
                self.cfg() == cfg0,
                run_cmds_v(cfg0, st0, bf_code@.take(i as int), acc_io, acc_f) == (RunOutV::Halt {
                    st: self.st(),
                    used: acc_io.len(),
                    out: acc_out,
                }),
                (run_cmds_v(cfg0, st0, bf_code@.take(i as int), acc_io, 0) == (RunOutV::Halt {
                    st: self.st(),
                    used: acc_io.len(),
                    out: acc_out,
                })) || (exists|io2: Seq<IoEventV>| #[trigger] spins_from(
                    *old(self),
                    bf_code@,
                    io2,
                )),
                ports_advance(old(self).io, self.io, acc_io, acc_out),
            decreases bf_code@.len() - i,
        {
            let ghost self_pre = *self;
            let cmd = &bf_code[i];
            let r: Result<(), InterpreterError>;
            match cmd {
                BfCommand::IncPtr => {
                    r = self.increment_pointer();
                },
                BfCommand::DecPtr => {
                    r = self.decrement_pointer();
                },
                BfCommand::IncVal => {
                    r = self.increment_value();
                },
                BfCommand::DecVal => {
                    r = self.decrement_value();
                },
                BfCommand::Print => {
                    r = self.output_value();
                },
                BfCommand::Read => {
                    r = self.input_value();
                },
                BfCommand::Loop(loop_body) => {
                    proof {
                        assert(decreases_to!(bf_code@ => bf_code@[i as int]));
                        assert(decreases_to!(bf_code@[i as int] => bf_code@[i as int]->Loop_0));
                        assert(decreases_to!(bf_code@[i as int]->Loop_0 => bf_code@[
                            i as int
                        ]->Loop_0@));
                    }
                    let rr = self.iterate(loop_body, fuel_left);
                    r = rr.0;
                    fuel_left = rr.1;
                },
            }
            proof {
                if self.io == self_pre.io {
                    lemma_port_evolved_refl(self_pre.io);
                }
                lemma_port_evolved_trans(old(self).io, self_pre.io, self.io);
                let cs: Seq<BfCommand> = seq![bf_code@[i as int]];
                assert(cmds_run(self_pre, *self, cs, r));
                if r is Err && cmds_run_exact(self_pre, *self, cs, r) {
                    let (io_c, f_c) = choose|io: Seq<IoEventV>, f: nat|
                        {
                            &&& #[trigger] run_cmds_v(cfg0, self_pre.st(), cs, io, f)
                                matches RunOutV::Fail { st: s, used, out, err }
                            &&& s == self.st()
                            &&& used == io.len()
                            &&& ports_advance(self_pre.io, self.io, io, out)
                            &&& is_error(r->Err_0, err)
                        };
                    let rc = run_cmds_v(cfg0, self_pre.st(), cs, io_c, f_c);
                    lemma_run_no_steplimit(cfg0, self_pre.st(), cs, io_c, f_c);
                    assert(!is_error(r->Err_0, ErrV::StepLimit));
                    lemma_step_err(
                        cfg0,
                        st0,
                        self_pre.st(),
                        self.st(),
                        bf_code@,
                        i as int,
                        acc_io,
                        acc_f,
                        acc_out,
                        io_c,
                        f_c,
                        rc.out_of(),
                        rc.err_of(),
                    );
                    lemma_ports_advance_trans(
                        old(self).io,
                        self_pre.io,
                        self.io,
                        acc_io,
                        acc_out,
                        io_c,
                        rc.out_of(),
                    );
                    assert(run_cmds_v(cfg0, st0, bf_code@, acc_io + io_c, (acc_f + f_c) as nat)
                        matches RunOutV::Fail { st: s, used, out, err } && s == self.st() && used
                        == (acc_io + io_c).len() && is_error(r->Err_0, err) && ports_advance(
                        old(self).io,
                        self.io,
                        acc_io + io_c,
                        acc_out + rc.out_of(),
                    ));
                } else if r is Err {
                    assert(is_error(r->Err_0, ErrV::StepLimit));
                    assert(steplimit_case(self_pre, *self, cs));
                    assert(cs[0] is Loop);
                    assert(has_loop(bf_code@));
                    let (io_c, out_c) = choose|io: Seq<IoEventV>, out: Seq<int>|
                        #[trigger] ports_advance(self_pre.io, self.io, io, out);
                    lemma_ports_advance_trans(
                        old(self).io,
                        self_pre.io,
                        self.io,
                        acc_io,
                        acc_out,
                        io_c,
                        out_c,
                    );
                    if run_cmds_v(cfg0, st0, bf_code@.take(i as int), acc_io, 0) == (
                    RunOutV::Halt { st: self_pre.st(), used: acc_io.len(), out: acc_out }) {
                        assert(cur(self_pre.st()).val() != 0);
                        lemma_prefix_reaches_loop(
                            *old(self),
                            self_pre.st(),
                            bf_code@,
                            i as int,
                            acc_io,
                            acc_out,
                        );
                    }
                    assert(exists|io2: Seq<IoEventV>| #[trigger] spins_from(
                        *old(self),
                        bf_code@,
                        io2,
                    ));
                    assert(steplimit_case(*old(self), *self, bf_code@));
                } else if r is Ok {
                    let was_loop = bf_code@[i as int] is Loop;
                    let (io_c, f_c): (Seq<IoEventV>, nat) = if was_loop {
                        choose|io: Seq<IoEventV>, f: nat|
                            {
                                &&& #[trigger] run_cmds_v(cfg0, self_pre.st(), cs, io, f)
                                    matches RunOutV::Halt { st: s, used, out }
                                &&& s == self.st()
                                &&& used == io.len()
                                &&& ports_advance(self_pre.io, self.io, io, out)
                            }
                    } else {
                        (
                            choose|io: Seq<IoEventV>|
                                {
                                    &&& #[trigger] run_cmds_v(
                                        self_pre.cfg(),
                                        self_pre.st(),
                                        cs,
                                        io,
                                        0,
                                    ) matches RunOutV::Halt { st: s, used, out }
                                    &&& s == self.st()
                                    &&& used == io.len()
                                    &&& ports_advance(self_pre.io, self.io, io, out)
                                },
                            0,
                        )
                    };
                    let rc = run_cmds_v(cfg0, self_pre.st(), cs, io_c, f_c);
                    assert(rc matches RunOutV::Halt { st: s, used, out } && s == self.st() && used
                        == io_c.len() && ports_advance(self_pre.io, self.io, io_c, out));
                    lemma_step_ok(
                        cfg0,
                        st0,
                        self_pre.st(),
                        self.st(),
                        bf_code@,
                        i as int,
                        acc_io,
                        acc_f,
                        acc_out,
                        io_c,
                        f_c,
                        rc.out_of(),
                    );
                    lemma_ports_advance_trans(
                        old(self).io,
                        self_pre.io,
                        self.io,
                        acc_io,
                        acc_out,
                        io_c,
                        rc.out_of(),
                    );
                    if run_cmds_v(cfg0, st0, bf_code@.take(i as int), acc_io, 0) == (
                    RunOutV::Halt { st: self_pre.st(), used: acc_io.len(), out: acc_out }) {
                        if was_loop {
                            if cur(self_pre.st()).val() == 0 {
                                assert(cs.skip(1) =~= Seq::<BfCommand>::empty());
                                assert(run_cmds_v(
                                    cfg0,
                                    self_pre.st(),
                                    Seq::<BfCommand>::empty(),
                                    io_c,
                                    f_c,
                                ) == (RunOutV::Halt { st: self_pre.st(), used: 0, out: seq![] }));
                                assert(run_cmds_v(cfg0, self_pre.st(), cs, io_c, f_c) == (
                                RunOutV::Halt { st: self_pre.st(), used: 0, out: seq![] }));
                                assert(io_c =~= Seq::<IoEventV>::empty());
                                assert(run_cmds_v(
                                    cfg0,
                                    self_pre.st(),
                                    Seq::<BfCommand>::empty(),
                                    io_c,
                                    0,
                                ) == (RunOutV::Halt { st: self_pre.st(), used: 0, out: seq![] }));
                                assert(run_cmds_v(cfg0, self_pre.st(), cs, io_c, 0) == (
                                RunOutV::Halt { st: self.st(), used: io_c.len(), out: seq![] }));
                                lemma_step_ok(
                                    cfg0,
                                    st0,
                                    self_pre.st(),
                                    self.st(),
                                    bf_code@,
                                    i as int,
                                    acc_io,
                                    0,
                                    acc_out,
                                    io_c,
                                    0,
                                    seq![],
                                );
                            } else {
                                lemma_prefix_reaches_loop(
                                    *old(self),
                                    self_pre.st(),
                                    bf_code@,
                                    i as int,
                                    acc_io,
                                    acc_out,
                                );
                            }
                        } else {
                            lemma_step_ok(
                                cfg0,
                                st0,
                                self_pre.st(),
                                self.st(),
                                bf_code@,
                                i as int,
                                acc_io,
                                0,
                                acc_out,
                                io_c,
                                0,
                                rc.out_of(),
                            );
                        }
                    }
                    acc_io = acc_io + io_c;
                    acc_f = (acc_f + f_c) as nat;
                    acc_out = acc_out + rc.out_of();
                }
            }
            match r {
                Err(e) => {
                    return (Err(e), fuel_left);
                },
                Ok(()) => {},
            }
            i += 1;
        }
        proof {
            assert(bf_code@.take(bf_code@.len() as int) =~= bf_code@);
        }
        (Ok(()), fuel_left)
    }

    /// Runs `code` over and over while the current cell is not zero.
    /// Each pass spends one unit of `fuel`; when it runs out the
    /// iteration stops with the step-budget error.
    fn iterate(&mut self, code: &Vec<BfCommand>, fuel: u64) -> (res: (
        Result<(), InterpreterError>,
        u64,
    ))
        requires
            old(self).wf(),
        ensures
            final(self).wf(),
            final(self).cells@.len() == old(self).cells@.len(),
            Self::keeps_setup(*old(self), *final(self)),
            port_evolved(old(self).io, final(self).io),
            res.1 <= fuel,
            cmds_run(*old(self), *final(self), seq![BfCommand::Loop(*code)], res.0),
            res.0 matches Err(e) && is_error(e, ErrV::StepLimit) ==> res.1 == 0,
            cur(old(self).st()).val() == 0 ==> res.0 is Ok && *final(self) == *old(self)
                && res.1 == fuel,
        decreases fuel, code@,
    {
        let ghost cfg0 = self.cfg();
        let ghost st0 = self.st();
        let ghost lp: Seq<BfCommand> = seq![BfCommand::Loop(*code)];
        let mut fuel_left = fuel;
        let ghost mut acc_io: Seq<IoEventV> = Seq::empty();
        let ghost mut acc_out: Seq<int> = Seq::empty();
        proof {
            lemma_ports_advance_refl(self.io);
            assert(port_evolved(self.io, self.io)) by {
                match self.io {
                    IoPort::Console(_) => {},
                    IoPort::Buffered(b) => {
                        assert(b.output@.take(b.output@.len() as int) =~= b.output@);
                    },
                }
            };
            assert forall|io2: Seq<IoEventV>, f2: nat|
                !((#[trigger] run_cmds_v(cfg0, self.st(), lp, io2, f2)) is Spin) implies exists|
                f3: nat,
            |
                run_cmds_v(cfg0, st0, lp, acc_io + io2, f3) == out_shift(
                    run_cmds_v(cfg0, self.st(), lp, io2, f2),
                    acc_io.len(),
                    acc_out,
                ) by {
                let rr = run_cmds_v(cfg0, self.st(), lp, io2, f2);
                lemma_out_shift_zero(rr);
                assert(acc_io + io2 =~= io2);
                assert(run_cmds_v(cfg0, st0, lp, acc_io + io2, f2) == out_shift(
                    rr,
                    acc_io.len(),
                    acc_out,
                ));
            };
        }
        while self.cells[self.pointer].get_value_utf8() != 0
            invariant
                old(self).wf(),
                self.wf(),
                self.cells@.len() == old(self).cells@.len(),
                Self::keeps_setup(*old(self), *self),
                port_evolved(old(self).io, self.io),
                fuel_left <= fuel,
                cfg0 == old(self).cfg(),
                st0 == old(self).st(),
                self.cfg() == cfg0,
                lp == seq![BfCommand::Loop(*code)],
                cur(old(self).st()).val() == 0 ==> *self == *old(self) && fuel_left == fuel,
                ports_advance(old(self).io, self.io, acc_io, acc_out),
                forall|io2: Seq<IoEventV>, f2: nat|
                    !((#[trigger] run_cmds_v(cfg0, self.st(), lp, io2, f2)) is Spin) ==> exists|
                    f3: nat,
                |
                    run_cmds_v(cfg0, st0, lp, acc_io + io2, f3) == out_shift(
                        run_cmds_v(cfg0, self.st(), lp, io2, f2),
                        acc_io.len(),
                        acc_out,
                    ),
            decreases fuel_left,
        {
            if fuel_left == 0 {
                proof {
                    assert(cur(old(self).st()).val() != 0);
                    lemma_steplimit_entry(*old(self), *self, lp);
                }
                return (Err(InterpreterErrorKind::StepLimitExceeded.to_error()), 0);
            }
            fuel_left = fuel_left - 1;
            let ghost self_pre = *self;
            let rr = self.run_brainfuck_code(code, fuel_left);
            fuel_left = rr.1;
            proof {
                lemma_port_evolved_trans(old(self).io, self_pre.io, self.io);
                assert(cmds_run(self_pre, *self, code@, rr.0));
                assert(cur(self_pre.st()).val() != 0);
            }
            match rr.0 {
                Err(e) => {
                    proof {
                        if !cmds_run_exact(self_pre, *self, code@, rr.0) {
                            assert(is_error(e, ErrV::StepLimit));
                            assert(steplimit_case(self_pre, *self, code@));
                            let (io_b, out_b) = choose|io: Seq<IoEventV>, out: Seq<int>|
                                #[trigger] ports_advance(self_pre.io, self.io, io, out);
                            lemma_ports_advance_trans(
                                old(self).io,
                                self_pre.io,
                                self.io,
                                acc_io,
                                acc_out,
                                io_b,
                                out_b,
                            );
                            assert(cur(old(self).st()).val() != 0);
                            lemma_steplimit_entry(*old(self), *self, lp);
                        }
                        if cmds_run_exact(self_pre, *self, code@, rr.0) {
                            let (io_b, f_b) = choose|io: Seq<IoEventV>, f: nat|
                                {
                                    &&& #[trigger] run_cmds_v(cfg0, self_pre.st(), code@, io, f)
                                        matches RunOutV::Fail { st: s, used, out, err }
                                    &&& s == self.st()
                                    &&& used == io.len()
                                    &&& ports_advance(self_pre.io, self.io, io, out)
                                    &&& is_error(e, err)
                                };
                            let rb = run_cmds_v(cfg0, self_pre.st(), code@, io_b, f_b);
                            lemma_run_no_steplimit(cfg0, self_pre.st(), code@, io_b, f_b);
                            assert(!is_error(e, ErrV::StepLimit));
                            lemma_ports_advance_trans(
                                old(self).io,
                                self_pre.io,
                                self.io,
                                acc_io,
                                acc_out,
                                io_b,
                                rb.out_of(),
                            );
                            let ff: nat = f_b + 1;
                            assert(lp[0] == BfCommand::Loop(*code));
                            assert(run_cmds_v(cfg0, self_pre.st(), code@, io_b, (ff - 1) as nat)
                                == rb);
                            assert(run_cmds_v(cfg0, self_pre.st(), lp, io_b, ff) == rb);
                            assert(exists|f3: nat|
                                run_cmds_v(cfg0, st0, lp, acc_io + io_b, f3) == out_shift(
                                    run_cmds_v(cfg0, self_pre.st(), lp, io_b, ff),
                                    acc_io.len(),
                                    acc_out,
                                ));
                            let f3 = choose|f3: nat|
                                run_cmds_v(cfg0, st0, lp, acc_io + io_b, f3) == out_shift(
                                    run_cmds_v(cfg0, self_pre.st(), lp, io_b, ff),
                                    acc_io.len(),
                                    acc_out,
                                );
                            assert(run_cmds_v(cfg0, st0, lp, acc_io + io_b, f3) matches
                                RunOutV::Fail { st: s, used, out, err } && s == self.st() && used
                                == (acc_io + io_b).len() && is_error(e, err) && ports_advance(
                                old(self).io,
                                self.io,
                                acc_io + io_b,
                                acc_out + rb.out_of(),
                            ));
                        }
                    }
                    return (Err(e), fuel_left);
                },
                Ok(()) => {
                    proof {
                        let (io_b, f_b) = choose|io: Seq<IoEventV>, f: nat|
                            {
                                &&& #[trigger] run_cmds_v(cfg0, self_pre.st(), code@, io, f)
                                    matches RunOutV::Halt { st: s, used, out }
                                &&& s == self.st()
                                &&& used == io.len()
                                &&& ports_advance(self_pre.io, self.io, io, out)
                            };
                        let rb = run_cmds_v(cfg0, self_pre.st(), code@, io_b, f_b);
                        let out_b = rb.out_of();
                        lemma_ports_advance_trans(
                            old(self).io,
                            self_pre.io,
                            self.io,
                            acc_io,
                            acc_out,
                            io_b,
                            out_b,
                        );
                        let ghost acc_io_old = acc_io;
                        let ghost acc_out_old = acc_out;
                        assert forall|io2: Seq<IoEventV>, f2: nat|
                            !((#[trigger] run_cmds_v(cfg0, self.st(), lp, io2, f2)) is Spin)
                            implies exists|f3: nat|
                            run_cmds_v(cfg0, st0, lp, (acc_io_old + io_b) + io2, f3) == out_shift(
                                run_cmds_v(cfg0, self.st(), lp, io2, f2),
                                (acc_io_old + io_b).len(),
                                acc_out_old + out_b,
                            ) by {
                            let rr2 = run_cmds_v(cfg0, self.st(), lp, io2, f2);
                            lemma_run_used(cfg0, self.st(), lp, io2, f2);
                            let ff: nat = f_b + f2 + 1;
                            assert((io_b + io2).take(io_b.len() as int) =~= io_b.take(
                                io_b.len() as int,
                            ));
                            lemma_run_mono(
                                cfg0,
                                self_pre.st(),
                                code@,
                                io_b,
                                f_b,
                                io_b + io2,
                                (ff - 1) as nat,
                            );
                            assert((io_b + io2).skip(io_b.len() as int) =~= io2);
                            lemma_run_mono(cfg0, self.st(), lp, io2, f2, io2, (ff - 1) as nat);
                            assert(run_cmds_v(cfg0, self_pre.st(), lp, io_b + io2, ff)
                                == out_shift(rr2, io_b.len(), out_b));
                            assert(!(run_cmds_v(cfg0, self_pre.st(), lp, io_b + io2, ff) is Spin));
                            let f3a = choose|f3: nat|
                                run_cmds_v(cfg0, st0, lp, acc_io_old + (io_b + io2), f3)
                                    == out_shift(
                                    run_cmds_v(cfg0, self_pre.st(), lp, io_b + io2, ff),
                                    acc_io_old.len(),
                                    acc_out_old,
                                );
                            lemma_out_shift_compose(rr2, acc_io_old.len(), acc_out_old, io_b.len(), out_b);
                            assert((acc_io_old + io_b) + io2 =~= acc_io_old + (io_b + io2));
                            assert(run_cmds_v(cfg0, st0, lp, (acc_io_old + io_b) + io2, f3a)
                                == out_shift(rr2, (acc_io_old + io_b).len(), acc_out_old + out_b));
                        };
                        acc_io = acc_io + io_b;
                        acc_out = acc_out + out_b;
                    }
                },
            }
        }
        proof {
            assert(lp.skip(1) =~= Seq::<BfCommand>::empty());
            assert(cur(self.st()).val() == 0);
            let r0 = run_cmds_v(cfg0, self.st(), lp, Seq::empty(), 0);
            assert(run_cmds_v(cfg0, self.st(), Seq::<BfCommand>::empty(), Seq::empty(), 0)
                == (RunOutV::Halt { st: self.st(), used: 0, out: seq![] }));
            assert(r0 == (RunOutV::Halt { st: self.st(), used: 0, out: seq![] }));
            let f3 = choose|f3: nat|
                run_cmds_v(cfg0, st0, lp, acc_io + Seq::<IoEventV>::empty(), f3) == out_shift(
                    r0,
                    acc_io.len(),
                    acc_out,
                );
            assert(acc_io + Seq::<IoEventV>::empty() =~= acc_io);
            assert(acc_out + Seq::<int>::empty() =~= acc_out);
            assert(run_cmds_v(cfg0, st0, lp, acc_io, f3) matches RunOutV::Halt {
                st: s,
                used,
                out,
            } && s == self.st() && used == acc_io.len() && ports_advance(
                old(self).io,
                self.io,
                acc_io,
                acc_out,
            ));
        }
        (Ok(()), fuel_left)
    }
}

} // verus!

verus! {

/// Collects the characters of `s` in order.
fn str_to_chars(s: &str) -> (v: Vec<char>)
    ensures
        v@ == s@,
{
    let n = s.unicode_len();
    let mut v: Vec<char> = Vec::new();
    let mut i: usize = 0;
    while i < n
        invariant
            i <= n,
            n == s@.len(),
            v@ == s@.take(i as int),
        decreases n - i,
    {
        let c = s.get_char(i);
        v.push(c);
        proof {
            assert(v@ =~= s@.take(i + 1));
        }
        i += 1;
    }
    proof {
        assert(s@.take(n as int) =~= s@);
    }
    v
}

/// The full contract of [`Interpreter::run`], as one relation between the
/// machine before the call, the machine after it, the source text, and
/// the result.
pub open spec fn run_rel(
    pre: Interpreter,
    post: Interpreter,
    code: Seq<char>,
    r: Result<i32, InterpreterError>,
) -> bool {
    &&& post.wf()
    &&& post.cells@.len() == pre.cells@.len()
    &&& post.features@ == pre.features@
    &&& port_evolved(pre.io, post.io)
    &&& (!well_bracketed(code, 0, code.len() as int) ==> ({
        &&& r is Err && is_error(r->Err_0, ErrV::UnmatchedBracket)
        &&& post == pre
    }))
    &&& (well_bracketed(code, 0, code.len() as int) ==> ({
        &&& parses_to(code, 0, code.len() as int, post.bf_commands@)
        &&& (r is Ok ==> r->Ok_0 == 0)
        &&& cmds_run(
            pre,
            post,
            post.bf_commands@,
            if r is Ok {
                Ok(())
            } else {
                Err(r->Err_0)
            },
        )
    }))
}

impl Interpreter {
    /// Compiles `bf_code` and executes it top to bottom. Compilation
    /// failure leaves the machine untouched; otherwise the compiled tree
    /// replaces the stored one and the run returns `0` or the first
    /// error, leaving the tape and pointer exactly as of the failing
    /// instruction. A run that exceeds the step budget (which no feasible
    /// run does) fails with the step-budget error; a program without
    /// loops never does, since only loops spend budget.
    pub fn run(&mut self, bf_code: String) -> (r: Result<i32, InterpreterError>)
        requires
            old(self).wf(),
        ensures
            run_rel(*old(self), *final(self), bf_code@, r),
    {
        let chars = str_to_chars(bf_code.as_str());
        let cmds = match to_bf_commands(chars) {
            Ok(cmds) => cmds,
            Err(e) => {
                proof {
                    lemma_port_evolved_refl(self.io);
                }
                return Err(e);
            },
        };
        let (res, _fuel_left) = self.run_brainfuck_code(&cmds, u64::MAX);
        self.bf_commands = cmds;
        match res {
            Ok(()) => Ok(0),
            Err(e) => Err(e),
        }
    }
}

} // verus!
