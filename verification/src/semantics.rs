//! The meaning of a compiled program: a step-budgeted evaluator over a
//! ghost machine state, threaded through a trace of I/O events. The
//! executable interpreter is proved to agree with it.

use vstd::prelude::*;

use crate::cell::{is_scalar, Cell};
use crate::command::BfCommand;
use crate::error::ErrV;

verus! {

/// The ghost machine state: the tape and the pointer.
pub ghost struct MachineV {
    pub cells: Seq<Cell>,
    pub ptr: int,
}

/// The resolved feature toggles.
pub ghost struct CfgV {
    /// Cells hold the full Unicode scalar range.
    pub wide: bool,
    /// The pointer wraps at the tape ends.
    pub ptr_wrap: bool,
    /// Cell values wrap at their numeric boundary.
    pub val_wrap: bool,
}

/// One observable I/O step of a run: an output flush that went through or
/// failed, or a read that yielded a character or failed. The failure
/// events carry the sink's or source's own wording.
pub ghost enum IoEventV {
    FlushOk,
    FlushFail(Seq<char>),
    ReadOk(char),
    ReadFail(Seq<char>),
}

/// What a budgeted run comes to: a completed run, a failed run (state as
/// of the failing instruction), or a run that the budget cut short. `used`
/// counts the I/O events consumed, `out` the code points written.
pub ghost enum RunOutV {
    Halt { st: MachineV, used: nat, out: Seq<int> },
    Fail { st: MachineV, used: nat, out: Seq<int>, err: ErrV },
    Spin,
}

impl RunOutV {
    /// The I/O events this outcome consumed.
    pub open spec fn used(self) -> nat {
        match self {
            RunOutV::Halt { used, .. } => used,
            RunOutV::Fail { used, .. } => used,
            RunOutV::Spin => 0,
        }
    }
}

/// Well-formedness: a nonempty tape, the pointer on it, and every cell
/// valid and of the configured width.
pub open spec fn wf_m(cfg: CfgV, st: MachineV) -> bool {
    &&& st.cells.len() > 0
    &&& 0 <= st.ptr < st.cells.len()
    &&& forall|k: int|
        0 <= k < st.cells.len() ==> (#[trigger] st.cells[k]).is_wide() == cfg.wide
            && st.cells[k].inv()
}

/// The cell under the pointer.
pub open spec fn cur(st: MachineV) -> Cell {
    st.cells[st.ptr]
}

/// Moving the pointer forward: past the last cell it wraps to the first
/// when `ptr_wrap` is set and fails otherwise, reporting the index it
/// could not reach.
pub open spec fn mv_fwd(cfg: CfgV, st: MachineV) -> Result<MachineV, ErrV> {
    if st.ptr + 1 < st.cells.len() {
        Ok(MachineV { cells: st.cells, ptr: st.ptr + 1 })
    } else if cfg.ptr_wrap {
        Ok(MachineV { cells: st.cells, ptr: 0 })
    } else {
        Err(ErrV::PointerOutOfBounds(st.ptr + 1))
    }
}

/// Moving the pointer backward: before the first cell it wraps to the
/// last when `ptr_wrap` is set and fails otherwise, reporting index zero.
pub open spec fn mv_back(cfg: CfgV, st: MachineV) -> Result<MachineV, ErrV> {
    if st.ptr == 0 {
        if cfg.ptr_wrap {
            Ok(MachineV { cells: st.cells, ptr: st.cells.len() - 1 })
        } else {
            Err(ErrV::PointerOutOfBounds(0))
        }
    } else {
        Ok(MachineV { cells: st.cells, ptr: st.ptr - 1 })
    }
}

/// Adding one to the current cell: at the boundary it wraps when
/// `val_wrap` is set and fails otherwise, leaving the tape unchanged.
pub open spec fn inc_val(cfg: CfgV, st: MachineV) -> Result<MachineV, ErrV> {
    if cur(st).val() == cur(st).max_spec() && !cfg.val_wrap {
        Err(ErrV::ValueOutOfBounds)
    } else {
        Ok(MachineV { cells: st.cells.update(st.ptr, cur(st).inc_spec()), ptr: st.ptr })
    }
}

/// Taking one from the current cell: at zero it wraps when `val_wrap` is
/// set and fails otherwise, leaving the tape unchanged.
pub open spec fn dec_val(cfg: CfgV, st: MachineV) -> Result<MachineV, ErrV> {
    if cur(st).val() == 0 && !cfg.val_wrap {
        Err(ErrV::ValueOutOfBounds)
    } else {
        Ok(MachineV { cells: st.cells.update(st.ptr, cur(st).dec_spec()), ptr: st.ptr })
    }
}

/// The current cell holding the code point of `c`.
pub open spec fn set_cur(st: MachineV, c: char) -> MachineV {
    MachineV { cells: st.cells.update(st.ptr, cur(st).set_spec(c)), ptr: st.ptr }
}

/// The code point the output instruction writes: the full value in wide
/// mode, the low byte otherwise.
pub open spec fn print_code(cfg: CfgV, st: MachineV) -> int {
    if cfg.wide {
        cur(st).val()
    } else {
        cur(st).val() % 256
    }
}

/// `o` with `used` more events consumed and `out` written before it.
pub open spec fn out_shift(o: RunOutV, used: nat, out: Seq<int>) -> RunOutV {
    match o {
        RunOutV::Halt { st, used: u, out: o2 } => RunOutV::Halt {
            st,
            used: (used + u) as nat,
            out: out + o2,
        },
        RunOutV::Fail { st, used: u, out: o2, err } => RunOutV::Fail {
            st,
            used: (used + u) as nat,
            out: out + o2,
            err,
        },
        RunOutV::Spin => RunOutV::Spin,
    }
}

/// Runs `cmds` from `st` with the I/O oracle `io` and the loop budget
/// `fuel`: each pass a loop makes costs one unit of budget, and `Spin`
/// says the budget (or the oracle) ran out first. Apart from `Spin`, the
/// outcome is exactly one per oracle.
pub open spec fn run_cmds_v(
    cfg: CfgV,
    st: MachineV,
    cmds: Seq<BfCommand>,
    io: Seq<IoEventV>,
    fuel: nat,
) -> RunOutV
    decreases fuel, cmds.len(),
{
    if cmds.len() == 0 {
        RunOutV::Halt { st, used: 0, out: seq![] }
    } else {
        let rest = cmds.skip(1);
        match cmds[0] {
            BfCommand::IncPtr => match mv_fwd(cfg, st) {
                Ok(st1) => run_cmds_v(cfg, st1, rest, io, fuel),
                Err(e) => RunOutV::Fail { st, used: 0, out: seq![], err: e },
            },
            BfCommand::DecPtr => match mv_back(cfg, st) {
                Ok(st1) => run_cmds_v(cfg, st1, rest, io, fuel),
                Err(e) => RunOutV::Fail { st, used: 0, out: seq![], err: e },
            },
            BfCommand::IncVal => match inc_val(cfg, st) {
                Ok(st1) => run_cmds_v(cfg, st1, rest, io, fuel),
                Err(e) => RunOutV::Fail { st, used: 0, out: seq![], err: e },
            },
            BfCommand::DecVal => match dec_val(cfg, st) {
                Ok(st1) => run_cmds_v(cfg, st1, rest, io, fuel),
                Err(e) => RunOutV::Fail { st, used: 0, out: seq![], err: e },
            },
            BfCommand::Print => {
                if cfg.wide && !is_scalar(cur(st).val()) {
                    RunOutV::Fail { st, used: 0, out: seq![], err: ErrV::InvalidUtf8 }
                } else if io.len() == 0 {
                    RunOutV::Spin
                } else {
                    match io[0] {
                        IoEventV::FlushOk => out_shift(
                            run_cmds_v(cfg, st, rest, io.skip(1), fuel),
                            1,
                            seq![print_code(cfg, st)],
                        ),
                        IoEventV::FlushFail(d) => RunOutV::Fail {
                            st,
                            used: 1,
                            out: seq![],
                            err: ErrV::FlushError(d),
                        },
                        _ => RunOutV::Spin,
                    }
                }
            },
            BfCommand::Read => {
                if io.len() == 0 {
                    RunOutV::Spin
                } else {
                    match io[0] {
                        IoEventV::ReadFail(d) => RunOutV::Fail {
                            st,
                            used: 1,
                            out: seq![],
                            err: ErrV::IoError(d),
                        },
                        IoEventV::ReadOk(c) => {
                            let st1 = set_cur(st, c);
                            if io.len() < 2 {
                                RunOutV::Spin
                            } else {
                                match io[1] {
                                    IoEventV::FlushOk => out_shift(
                                        run_cmds_v(cfg, st1, rest, io.skip(2), fuel),
                                        2,
                                        seq![c as int],
                                    ),
                                    IoEventV::FlushFail(d) => RunOutV::Fail {
                                        st: st1,
                                        used: 2,
                                        out: seq![],
                                        err: ErrV::FlushError(d),
                                    },
                                    _ => RunOutV::Spin,
                                }
                            }
                        },
                        _ => RunOutV::Spin,
                    }
                }
            },
            BfCommand::Loop(body) => {
                if cur(st).val() == 0 {
                    run_cmds_v(cfg, st, rest, io, fuel)
                } else if fuel == 0 {
                    RunOutV::Spin
                } else {
                    match run_cmds_v(cfg, st, body@, io, (fuel - 1) as nat) {
                        RunOutV::Spin => RunOutV::Spin,
                        RunOutV::Fail { st: st1, used, out, err } => RunOutV::Fail {
                            st: st1,
                            used,
                            out,
                            err,
                        },
                        RunOutV::Halt { st: st1, used, out } => out_shift(
                            run_cmds_v(cfg, st1, cmds, io.skip(used as int), (fuel - 1) as nat),
                            used,
                            out,
                        ),
                    }
                }
            },
        }
    }
}

/// A run that did not spin consumed no more events than the oracle holds.
pub proof fn lemma_run_used(
    cfg: CfgV,
    st: MachineV,
    cmds: Seq<BfCommand>,
    io: Seq<IoEventV>,
    fuel: nat,
)
    requires
        !(run_cmds_v(cfg, st, cmds, io, fuel) is Spin),
    ensures
        run_cmds_v(cfg, st, cmds, io, fuel).used() <= io.len(),
    decreases fuel, cmds.len(),
{
    if cmds.len() == 0 {
    } else {
        let rest = cmds.skip(1);
        match cmds[0] {
            BfCommand::IncPtr => {
                if mv_fwd(cfg, st) is Ok {
                    lemma_run_used(cfg, mv_fwd(cfg, st)->Ok_0, rest, io, fuel);
                }
            },
            BfCommand::DecPtr => {
                if mv_back(cfg, st) is Ok {
                    lemma_run_used(cfg, mv_back(cfg, st)->Ok_0, rest, io, fuel);
                }
            },
            BfCommand::IncVal => {
                if inc_val(cfg, st) is Ok {
                    lemma_run_used(cfg, inc_val(cfg, st)->Ok_0, rest, io, fuel);
                }
            },
            BfCommand::DecVal => {
                if dec_val(cfg, st) is Ok {
                    lemma_run_used(cfg, dec_val(cfg, st)->Ok_0, rest, io, fuel);
                }
            },
            BfCommand::Print => {
                if !(cfg.wide && !is_scalar(cur(st).val())) && io.len() > 0 && io[0] is FlushOk {
                    lemma_run_used(cfg, st, rest, io.skip(1), fuel);
                }
            },
            BfCommand::Read => {
                if io.len() >= 2 && io[0] is ReadOk && io[1] is FlushOk {
                    lemma_run_used(cfg, set_cur(st, io[0]->ReadOk_0), rest, io.skip(2), fuel);
                }
            },
            BfCommand::Loop(body) => {
                if cur(st).val() == 0 {
                    lemma_run_used(cfg, st, rest, io, fuel);
                } else if fuel > 0 {
                    let rb = run_cmds_v(cfg, st, body@, io, (fuel - 1) as nat);
                    match rb {
                        RunOutV::Spin => {},
                        RunOutV::Fail { .. } => {
                            lemma_run_used(cfg, st, body@, io, (fuel - 1) as nat);
                        },
                        RunOutV::Halt { st: st1, used, out } => {
                            lemma_run_used(cfg, st, body@, io, (fuel - 1) as nat);
                            let rc = run_cmds_v(
                                cfg,
                                st1,
                                cmds,
                                io.skip(used as int),
                                (fuel - 1) as nat,
                            );
                            if !(rc is Spin) {
                                lemma_run_used(
                                    cfg,
                                    st1,
                                    cmds,
                                    io.skip(used as int),
                                    (fuel - 1) as nat,
                                );
                            }
                        },
                    }
                }
            },
        }
    }
}

} // verus!

verus! {

proof fn lemma_take_eq_pointwise(a: Seq<IoEventV>, b: Seq<IoEventV>, n: int)
    requires
        0 <= n <= a.len(),
        n <= b.len(),
        a.take(n) == b.take(n),
    ensures
        forall|k: int| 0 <= k < n ==> a[k] == b[k],
{
    assert forall|k: int| 0 <= k < n implies a[k] == b[k] by {
        assert(a.take(n)[k] == a[k]);
        assert(b.take(n)[k] == b[k]);
        assert(a.take(n)[k] == b.take(n)[k]);
    };
}

/// A run that did not spin keeps its outcome under a larger budget and
/// under any oracle that agrees on the events it consumed.
pub proof fn lemma_run_mono(
    cfg: CfgV,
    st: MachineV,
    cmds: Seq<BfCommand>,
    io: Seq<IoEventV>,
    fuel: nat,
    io2: Seq<IoEventV>,
    fuel2: nat,
)
    requires
        !(run_cmds_v(cfg, st, cmds, io, fuel) is Spin),
        fuel2 >= fuel,
        io2.len() >= run_cmds_v(cfg, st, cmds, io, fuel).used(),
        io2.take(run_cmds_v(cfg, st, cmds, io, fuel).used() as int) == io.take(
            run_cmds_v(cfg, st, cmds, io, fuel).used() as int,
        ),
    ensures
        run_cmds_v(cfg, st, cmds, io2, fuel2) == run_cmds_v(cfg, st, cmds, io, fuel),
    decreases fuel, cmds.len(),
{
    let r = run_cmds_v(cfg, st, cmds, io, fuel);
    let used = r.used();
    lemma_run_used(cfg, st, cmds, io, fuel);
    lemma_take_eq_pointwise(io2, io, used as int);
    if cmds.len() == 0 {
    } else {
        let rest = cmds.skip(1);
        match cmds[0] {
            BfCommand::IncPtr => {
                if mv_fwd(cfg, st) is Ok {
                    lemma_run_mono(cfg, mv_fwd(cfg, st)->Ok_0, rest, io, fuel, io2, fuel2);
                }
            },
            BfCommand::DecPtr => {
                if mv_back(cfg, st) is Ok {
                    lemma_run_mono(cfg, mv_back(cfg, st)->Ok_0, rest, io, fuel, io2, fuel2);
                }
            },
            BfCommand::IncVal => {
                if inc_val(cfg, st) is Ok {
                    lemma_run_mono(cfg, inc_val(cfg, st)->Ok_0, rest, io, fuel, io2, fuel2);
                }
            },
            BfCommand::DecVal => {
                if dec_val(cfg, st) is Ok {
                    lemma_run_mono(cfg, dec_val(cfg, st)->Ok_0, rest, io, fuel, io2, fuel2);
                }
            },
            BfCommand::Print => {
                if !(cfg.wide && !is_scalar(cur(st).val())) {
                    if io[0] is FlushOk {
                        let r1 = run_cmds_v(cfg, st, rest, io.skip(1), fuel);
                        lemma_run_used(cfg, st, rest, io.skip(1), fuel);
                        assert(io2.skip(1).take(r1.used() as int) =~= io.skip(1).take(
                            r1.used() as int,
                        ));
                        lemma_run_mono(cfg, st, rest, io.skip(1), fuel, io2.skip(1), fuel2);
                    }
                }
            },
            BfCommand::Read => {
                if io.len() > 0 && io[0] is ReadOk {
                    let c = io[0]->ReadOk_0;
                    let st1 = set_cur(st, c);
                    if io.len() >= 2 && io[1] is FlushOk {
                        let r1 = run_cmds_v(cfg, st1, rest, io.skip(2), fuel);
                        lemma_run_used(cfg, st1, rest, io.skip(2), fuel);
                        assert(io2.skip(2).take(r1.used() as int) =~= io.skip(2).take(
                            r1.used() as int,
                        ));
                        lemma_run_mono(cfg, st1, rest, io.skip(2), fuel, io2.skip(2), fuel2);
                    }
                }
            },
            BfCommand::Loop(body) => {
                if cur(st).val() == 0 {
                    lemma_run_mono(cfg, st, rest, io, fuel, io2, fuel2);
                } else {
                    let rb = run_cmds_v(cfg, st, body@, io, (fuel - 1) as nat);
                    lemma_run_used(cfg, st, body@, io, (fuel - 1) as nat);
                    match rb {
                        RunOutV::Spin => {},
                        RunOutV::Fail { .. } => {
                            assert(io2.take(rb.used() as int) =~= io.take(rb.used() as int));
                            lemma_run_mono(
                                cfg,
                                st,
                                body@,
                                io,
                                (fuel - 1) as nat,
                                io2,
                                (fuel2 - 1) as nat,
                            );
                        },
                        RunOutV::Halt { st: st1, used: ub, out } => {
                            assert(io2.take(rb.used() as int) =~= io.take(rb.used() as int));
                            lemma_run_mono(
                                cfg,
                                st,
                                body@,
                                io,
                                (fuel - 1) as nat,
                                io2,
                                (fuel2 - 1) as nat,
                            );
                            let rc = run_cmds_v(
                                cfg,
                                st1,
                                cmds,
                                io.skip(ub as int),
                                (fuel - 1) as nat,
                            );
                            lemma_run_used(cfg, st1, cmds, io.skip(ub as int), (fuel - 1) as nat);
                            assert(io2.skip(ub as int).take(rc.used() as int) =~= io.skip(
                                ub as int,
                            ).take(rc.used() as int));
                            lemma_run_mono(
                                cfg,
                                st1,
                                cmds,
                                io.skip(ub as int),
                                (fuel - 1) as nat,
                                io2.skip(ub as int),
                                (fuel2 - 1) as nat,
                            );
                        },
                    }
                }
            },
        }
    }
}

} // verus!

verus! {

pub proof fn lemma_out_shift_compose(o: RunOutV, u1: nat, o1: Seq<int>, u2: nat, o2: Seq<int>)
    ensures
        out_shift(out_shift(o, u2, o2), u1, o1) == out_shift(o, (u1 + u2) as nat, o1 + o2),
{
    match o {
        RunOutV::Halt { st, used, out } => {
            assert(o1 + (o2 + out) =~= (o1 + o2) + out);
        },
        RunOutV::Fail { st, used, out, err } => {
            assert(o1 + (o2 + out) =~= (o1 + o2) + out);
        },
        RunOutV::Spin => {},
    }
}

/// Sequencing: when running `c1` on exactly the events of `io1` completes,
/// running `c1 + c2` on the joined oracle runs `c1` first and continues
/// with `c2` from where it halted; when running `c1` fails, `c1 + c2`
/// fails the same way.
pub proof fn lemma_run_append(
    cfg: CfgV,
    st: MachineV,
    c1: Seq<BfCommand>,
    c2: Seq<BfCommand>,
    io1: Seq<IoEventV>,
    f1: nat,
    io2: Seq<IoEventV>,
    f2: nat,
)
    requires
        !(run_cmds_v(cfg, st, c1, io1, f1) is Spin),
        io1.len() == run_cmds_v(cfg, st, c1, io1, f1).used(),
        run_cmds_v(cfg, st, c1, io1, f1) matches RunOutV::Halt { st: st1, .. } ==> !(run_cmds_v(
            cfg,
            st1,
            c2,
            io2,
            f2,
        ) is Spin),
    ensures
        match run_cmds_v(cfg, st, c1, io1, f1) {
            RunOutV::Halt { st: st1, used, out } => run_cmds_v(
                cfg,
                st,
                c1 + c2,
                io1 + io2,
                (f1 + f2) as nat,
            ) == out_shift(run_cmds_v(cfg, st1, c2, io2, f2), used, out),
            RunOutV::Fail { st: st1, used, out, err } => run_cmds_v(
                cfg,
                st,
                c1 + c2,
                io1 + io2,
                (f1 + f2) as nat,
            ) == RunOutV::Fail { st: st1, used, out, err },
            RunOutV::Spin => true,
        },
    decreases f1, c1.len(),
{
    let r1 = run_cmds_v(cfg, st, c1, io1, f1);
    if c1.len() == 0 {
        let r2 = run_cmds_v(cfg, st, c2, io2, f2);
        assert(c1 + c2 =~= c2);
        assert(io1 + io2 =~= io2);
        lemma_run_used(cfg, st, c2, io2, f2);
        assert(io2.take(r2.used() as int) == io2.take(r2.used() as int));
        lemma_run_mono(cfg, st, c2, io2, f2, io2, (f1 + f2) as nat);
        match r2 {
            RunOutV::Halt { st: s2, used: u2, out: o2 } => {
                assert(Seq::<int>::empty() + o2 =~= o2);
            },
            RunOutV::Fail { st: s2, used: u2, out: o2, err } => {
                assert(Seq::<int>::empty() + o2 =~= o2);
            },
            RunOutV::Spin => {},
        }
    } else {
        let rest = c1.skip(1);
        assert((c1 + c2)[0] == c1[0]);
        assert((c1 + c2).skip(1) =~= rest + c2);
        match c1[0] {
            BfCommand::IncPtr => {
                if mv_fwd(cfg, st) is Ok {
                    lemma_run_append(cfg, mv_fwd(cfg, st)->Ok_0, rest, c2, io1, f1, io2, f2);
                }
            },
            BfCommand::DecPtr => {
                if mv_back(cfg, st) is Ok {
                    lemma_run_append(cfg, mv_back(cfg, st)->Ok_0, rest, c2, io1, f1, io2, f2);
                }
            },
            BfCommand::IncVal => {
                if inc_val(cfg, st) is Ok {
                    lemma_run_append(cfg, inc_val(cfg, st)->Ok_0, rest, c2, io1, f1, io2, f2);
                }
            },
            BfCommand::DecVal => {
                if dec_val(cfg, st) is Ok {
                    lemma_run_append(cfg, dec_val(cfg, st)->Ok_0, rest, c2, io1, f1, io2, f2);
                }
            },
            BfCommand::Print => {
                if !(cfg.wide && !is_scalar(cur(st).val())) {
                    assert(io1.len() >= 1);
                    assert((io1 + io2)[0] == io1[0]);
                    if io1[0] is FlushOk {
                        let r_rest = run_cmds_v(cfg, st, rest, io1.skip(1), f1);
                        assert((io1 + io2).skip(1) =~= io1.skip(1) + io2);
                        lemma_run_append(cfg, st, rest, c2, io1.skip(1), f1, io2, f2);
                        let pc = seq![print_code(cfg, st)];
                        match r_rest {
                            RunOutV::Halt { st: st1, used: u, out: o } => {
                                let r2 = run_cmds_v(cfg, st1, c2, io2, f2);
                                lemma_out_shift_compose(r2, 1, pc, u, o);
                            },
                            RunOutV::Fail { st: st1, used: u, out: o, err } => {},
                            RunOutV::Spin => {},
                        }
                    }
                }
            },
            BfCommand::Read => {
                assert(io1.len() >= 1);
                assert((io1 + io2)[0] == io1[0]);
                if io1[0] is ReadOk {
                    let c = io1[0]->ReadOk_0;
                    let st_set = set_cur(st, c);
                    assert(io1.len() >= 2);
                    assert((io1 + io2)[1] == io1[1]);
                    if io1[1] is FlushOk {
                        let r_rest = run_cmds_v(cfg, st_set, rest, io1.skip(2), f1);
                        assert((io1 + io2).skip(2) =~= io1.skip(2) + io2);
                        lemma_run_append(cfg, st_set, rest, c2, io1.skip(2), f1, io2, f2);
                        let ec = seq![c as int];
                        match r_rest {
                            RunOutV::Halt { st: st1, used: u, out: o } => {
                                let r2 = run_cmds_v(cfg, st1, c2, io2, f2);
                                lemma_out_shift_compose(r2, 2, ec, u, o);
                            },
                            RunOutV::Fail { .. } => {},
                            RunOutV::Spin => {},
                        }
                    }
                }
            },
            BfCommand::Loop(body) => {
                if cur(st).val() == 0 {
                    lemma_run_append(cfg, st, rest, c2, io1, f1, io2, f2);
                } else {
                    let rb = run_cmds_v(cfg, st, body@, io1, (f1 - 1) as nat);
                    lemma_run_used(cfg, st, body@, io1, (f1 - 1) as nat);
                    match rb {
                        RunOutV::Spin => {},
                        RunOutV::Fail { st: stb, used: ub, out: ob, err } => {
                            assert((io1 + io2).take(ub as int) =~= io1.take(ub as int));
                            lemma_run_mono(
                                cfg,
                                st,
                                body@,
                                io1,
                                (f1 - 1) as nat,
                                io1 + io2,
                                (f1 + f2 - 1) as nat,
                            );
                        },
                        RunOutV::Halt { st: stb, used: ub, out: ob } => {
                            assert((io1 + io2).take(ub as int) =~= io1.take(ub as int));
                            lemma_run_mono(
                                cfg,
                                st,
                                body@,
                                io1,
                                (f1 - 1) as nat,
                                io1 + io2,
                                (f1 + f2 - 1) as nat,
                            );
                            let rc = run_cmds_v(cfg, stb, c1, io1.skip(ub as int), (f1 - 1) as nat);
                            lemma_run_used(cfg, stb, c1, io1.skip(ub as int), (f1 - 1) as nat);
                            assert((io1 + io2).skip(ub as int) =~= io1.skip(ub as int) + io2);
                            lemma_run_append(
                                cfg,
                                stb,
                                c1,
                                c2,
                                io1.skip(ub as int),
                                (f1 - 1) as nat,
                                io2,
                                f2,
                            );
                            match rc {
                                RunOutV::Halt { st: st1, used: uc, out: oc } => {
                                    let r2 = run_cmds_v(cfg, st1, c2, io2, f2);
                                    lemma_out_shift_compose(r2, ub, ob, uc, oc);
                                },
                                RunOutV::Fail { .. } => {},
                                RunOutV::Spin => {},
                            }
                        },
                    }
                }
            },
        }
    }
}

} // verus!

verus! {

/// How many characters of input the events of `io` consume.
pub open spec fn reads_of(io: Seq<IoEventV>) -> nat
    decreases io.len(),
{
    if io.len() == 0 {
        0
    } else {
        (if io[0] is ReadOk {
            1nat
        } else {
            0nat
        }) + reads_of(io.skip(1))
    }
}

/// Whether `io` is the trace of a buffered port with `avail` characters
/// left to read: flushes go through, reads take successive characters,
/// and a read past the end fails with the buffered port's own wording.
pub open spec fn io_conforms(io: Seq<IoEventV>, avail: Seq<char>) -> bool
    decreases io.len(),
{
    if io.len() == 0 {
        true
    } else {
        match io[0] {
            IoEventV::FlushOk => io_conforms(io.skip(1), avail),
            IoEventV::FlushFail(_) => false,
            IoEventV::ReadOk(c) => avail.len() > 0 && c == avail[0] && io_conforms(
                io.skip(1),
                avail.skip(1),
            ),
            IoEventV::ReadFail(d) => avail.len() == 0 && d == "end of input"@ && io_conforms(
                io.skip(1),
                avail,
            ),
        }
    }
}

/// Conforming traces chain: a second trace over what the first left
/// conforms right after it.
pub proof fn lemma_conforms_concat(t1: Seq<IoEventV>, t2: Seq<IoEventV>, avail: Seq<char>)
    requires
        io_conforms(t1, avail),
        reads_of(t1) <= avail.len(),
        io_conforms(t2, avail.skip(reads_of(t1) as int)),
    ensures
        io_conforms(t1 + t2, avail),
        reads_of(t1 + t2) == reads_of(t1) + reads_of(t2),
    decreases t1.len(),
{
    if t1.len() == 0 {
        assert(t1 + t2 =~= t2);
        assert(avail.skip(0) =~= avail);
    } else {
        assert((t1 + t2)[0] == t1[0]);
        assert((t1 + t2).skip(1) =~= t1.skip(1) + t2);
        match t1[0] {
            IoEventV::FlushOk => {
                lemma_conforms_concat(t1.skip(1), t2, avail);
            },
            IoEventV::FlushFail(_) => {},
            IoEventV::ReadOk(c) => {
                assert(avail.skip(1).skip(reads_of(t1.skip(1)) as int) =~= avail.skip(
                    reads_of(t1) as int,
                ));
                lemma_reads_le(t1.skip(1), avail.skip(1));
                lemma_conforms_concat(t1.skip(1), t2, avail.skip(1));
            },
            IoEventV::ReadFail(_) => {
                lemma_conforms_concat(t1.skip(1), t2, avail);
            },
        }
    }
}

/// A conforming trace never reads more than is there.
pub proof fn lemma_reads_le(io: Seq<IoEventV>, avail: Seq<char>)
    requires
        io_conforms(io, avail),
    ensures
        reads_of(io) <= avail.len(),
    decreases io.len(),
{
    if io.len() == 0 {
    } else {
        match io[0] {
            IoEventV::FlushOk => {
                lemma_reads_le(io.skip(1), avail);
            },
            IoEventV::FlushFail(_) => {},
            IoEventV::ReadOk(_) => {
                lemma_reads_le(io.skip(1), avail.skip(1));
            },
            IoEventV::ReadFail(_) => {
                lemma_reads_le(io.skip(1), avail);
            },
        }
    }
}

} // verus!

verus! {

/// A conforming trace splits: any prefix conforms, and the rest
/// conforms to what the prefix left unread.
pub proof fn lemma_conforms_split(io: Seq<IoEventV>, k: int, avail: Seq<char>)
    requires
        io_conforms(io, avail),
        0 <= k <= io.len(),
    ensures
        io_conforms(io.take(k), avail),
        io_conforms(io.skip(k), avail.skip(reads_of(io.take(k)) as int)),
        reads_of(io.take(k)) <= avail.len(),
    decreases k,
{
    if k == 0 {
        assert(io.take(0) =~= Seq::<IoEventV>::empty());
        assert(io.skip(0) =~= io);
        assert(avail.skip(0) =~= avail);
    } else {
        assert(io.len() > 0);
        assert(io.take(k)[0] == io[0]);
        assert(io.take(k).skip(1) =~= io.skip(1).take(k - 1));
        assert(io.skip(k) =~= io.skip(1).skip(k - 1));
        match io[0] {
            IoEventV::FlushOk => {
                lemma_conforms_split(io.skip(1), k - 1, avail);
                assert(reads_of(io.take(k)) == reads_of(io.skip(1).take(k - 1)));
            },
            IoEventV::FlushFail(_) => {},
            IoEventV::ReadOk(c) => {
                lemma_conforms_split(io.skip(1), k - 1, avail.skip(1));
                assert(reads_of(io.take(k)) == 1 + reads_of(io.skip(1).take(k - 1)));
                assert(avail.skip(1).skip(reads_of(io.skip(1).take(k - 1)) as int) =~= avail.skip(
                    reads_of(io.take(k)) as int,
                ));
            },
            IoEventV::ReadFail(_) => {
                lemma_conforms_split(io.skip(1), k - 1, avail);
                assert(reads_of(io.take(k)) == reads_of(io.skip(1).take(k - 1)));
            },
        }
    }
}

} // verus!

verus! {

/// Buffered runs are deterministic: two complete runs of the same
/// program from the same state, each on a trace that conforms to the
/// same pending input, took the very same trace and came to the very
/// same outcome. Together with the run contract this pins a buffered
/// machine's reads, writes and final state completely.
#[verifier::rlimit(100)]
#[verifier::spinoff_prover]
pub proof fn lemma_buffered_runs_agree(
    cfg: CfgV,
    st: MachineV,
    cmds: Seq<BfCommand>,
    avail: Seq<char>,
    io1: Seq<IoEventV>,
    f1: nat,
    io2: Seq<IoEventV>,
    f2: nat,
)
    requires
        io_conforms(io1, avail),
        io_conforms(io2, avail),
        io1.len() == run_cmds_v(cfg, st, cmds, io1, f1).used(),
        io2.len() == run_cmds_v(cfg, st, cmds, io2, f2).used(),
        !(run_cmds_v(cfg, st, cmds, io1, f1) is Spin),
        !(run_cmds_v(cfg, st, cmds, io2, f2) is Spin),
    ensures
        io1 == io2,
        run_cmds_v(cfg, st, cmds, io1, f1) == run_cmds_v(cfg, st, cmds, io2, f2),
    decreases f1 + f2, cmds.len(),
{
    let r1 = run_cmds_v(cfg, st, cmds, io1, f1);
    let r2 = run_cmds_v(cfg, st, cmds, io2, f2);
    if cmds.len() == 0 {
        assert(io1 =~= io2);
    } else {
        let rest = cmds.skip(1);
        match cmds[0] {
            BfCommand::IncPtr => {
                if mv_fwd(cfg, st) is Ok {
                    lemma_buffered_runs_agree(
                        cfg,
                        mv_fwd(cfg, st)->Ok_0,
                        rest,
                        avail,
                        io1,
                        f1,
                        io2,
                        f2,
                    );
                } else {
                    assert(io1 =~= io2);
                }
            },
            BfCommand::DecPtr => {
                if mv_back(cfg, st) is Ok {
                    lemma_buffered_runs_agree(
                        cfg,
                        mv_back(cfg, st)->Ok_0,
                        rest,
                        avail,
                        io1,
                        f1,
                        io2,
                        f2,
                    );
                } else {
                    assert(io1 =~= io2);
                }
            },
            BfCommand::IncVal => {
                if inc_val(cfg, st) is Ok {
                    lemma_buffered_runs_agree(
                        cfg,
                        inc_val(cfg, st)->Ok_0,
                        rest,
                        avail,
                        io1,
                        f1,
                        io2,
                        f2,
                    );
                } else {
                    assert(io1 =~= io2);
                }
            },
            BfCommand::DecVal => {
                if dec_val(cfg, st) is Ok {
                    lemma_buffered_runs_agree(
                        cfg,
                        dec_val(cfg, st)->Ok_0,
                        rest,
                        avail,
                        io1,
                        f1,
                        io2,
                        f2,
                    );
                } else {
                    assert(io1 =~= io2);
                }
            },
            BfCommand::Print => {
                if cfg.wide && !is_scalar(cur(st).val()) {
                    assert(io1 =~= io2);
                } else {
                    assert(io1.len() > 0 && io2.len() > 0);
                    assert(io1[0] is FlushOk && io2[0] is FlushOk);
                    lemma_buffered_runs_agree(
                        cfg,
                        st,
                        rest,
                        avail,
                        io1.skip(1),
                        f1,
                        io2.skip(1),
                        f2,
                    );
                    assert(io1 =~= io2) by {
                        assert(io1.len() == 1 + io1.skip(1).len());
                        assert(io2.len() == 1 + io2.skip(1).len());
                        assert forall|k: int| 0 <= k < io1.len() implies io1[k] == io2[k] by {
                            if k == 0 {
                                assert(io1[0] == IoEventV::FlushOk);
                                assert(io2[0] == IoEventV::FlushOk);
                            } else {
                                assert(io1[k] == io1.skip(1)[k - 1]);
                                assert(io2[k] == io2.skip(1)[k - 1]);
                            }
                        };
                    };
                }
            },
            BfCommand::Read => {
                assert(io1.len() > 0 && io2.len() > 0);
                if avail.len() == 0 {
                    assert(io1[0] matches IoEventV::ReadFail(d) && d == "end of input"@);
                    assert(io2[0] matches IoEventV::ReadFail(d) && d == "end of input"@);
                    assert(io1 =~= io2);
                } else {
                    let c = avail[0];
                    assert(io1[0] == IoEventV::ReadOk(c) && io2[0] == IoEventV::ReadOk(c));
                    assert(io1.len() >= 2 && io2.len() >= 2);
                    assert(io1.skip(1)[0] == io1[1]);
                    assert(io2.skip(1)[0] == io2[1]);
                    assert(io_conforms(io1.skip(1), avail.skip(1)));
                    assert(io_conforms(io2.skip(1), avail.skip(1)));
                    assert(io1[1] is FlushOk) by {
                        if io1[1] is ReadOk || io1[1] is ReadFail {
                            assert(r1 is Spin);
                        }
                    };
                    assert(io2[1] is FlushOk) by {
                        if io2[1] is ReadOk || io2[1] is ReadFail {
                            assert(r2 is Spin);
                        }
                    };
                    assert(io1.skip(1).skip(1) =~= io1.skip(2));
                    assert(io2.skip(1).skip(1) =~= io2.skip(2));
                    lemma_buffered_runs_agree(
                        cfg,
                        set_cur(st, c),
                        rest,
                        avail.skip(1),
                        io1.skip(2),
                        f1,
                        io2.skip(2),
                        f2,
                    );
                    assert(io1 =~= io2) by {
                        assert(io1.len() == 2 + io1.skip(2).len());
                        assert(io2.len() == 2 + io2.skip(2).len());
                        assert forall|k: int| 0 <= k < io1.len() implies io1[k] == io2[k] by {
                            if k == 0 {
                            } else if k == 1 {
                                assert(io1[1] == IoEventV::FlushOk);
                                assert(io2[1] == IoEventV::FlushOk);
                            } else {
                                assert(io1[k] == io1.skip(2)[k - 2]);
                                assert(io2[k] == io2.skip(2)[k - 2]);
                            }
                        };
                    };
                }
            },
            BfCommand::Loop(body) => {
                if cur(st).val() == 0 {
                    lemma_buffered_runs_agree(cfg, st, rest, avail, io1, f1, io2, f2);
                } else {
                    let rb1 = run_cmds_v(cfg, st, body@, io1, (f1 - 1) as nat);
                    let rb2 = run_cmds_v(cfg, st, body@, io2, (f2 - 1) as nat);
                    let n1 = rb1.used();
                    let n2 = rb2.used();
                    lemma_run_used(cfg, st, body@, io1, (f1 - 1) as nat);
                    lemma_run_used(cfg, st, body@, io2, (f2 - 1) as nat);
                    assert(io1.take(n1 as int).take(n1 as int) =~= io1.take(n1 as int));
                    assert(io2.take(n2 as int).take(n2 as int) =~= io2.take(n2 as int));
                    lemma_run_mono(
                        cfg,
                        st,
                        body@,
                        io1,
                        (f1 - 1) as nat,
                        io1.take(n1 as int),
                        (f1 - 1) as nat,
                    );
                    lemma_run_mono(
                        cfg,
                        st,
                        body@,
                        io2,
                        (f2 - 1) as nat,
                        io2.take(n2 as int),
                        (f2 - 1) as nat,
                    );
                    lemma_conforms_split(io1, n1 as int, avail);
                    lemma_conforms_split(io2, n2 as int, avail);
                    lemma_buffered_runs_agree(
                        cfg,
                        st,
                        body@,
                        avail,
                        io1.take(n1 as int),
                        (f1 - 1) as nat,
                        io2.take(n2 as int),
                        (f2 - 1) as nat,
                    );
                    assert(n1 == n2);
                    match rb1 {
                        RunOutV::Spin => {},
                        RunOutV::Fail { .. } => {
                            assert(io1 =~= io1.take(n1 as int));
                            assert(io2 =~= io2.take(n2 as int));
                            assert(io1 =~= io2);
                        },
                        RunOutV::Halt { st: st1, used, out } => {
                            let avail2 = avail.skip(reads_of(io1.take(n1 as int)) as int);
                            assert(reads_of(io2.take(n2 as int)) == reads_of(
                                io1.take(n1 as int),
                            ));
                            lemma_buffered_runs_agree(
                                cfg,
                                st1,
                                cmds,
                                avail2,
                                io1.skip(n1 as int),
                                (f1 - 1) as nat,
                                io2.skip(n2 as int),
                                (f2 - 1) as nat,
                            );
                            assert(io1 =~= io1.take(n1 as int) + io1.skip(n1 as int));
                            assert(io2 =~= io2.take(n2 as int) + io2.skip(n2 as int));
                            assert(io1.take(n1 as int) + io1.skip(n1 as int) == io2.take(
                                n2 as int,
                            ) + io2.skip(n2 as int));
                            assert(io1 =~= io2);
                        },
                    }
                }
            },
        }
    }
}

} // verus!

verus! {

/// The evaluator never fails with the step-budget kind: running out of
/// budget is `Spin`, not a `Fail`.
pub proof fn lemma_run_no_steplimit(
    cfg: CfgV,
    st: MachineV,
    cmds: Seq<BfCommand>,
    io: Seq<IoEventV>,
    fuel: nat,
)
    ensures
        run_cmds_v(cfg, st, cmds, io, fuel) matches RunOutV::Fail { err, .. } ==> !(err
            is StepLimit),
    decreases fuel, cmds.len(),
{
    if cmds.len() == 0 {
    } else {
        let rest = cmds.skip(1);
        match cmds[0] {
            BfCommand::IncPtr => {
                if mv_fwd(cfg, st) is Ok {
                    lemma_run_no_steplimit(cfg, mv_fwd(cfg, st)->Ok_0, rest, io, fuel);
                }
            },
            BfCommand::DecPtr => {
                if mv_back(cfg, st) is Ok {
                    lemma_run_no_steplimit(cfg, mv_back(cfg, st)->Ok_0, rest, io, fuel);
                }
            },
            BfCommand::IncVal => {
                if inc_val(cfg, st) is Ok {
                    lemma_run_no_steplimit(cfg, inc_val(cfg, st)->Ok_0, rest, io, fuel);
                }
            },
            BfCommand::DecVal => {
                if dec_val(cfg, st) is Ok {
                    lemma_run_no_steplimit(cfg, dec_val(cfg, st)->Ok_0, rest, io, fuel);
                }
            },
            BfCommand::Print => {
                if !(cfg.wide && !is_scalar(cur(st).val())) && io.len() > 0 && io[0] is FlushOk {
                    lemma_run_no_steplimit(cfg, st, rest, io.skip(1), fuel);
                }
            },
            BfCommand::Read => {
                if io.len() >= 2 && io[0] is ReadOk && io[1] is FlushOk {
                    lemma_run_no_steplimit(cfg, set_cur(st, io[0]->ReadOk_0), rest, io.skip(2), fuel);
                }
            },
            BfCommand::Loop(body) => {
                if cur(st).val() == 0 {
                    lemma_run_no_steplimit(cfg, st, rest, io, fuel);
                } else if fuel > 0 {
                    lemma_run_no_steplimit(cfg, st, body@, io, (fuel - 1) as nat);
                    let rb = run_cmds_v(cfg, st, body@, io, (fuel - 1) as nat);
                    match rb {
                        RunOutV::Halt { st: st1, used, .. } => {
                            lemma_run_no_steplimit(
                                cfg,
                                st1,
                                cmds,
                                io.skip(used as int),
                                (fuel - 1) as nat,
                            );
                        },
                        _ => {},
                    }
                }
            },
        }
    }
}

} // verus!
