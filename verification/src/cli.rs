//! Metric selection and the output formats.
use vstd::prelude::*;

verus! {

/// Output format.
#[derive(Copy, Clone, Debug, PartialEq, Eq)]
pub enum Format {
    Human,
    Json,
    Table,
}

/// Which metrics to report. Separate from the command-line arguments so the
/// collector need not re-derive "no flags means all".
#[derive(Copy, Clone, Debug, PartialEq, Eq)]
pub struct Selection {
    pub cpu: bool,
    pub mem: bool,
    pub pids: bool,
    pub io: bool,
}

impl Selection {
    /// CPU and IO are monotonic counters and need two samples around a sleep.
    /// Memory and PIDs do not, so a memory-only run must not sleep at all.
    pub fn needs_sampling(&self) -> (r: bool)
        ensures
            r == (self.cpu || self.io),
    {
        self.cpu || self.io
    }
}

/// Whether no metric flag is set.
pub open spec fn no_flag(cpu: bool, mem: bool, pids: bool, io: bool) -> bool {
    !cpu && !mem && !pids && !io
}

/// The metrics that the flags select: those flagged, or all four when no
/// flag is given.
pub fn selection(cpu: bool, mem: bool, pids: bool, io: bool) -> (s: Selection)
    ensures
        no_flag(cpu, mem, pids, io) ==> s == (Selection { cpu: true, mem: true, pids: true, io: true }),
        !no_flag(cpu, mem, pids, io) ==> s == (Selection { cpu, mem, pids, io }),
        s.cpu || s.mem || s.pids || s.io,
{
    if cpu || mem || pids || io {
        Selection { cpu, mem, pids, io }
    } else {
        Selection { cpu: true, mem: true, pids: true, io: true }
    }
}

} // verus!
