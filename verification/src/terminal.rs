//! The statusline width: which source of the terminal width wins, the
//! reserved margin, and the walk up the process tree that finds a terminal.
//!
//! A statusline command runs as a piped child without a controlling terminal
//! of its own, so the width is recovered from the first ancestor process that
//! has one. The walk's decisions are made here; the process and terminal
//! queries themselves are made by the caller and handed in.
use crate::config::CshipConfig;
use vstd::prelude::*;

verus! {

/// Fallback width when nothing else is known. 80 is the universal terminal default.
pub const DEFAULT_WIDTH: u16 = 80;

/// Columns the host reserves around the statusline (~2 left + 1 right), subtracted
/// from the raw terminal width. Overridable via `[cship] width_offset`.
pub const DEFAULT_OFFSET: u16 = 3;

/// At most this many processes (self, parent, ...) are inspected.
pub const MAX_ANCESTORS: u32 = 16;

/// `raw - offset`, but never below 1.
pub open spec fn offset_width(raw: u16, offset: u16) -> u16 {
    if raw - offset >= 1 {
        (raw - offset) as u16
    } else {
        1
    }
}

/// Subtract the reserved-margin offset from a raw terminal width, clamped to ≥1.
pub fn apply_offset(raw: u16, offset: u16) -> (w: u16)
    ensures
        w == offset_width(raw, offset),
{
    let w = raw.saturating_sub(offset);
    if w > 1 {
        w
    } else {
        1
    }
}

/// The raw width: the detected terminal width, else `$COLUMNS`, else
/// `[cship] width`, else 80.
pub open spec fn raw_width(detected: Option<u16>, env_columns: Option<u16>, cfg: CshipConfig) -> u16 {
    match detected {
        Some(w) => w,
        None => match env_columns {
            Some(w) => w,
            None => match cfg.width {
                Some(w) => w,
                None => DEFAULT_WIDTH,
            },
        },
    }
}

/// The usable statusline width in columns.
///
/// Resolution order: detected terminal width → `$COLUMNS` → `[cship] width` → 80,
/// then minus `[cship] width_offset` (default 3). Never returns 0.
/// `detected` is what the ancestor walk found; `env_columns` is `$COLUMNS`
/// read as a number (consulted only when nothing was detected).
pub fn statusline_width(detected: Option<u16>, env_columns: Option<u16>, cfg: &CshipConfig) -> (w:
    u16)
    ensures
        w == offset_width(
            raw_width(detected, env_columns, *cfg),
            match cfg.width_offset {
                Some(o) => o,
                None => DEFAULT_OFFSET,
            },
        ),
{
    let raw = match detected {
        Some(w) => w,
        None => match env_columns {
            Some(w) => w,
            None => match cfg.width {
                Some(w) => w,
                None => DEFAULT_WIDTH,
            },
        },
    };
    let offset = match cfg.width_offset {
        Some(o) => o,
        None => DEFAULT_OFFSET,
    };
    apply_offset(raw, offset)
}

// ---------------------------------------------------------------------------
// The ancestor walk
// ---------------------------------------------------------------------------

/// What the walk needs next.
#[derive(Clone, Copy, Debug, PartialEq, Eq)]
pub enum ProbeStep {
    /// Read the parent pid and the controlling-terminal device of this pid.
    InspectProcess(i32),
    /// Read the column count of the terminal with this device number.
    ReadColumns(u64),
    /// The walk is over, with the width found, if any.
    Finished(Option<u16>),
}

/// The state of the walk from this process up to the first ancestor whose
/// controlling terminal reports a width.
#[derive(Clone, Copy, Debug, PartialEq, Eq)]
pub struct TerminalProbe {
    /// The process being inspected.
    pub pid: i32,
    /// Its parent, once its details were read.
    pub parent: i32,
    /// How many processes were inspected before this one.
    pub visited: u32,
}

/// A device number that names a controlling terminal: 0 and `u32::MAX`
/// (`NODEV`) both mean "none".
pub open spec fn is_tty_device(dev: u64) -> bool {
    dev != 0 && dev != 0xffff_ffff
}

impl TerminalProbe {
    /// Fewer than `MAX_ANCESTORS` processes were inspected before this one.
    pub open spec fn wf(self) -> bool {
        self.visited < MAX_ANCESTORS
    }
}

/// Move on from `p` without a width: stop at the root, at a missing or
/// self-referencing parent, or once `MAX_ANCESTORS` processes were inspected;
/// else inspect the parent.
pub open spec fn moved_on(p: TerminalProbe) -> (TerminalProbe, ProbeStep) {
    if p.pid <= 1 || p.parent <= 0 || p.parent == p.pid || p.visited >= MAX_ANCESTORS - 1 {
        (p, ProbeStep::Finished(None))
    } else {
        (
            TerminalProbe { pid: p.parent, parent: p.parent, visited: (p.visited + 1) as u32 },
            ProbeStep::InspectProcess(p.parent),
        )
    }
}

/// The walk after the inspected process's details arrive: unreadable
/// details end it without a width; a terminal device is read next; without
/// one the walk moves on.
pub open spec fn after_process(p: TerminalProbe, info: Option<(i32, u64)>) -> (TerminalProbe, ProbeStep) {
    match info {
        None => (p, ProbeStep::Finished(None)),
        Some((ppid, dev)) => {
            let q = TerminalProbe { parent: ppid, ..p };
            if is_tty_device(dev) {
                (q, ProbeStep::ReadColumns(dev))
            } else {
                moved_on(q)
            }
        },
    }
}

/// The walk after the terminal's column count arrives: a positive count ends
/// it with that width; otherwise the walk moves on.
pub open spec fn after_columns(p: TerminalProbe, cols: Option<u16>) -> (TerminalProbe, ProbeStep) {
    match cols {
        Some(c) => if c > 0 {
            (p, ProbeStep::Finished(Some(c)))
        } else {
            moved_on(p)
        },
        None => moved_on(p),
    }
}

impl TerminalProbe {
    /// Start at this process: inspect it first.
    pub fn start(self_pid: i32) -> (r: (TerminalProbe, ProbeStep))
        ensures
            r.0 == (TerminalProbe { pid: self_pid, parent: 0, visited: 0 }),
            r.1 == ProbeStep::InspectProcess(self_pid),
    {
        (TerminalProbe { pid: self_pid, parent: 0, visited: 0 }, ProbeStep::InspectProcess(self_pid))
    }

    fn move_on(&mut self) -> (step: ProbeStep)
        ensures
            (*final(self), step) == moved_on(*old(self)),
    {
        if self.pid <= 1 || self.parent <= 0 || self.parent == self.pid || self.visited
            >= MAX_ANCESTORS - 1 {
            ProbeStep::Finished(None)
        } else {
            self.pid = self.parent;
            self.visited = self.visited + 1;
            ProbeStep::InspectProcess(self.pid)
        }
    }

    /// The inspected process's details arrived: its parent pid and its
    /// controlling-terminal device, or `None` when they could not be read.
    pub fn on_process(&mut self, info: Option<(i32, u64)>) -> (step: ProbeStep)
        ensures
            (*final(self), step) == after_process(*old(self), info),
    {
        match info {
            None => ProbeStep::Finished(None),
            Some((ppid, dev)) => {
                self.parent = ppid;
                if dev != 0 && dev != 0xffff_ffff {
                    ProbeStep::ReadColumns(dev)
                } else {
                    self.move_on()
                }
            },
        }
    }

    /// The terminal's column count arrived, or `None` when it could not be read.
    pub fn on_columns(&mut self, cols: Option<u16>) -> (step: ProbeStep)
        ensures
            (*final(self), step) == after_columns(*old(self), cols),
    {
        match cols {
            Some(c) => if c > 0 {
                ProbeStep::Finished(Some(c))
            } else {
                self.move_on()
            },
            None => self.move_on(),
        }
    }
}

// ---------------------------------------------------------------------------
// Laws
// ---------------------------------------------------------------------------

/// The statusline is never 0 columns wide, and never wider than the raw width
/// (unless the raw width is 0).
pub proof fn law_width_never_zero(raw: u16, offset: u16)
    ensures
        offset_width(raw, offset) >= 1,
        raw >= 1 ==> offset_width(raw, offset) <= raw,
        raw - offset >= 1 ==> offset_width(raw, offset) == raw - offset,
{
}

/// Each step of the walk keeps it within `MAX_ANCESTORS` inspected processes:
/// a new inspection counts one more process, a terminal read stays at the
/// same process, and nothing is inspected past the bound.
pub proof fn law_walk_is_bounded(p: TerminalProbe, info: Option<(i32, u64)>, cols: Option<u16>)
    requires
        p.wf(),
    ensures
        after_process(p, info).0.wf(),
        after_columns(p, cols).0.wf(),
        after_process(p, info).1 matches ProbeStep::InspectProcess(q) ==> after_process(
            p,
            info,
        ).0.visited == p.visited + 1 && after_process(p, info).0.pid == q,
        after_process(p, info).1 is ReadColumns ==> after_process(p, info).0.visited == p.visited
            && after_process(p, info).0.pid == p.pid,
        after_columns(p, cols).1 matches ProbeStep::InspectProcess(q) ==> after_columns(
            p,
            cols,
        ).0.visited == p.visited + 1 && after_columns(p, cols).0.pid == q,
        !(after_columns(p, cols).1 is ReadColumns),
{
}

/// The walk starts in its invariant, at this process.
pub proof fn law_walk_starts_here(self_pid: i32)
    ensures
        (TerminalProbe { pid: self_pid, parent: 0, visited: 0 }).wf(),
{
}

/// A width comes only from a terminal's column count, and only when it is
/// positive: process details alone never end the walk with a width.
pub proof fn law_walk_reports_positive_width(
    p: TerminalProbe,
    info: Option<(i32, u64)>,
    cols: Option<u16>,
)
    ensures
        !(after_process(p, info).1 matches ProbeStep::Finished(Some(_))),
        after_columns(p, cols).1 matches ProbeStep::Finished(Some(c)) ==> cols == Some(c) && c > 0,
{
}

} // verus!
