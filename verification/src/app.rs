//! Argument carriers for the command-line surface.  Parsing the command
//! line and reading the clock live with the caller; this module holds the
//! resolved values and computes the schedule window from them.
use vstd::prelude::*;

use crate::time::DateTimeOfDay;
use crate::time::dtod_le;
use crate::time::wf_dtod;

verus! {

/// Where the stored data lives.
#[derive(Debug)]
pub struct RootArguments {
    root: String,
}

impl RootArguments {
    /// Carries a resolved root directory.
    pub fn new(root: String) -> (r: RootArguments)
        ensures
            r.spec_root() == root@,
    {
        RootArguments { root }
    }

    /// The root directory.
    pub closed spec fn spec_root(&self) -> Seq<char> {
        self.root@
    }

    /// The root directory.
    pub fn root(&self) -> (r: &str)
        ensures
            r@ == self.spec_root(),
    {
        self.root.as_str()
    }
}

/// Which readout a report prints.
#[derive(Clone, Copy, Debug, PartialEq, Eq, Structural)]
pub enum DisplayMode {
    Plumbing,
    Porcelain,
}

/// Carries the chosen readout.
#[derive(Debug)]
pub struct DisplayArguments {
    mode: DisplayMode,
}

impl DisplayArguments {
    /// Carries a resolved display mode.
    pub fn new(mode: DisplayMode) -> (r: DisplayArguments)
        ensures
            r.spec_display() == mode,
    {
        DisplayArguments { mode }
    }

    /// The chosen mode.
    pub closed spec fn spec_display(&self) -> DisplayMode {
        self.mode
    }

    /// The chosen mode.
    pub fn display(&self) -> (r: DisplayMode)
        ensures
            r == self.spec_display(),
    {
        self.mode
    }
}

impl Default for DisplayArguments {
    /// The human-readable readout, unless asked otherwise.
    fn default() -> (r: DisplayArguments)
        ensures
            r.spec_display() == DisplayMode::Porcelain,
    {
        DisplayArguments { mode: DisplayMode::Porcelain }
    }
}

/// Whether a window runs forward or backward from today.
#[derive(Debug, PartialEq, Eq, Structural)]
pub enum WindowDirection {
    Forward,
    Backward,
}

/// Carries the window bounds of a report, either given or defaulted.
#[derive(Debug)]
pub struct WindowArguments {
    direction: WindowDirection,
    start: Option<DateTimeOfDay>,
    limit: Option<DateTimeOfDay>,
}

impl WindowArguments {
    /// Carries resolved window bounds; a missing bound is defaulted against
    /// the clock when the window is computed.
    pub fn new(
        dir: WindowDirection,
        start: Option<DateTimeOfDay>,
        limit: Option<DateTimeOfDay>,
    ) -> (r: WindowArguments)
        ensures
            r.spec_direction() == dir,
            r.spec_start() == start,
            r.spec_limit() == limit,
    {
        WindowArguments { direction: dir, start, limit }
    }

    /// The direction of the window.
    pub closed spec fn spec_direction(&self) -> WindowDirection {
        self.direction
    }

    /// The given start, if any.
    pub closed spec fn spec_start(&self) -> Option<DateTimeOfDay> {
        self.start
    }

    /// The given limit, if any.
    pub closed spec fn spec_limit(&self) -> Option<DateTimeOfDay> {
        self.limit
    }

    /// The resolved start bound: the given one, or today.
    pub open spec fn resolved_start(&self, today: DateTimeOfDay) -> DateTimeOfDay {
        match self.spec_start() {
            Some(x) => x,
            None => today,
        }
    }

    /// The resolved far bound: the given one, or seven days out in the
    /// window's direction from the resolved start.
    pub open spec fn resolved_limit(&self, today: DateTimeOfDay) -> DateTimeOfDay {
        match self.spec_limit() {
            Some(x) => x,
            None => {
                let s = self.resolved_start(today);
                if self.spec_direction() == WindowDirection::Forward {
                    DateTimeOfDay { day: (s.day + 7) as i64, when: s.when }
                } else {
                    DateTimeOfDay { day: (s.day - 7) as i64, when: s.when }
                }
            },
        }
    }

    /// The window `(earlier, later)` that the resolved bounds span.  A
    /// forward window runs from the start to the limit; a backward window is
    /// handed back with the bounds swapped into ascending order.
    pub fn window(&self, today: DateTimeOfDay) -> (r: (DateTimeOfDay, DateTimeOfDay))
        requires
            wf_dtod(today),
            self.spec_start() matches Some(s) ==> wf_dtod(s),
            self.spec_limit() matches Some(l) ==> wf_dtod(l),
            self.spec_direction() == WindowDirection::Forward ==> dtod_le(
                self.resolved_start(today),
                self.resolved_limit(today),
            ),
            self.spec_direction() == WindowDirection::Backward ==> dtod_le(
                self.resolved_limit(today),
                self.resolved_start(today),
            ),
        ensures
            self.spec_direction() == WindowDirection::Forward ==> r == (
                self.resolved_start(today),
                self.resolved_limit(today),
            ),
            self.spec_direction() == WindowDirection::Backward ==> r == (
                self.resolved_limit(today),
                self.resolved_start(today),
            ),
    {
        let start = match self.start {
            Some(x) => x,
            None => today,
        };
        let limit = match self.limit {
            Some(x) => x,
            None => {
                match self.direction {
                    WindowDirection::Forward => DateTimeOfDay {
                        day: start.day + 7,
                        when: start.when,
                    },
                    WindowDirection::Backward => DateTimeOfDay {
                        day: start.day - 7,
                        when: start.when,
                    },
                }
            },
        };
        match self.direction {
            WindowDirection::Forward => (start, limit),
            WindowDirection::Backward => (limit, start),
        }
    }
}

} // verus!
