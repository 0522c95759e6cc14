//! A scheduler for recurring obligations ("rhythms"): daily, monthly by day
//! of month, weekly by weekday, and every-N-days.  The engine distributes each
//! rhythm's occurrences across a bounded date window under an adaptive
//! per-day capacity, so that no single day is overloaded, while honouring the
//! tolerance each rhythm has for being moved earlier or later than its ideal
//! date.
use vstd::prelude::*;

pub mod command_words;
pub mod app;
pub mod cadence;
pub mod id;
pub mod line_item;
pub mod reporting;
pub mod rhythms;
pub mod strutil;
pub mod time;
pub mod util;
pub mod writer;

pub use crate::cadence::Cadence;
pub use crate::cadence::Event;
pub use crate::cadence::Events;
pub use crate::cadence::Rhythms;
pub use crate::id::ID;
pub use crate::time::DateTimeOfDay;
pub use crate::time::TimeOfDay;
pub use crate::writer::Writer;

verus! {

/// Errors raised by this library.
///
/// `InvalidWindow` is the only error the scheduling engine itself raises: the
/// window's start must lie strictly before its limit.  `StringErrorXXX`
/// carries the message of a data-level failure (an unparseable field in a
/// stored record).
#[derive(Debug)]
pub enum Error {
    InvalidWindow,
    StringErrorXXX(String),
}

} // verus!
