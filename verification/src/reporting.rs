//! Schedules and reports computed over the loaded rhythms and events.
use vstd::prelude::*;

pub mod basic_schedule;
pub mod health_check;
pub mod schedule_convergence;
pub mod smooth_schedule;

use crate::cadence::Event;
use crate::cadence::ev_like;
use crate::cadence::event_repr_text;
use crate::cadence::event_represented;
use crate::cadence::events_all_represented;
use crate::cadence::from_events;
use crate::cadence::sort_events_by_when;
use crate::time::dtod_le;

verus! {

/// A schedule replayed from already-recorded events.
pub struct FileSchedule {
    events: Vec<Event>,
}

impl FileSchedule {
    /// The recorded events, in the order given.
    pub closed spec fn events_seq(&self) -> Seq<Event> {
        self.events@
    }

    /// Every held event is well formed.
    pub open spec fn wf(&self) -> bool {
        forall|i: int|
            0 <= i < self.events_seq().len() ==> (#[trigger] self.events_seq()[i]).item.wf()
                && crate::time::wf_dtod(self.events_seq()[i].when)
    }

    /// Wraps a list of recorded events.
    pub fn new(events: Vec<Event>) -> (r: FileSchedule)
        ensures
            r.events_seq() == events@,
    {
        FileSchedule { events }
    }

    /// The structured readout: the events in ascending date order, stably.
    pub fn plumbing(&self) -> (r: Vec<Event>)
        requires
            self.wf(),
        ensures
            r@.len() == self.events_seq().len(),
            forall|i: int, j: int|
                0 <= i < j < r@.len() ==> dtod_le((#[trigger] r@[i]).when, (#[trigger] r@[j]).when),
            forall|i: int| 0 <= i < r@.len() ==> from_events(#[trigger] r@[i], self.events_seq()),
            events_all_represented(r@, self.events_seq()),
    {
        let n = self.events.len();
        let mut copy: Vec<Event> = Vec::new();
        let mut i: usize = 0;
        while i < n
            invariant
                0 <= i <= n,
                n == self.events_seq().len(),
                self.wf(),
                copy@.len() == i,
                forall|j: int| 0 <= j < i ==> ev_like(#[trigger] copy@[j], self.events_seq()[j]),
                forall|j: int| 0 <= j < i ==> (#[trigger] copy@[j]).item.wf(),
            decreases n - i,
        {
            copy.push(self.events[i].dup());
            i = i + 1;
        }
        let sorted = sort_events_by_when(copy);
        proof {
            assert forall|k: int| 0 <= k < sorted@.len() implies from_events(
                #[trigger] sorted@[k],
                self.events_seq(),
            ) by {
                let j = choose|j: int| 0 <= j < copy@.len() && ev_like(sorted@[k], copy@[j]);
                assert(ev_like(copy@[j], self.events_seq()[j]));
            }
            assert forall|j: int| 0 <= j < self.events_seq().len() implies event_represented(
                sorted@,
                #[trigger] self.events_seq()[j],
            ) by {
                assert(event_represented(sorted@, copy@[j]));
                let k = choose|k: int|
                    0 <= k < sorted@.len() && ev_like(#[trigger] sorted@[k], copy@[j]);
                assert(ev_like(sorted@[k], self.events_seq()[j]));
            }
        }
        sorted
    }

    /// The human-readable readout: the display form of each event, in the
    /// same order as the structured readout.
    pub fn porcelain(&self) -> (r: Vec<String>)
        requires
            self.wf(),
        ensures
            r@.len() == self.events_seq().len(),
            forall|k: int|
                0 <= k < r@.len() ==> line_of_some_event((#[trigger] r@[k])@, self.events_seq()),
    {
        let beats = self.plumbing();
        let n = beats.len();
        let mut out: Vec<String> = Vec::new();
        let mut i: usize = 0;
        while i < n
            invariant
                0 <= i <= n,
                n == beats@.len(),
                self.wf(),
                forall|j: int|
                    0 <= j < beats@.len() ==> from_events(#[trigger] beats@[j], self.events_seq()),
                out@.len() == i,
                forall|k: int|
                    0 <= k < out@.len() ==> line_of_some_event(
                        (#[trigger] out@[k])@,
                        self.events_seq(),
                    ),
            decreases n - i,
        {
            proof {
                let j = choose|j: int|
                    0 <= j < self.events_seq().len() && ev_like(
                        beats@[i as int],
                        self.events_seq()[j],
                    );
                assert(crate::time::wf_dtod(beats@[i as int].when));
                assert(event_repr_text(beats@[i as int]) =~= event_repr_text(
                    self.events_seq()[j],
                ));
            }
            out.push(beats[i].repr());
            proof {
                let j = choose|j: int|
                    0 <= j < self.events_seq().len() && ev_like(
                        beats@[i as int],
                        self.events_seq()[j],
                    );
                assert(out@.last()@ == event_repr_text(self.events_seq()[j]));
                assert(line_of_some_event(out@.last()@, self.events_seq()));
            }
            i = i + 1;
        }
        out
    }
}

/// Whether a line is the display text of one of the given events.
pub open spec fn line_of_some_event(s: Seq<char>, events: Seq<Event>) -> bool {
    exists|j: int| 0 <= j < events.len() && s == event_repr_text(#[trigger] events[j])
}

} // verus!
