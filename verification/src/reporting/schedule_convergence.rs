//! An estimate of when the schedule brings the rhythms back into
//! compliance.
use vstd::prelude::*;

use crate::cadence::Cadence;
use crate::cadence::Event;
use crate::reporting::health_check::all_rhythms;
use crate::rhythms::Rhythm;
use crate::time::DateTimeOfDay;
use crate::time::dtod_lt;
use crate::time::wf_dtod;

verus! {

/// The first scheduled occurrence for an identifier: scanning in order, a
/// strictly earlier match replaces the current one, so the earliest (and
/// among equals the first) wins.
pub open spec fn spec_first_idx(s: Seq<Event>, id: Seq<char>) -> Option<int>
    decreases s.len(),
{
    if s.len() == 0 {
        None
    } else {
        let prev = spec_first_idx(s.drop_last(), id);
        let ev = s.last();
        match prev {
            Some(p) => if ev.id@ == id && dtod_lt(ev.when, s[p].when) {
                Some(s.len() - 1)
            } else {
                prev
            },
            None => if ev.id@ == id {
                Some(s.len() - 1)
            } else {
                None
            },
        }
    }
}

proof fn lemma_first_idx_range(s: Seq<Event>, id: Seq<char>)
    ensures
        spec_first_idx(s, id) matches Some(p) ==> 0 <= p < s.len(),
    decreases s.len(),
{
    if s.len() > 0 {
        lemma_first_idx_range(s.drop_last(), id);
    }
}

/// The first scheduled occurrence of a rhythm in a structured readout.
pub fn first_in_schedule(sched: &Vec<Event>, id: crate::id::ID) -> (r: Option<DateTimeOfDay>)
    ensures
        r is Some <==> spec_first_idx(sched@, id@) is Some,
        r matches Some(w) ==> spec_first_idx(sched@, id@) matches Some(p) && w == sched@[p].when,
{
    let n = sched.len();
    let mut best: Option<usize> = None;
    let mut i: usize = 0;
    while i < n
        invariant
            0 <= i <= n,
            n == sched@.len(),
            match best {
                Some(b) => 0 <= b < i && spec_first_idx(sched@.take(i as int), id@) == Some(
                    b as int,
                ),
                None => spec_first_idx(sched@.take(i as int), id@) is None,
            },
        decreases n - i,
    {
        proof {
            let t = sched@.take(i as int + 1);
            assert(t.drop_last() =~= sched@.take(i as int));
            assert(t.last() == sched@[i as int]);
        }
        let matches_id = sched[i].id.eq(&id);
        match best {
            Some(b) => {
                if matches_id && sched[i].when.lt(&sched[b].when) {
                    best = Some(i);
                }
            },
            None => {
                if matches_id {
                    best = Some(i);
                }
            },
        }
        i = i + 1;
    }
    proof {
        assert(sched@.take(n as int) =~= sched@);
    }
    match best {
        Some(b) => Some(sched[b].when),
        None => None,
    }
}

/// How one rhythm moves the horizon: a rhythm already behind (its next
/// occurrence after its latest completion lies before the boundary) whose
/// first scheduled occurrence lies beyond the boundary moves it there; a
/// never-done rhythm with a scheduled occurrence no earlier than the
/// horizon moves it there; anything else leaves it.
pub open spec fn horizon_step(
    h: DateTimeOfDay,
    r: Rhythm,
    events: Seq<Event>,
    sched: Seq<Event>,
    boundary: DateTimeOfDay,
) -> DateTimeOfDay {
    let ls = crate::cadence::spec_latest_idx(events, r.spec_id(), Some(boundary));
    let ns = spec_first_idx(sched, r.spec_id());
    match (ls, ns) {
        (Some(p), Some(q)) => match crate::rhythms::spec_next_dtod(r, events[p].when) {
            Some(next) => if dtod_lt(next, boundary) && dtod_lt(boundary, sched[q].when) {
                sched[q].when
            } else {
                h
            },
            None => h,
        },
        (None, Some(q)) => if !dtod_lt(sched[q].when, h) {
            sched[q].when
        } else {
            h
        },
        (Some(_), None) => h,
        (None, None) => h,
    }
}

/// The horizon after walking a rhythm list, each rhythm applied in order.
pub open spec fn spec_horizon(
    rs: Seq<Rhythm>,
    events: Seq<Event>,
    sched: Seq<Event>,
    boundary: DateTimeOfDay,
    init: DateTimeOfDay,
) -> DateTimeOfDay
    decreases rs.len(),
{
    if rs.len() == 0 {
        init
    } else {
        horizon_step(
            spec_horizon(rs.drop_last(), events, sched, boundary, init),
            rs.last(),
            events,
            sched,
            boundary,
        )
    }
}

/// Estimates the horizon at which the schedule restores compliance: the
/// latest relevant first-scheduled occurrence across the rhythms.  The
/// result is a date of the schedule or of the history, or the default date
/// when nothing moves the horizon.
pub fn convergence(cadence: &Cadence, sched: &Vec<Event>, boundary: DateTimeOfDay) -> (r:
    DateTimeOfDay)
    requires
        cadence.events.wf(),
        wf_dtod(boundary),
        forall|i: int|
            0 <= i < sched@.len() ==> 1 <= (#[trigger] sched@[i]).when.day
                <= crate::time::CIVIL_RANGE,
    ensures
        1 <= r.day <= crate::time::CIVIL_RANGE,
        r == spec_horizon(
            all_rhythms(cadence.rhythms),
            cadence.events.events_seq(),
            sched@,
            boundary,
            crate::time::spec_default_dtod(),
        ),
{
    let mut horizon = DateTimeOfDay::default();
    let rhythms = cadence.rhythms.rhythms();
    let ghost rs = all_rhythms(cadence.rhythms);
    let ghost evs = cadence.events.events_seq();
    let n = rhythms.len();
    let mut i: usize = 0;
    proof {
        assert(rs.take(0) =~= Seq::<Rhythm>::empty());
    }
    while i < n
        invariant
            0 <= i <= n,
            n == rhythms@.len(),
            rhythms@ == rs,
            rs == all_rhythms(cadence.rhythms),
            evs == cadence.events.events_seq(),
            cadence.events.wf(),
            wf_dtod(boundary),
            forall|k: int|
                0 <= k < sched@.len() ==> 1 <= (#[trigger] sched@[k]).when.day
                    <= crate::time::CIVIL_RANGE,
            1 <= horizon.day <= crate::time::CIVIL_RANGE,
            horizon == spec_horizon(
                rs.take(i as int),
                evs,
                sched@,
                boundary,
                crate::time::spec_default_dtod(),
            ),
        decreases n - i,
    {
        let rhythm = &rhythms[i];
        proof {
            let t = rs.take(i as int + 1);
            assert(t.drop_last() =~= rs.take(i as int));
            assert(t.last() == rs[i as int]);
        }
        let last_seen = cadence.events.latest_event_before(rhythm.id(), boundary);
        let next_scheduled = first_in_schedule(sched, rhythm.id());
        match (last_seen, next_scheduled) {
            (Some(ls), Some(ns)) => {
                // A rhythm already behind moves the horizon to the point
                // where the schedule catches it up.
                proof {
                    crate::cadence::lemma_latest_idx_range(evs, rhythm.spec_id(), Some(boundary));
                    assert(wf_dtod(ls.when));
                    lemma_first_idx_range(sched@, rhythm.spec_id());
                }
                match rhythm.next_beat(ls.when) {
                    Some(next) => {
                        if next.lt(&boundary) && boundary.lt(&ns) {
                            horizon = ns;
                        }
                    },
                    None => {},
                }
            },
            (None, Some(ns)) => {
                proof {
                    lemma_first_idx_range(sched@, rhythm.spec_id());
                }
                if !ns.lt(&horizon) {
                    horizon = ns;
                }
            },
            (Some(_), None) => {
                // seen before, but absent from the schedule
            },
            (None, None) => {
                // a new rhythm not yet on the schedule
            },
        }
        i = i + 1;
    }
    proof {
        assert(rs.take(n as int) =~= rs);
    }
    horizon
}

} // verus!
