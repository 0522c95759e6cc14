//! A coarse health score over the completion history: how far behind the
//! rhythms have fallen, and how many have never been done at all.
use vstd::prelude::*;

use crate::cadence::Cadence;
use crate::cadence::Event;
use crate::rhythms::Rhythm;
use crate::time::DateTimeOfDay;
use crate::time::dtod_lt;
use crate::time::wf_dtod;

verus! {

/// The score: total days of delay, and the number of rhythms never done.
#[derive(Default)]
pub struct Score {
    pub value: u64,
    pub never: u64,
}

/// The days a rhythm trails the boundary: if its next occurrence after its
/// latest completion before the boundary still lies before the boundary,
/// the days between them; otherwise nothing.
pub open spec fn rhythm_delay(r: Rhythm, events: Seq<Event>, boundary: DateTimeOfDay) -> int {
    match crate::cadence::spec_latest_idx(events, r.spec_id(), Some(boundary)) {
        None => 0,
        Some(p) => match crate::rhythms::spec_next_dtod(r, events[p].when) {
            Some(next) => if dtod_lt(next, boundary) {
                boundary.day - next.day
            } else {
                0
            },
            None => 0,
        },
    }
}

/// One for a rhythm with no completion before the boundary.
pub open spec fn rhythm_never(r: Rhythm, events: Seq<Event>, boundary: DateTimeOfDay) -> int {
    if crate::cadence::spec_latest_idx(events, r.spec_id(), Some(boundary)) is None {
        1
    } else {
        0
    }
}

/// The total delay of a rhythm list.
pub open spec fn delay_sum(rs: Seq<Rhythm>, events: Seq<Event>, boundary: DateTimeOfDay) -> int
    decreases rs.len(),
{
    if rs.len() == 0 {
        0
    } else {
        delay_sum(rs.drop_last(), events, boundary) + rhythm_delay(rs.last(), events, boundary)
    }
}

/// How many rhythms of a list were never done before the boundary.
pub open spec fn never_sum(rs: Seq<Rhythm>, events: Seq<Event>, boundary: DateTimeOfDay) -> int
    decreases rs.len(),
{
    if rs.len() == 0 {
        0
    } else {
        never_sum(rs.drop_last(), events, boundary) + rhythm_never(rs.last(), events, boundary)
    }
}

proof fn lemma_delay_nonneg(r: Rhythm, events: Seq<Event>, boundary: DateTimeOfDay)
    ensures
        rhythm_delay(r, events, boundary) >= 0,
{
}

/// All rhythms of the set, in the readout order.
pub open spec fn all_rhythms(rules: crate::cadence::Rhythms) -> Seq<Rhythm> {
    rules.dailies_seq().map_values(|d: crate::rhythms::Daily| Rhythm::Daily(d))
        + rules.monthlies_seq().map_values(|m: crate::rhythms::Monthly| Rhythm::Monthly(m))
        + rules.week_dailies_seq().map_values(
        |w: crate::rhythms::WeekDaily| Rhythm::WeekDaily(w),
    ) + rules.every_n_seq().map_values(|e: crate::rhythms::EveryNDays| Rhythm::EveryNDays(e))
}

impl Score {
    /// The display form of the score.
    pub fn repr(&self) -> (r: String)
        ensures
            r@ == "delay: "@ + crate::strutil::dec_str(self.value as int) + ", never done: "@
                + crate::strutil::dec_str(self.never as int),
    {
        proof {
            reveal_strlit("delay: ");
            reveal_strlit(", never done: ");
        }
        let mut out = String::from_str("delay: ");
        crate::strutil::append_u64(&mut out, self.value);
        out.append(", never done: ");
        crate::strutil::append_u64(&mut out, self.never);
        proof {
            assert(out@ =~= "delay: "@ + crate::strutil::dec_str(self.value as int)
                + ", never done: "@ + crate::strutil::dec_str(self.never as int));
        }
        out
    }
}

/// Scores the history against a boundary: each rhythm whose next occurrence
/// after its last completion lies before the boundary adds the days between
/// them; a rhythm never completed before the boundary counts as never done.
/// The delay saturates rather than wrap.
pub fn health_check(cadence: &Cadence, boundary: DateTimeOfDay) -> (r: Score)
    requires
        cadence.events.wf(),
        wf_dtod(boundary),
    ensures
        r.never as int == never_sum(
            all_rhythms(cadence.rhythms),
            cadence.events.events_seq(),
            boundary,
        ),
        r.value as int == (if delay_sum(
            all_rhythms(cadence.rhythms),
            cadence.events.events_seq(),
            boundary,
        ) <= u64::MAX {
            delay_sum(all_rhythms(cadence.rhythms), cadence.events.events_seq(), boundary)
        } else {
            u64::MAX as int
        }),
{
    let mut score = Score { value: 0, never: 0 };
    let rhythms = cadence.rhythms.rhythms();
    let ghost rs = all_rhythms(cadence.rhythms);
    let ghost evs = cadence.events.events_seq();
    let n = rhythms.len();
    let mut i: usize = 0;
    proof {
        assert(rs.take(0) =~= Seq::<Rhythm>::empty());
    }
    while i < n
        invariant
            0 <= i <= n,
            n == rhythms@.len(),
            rhythms@ == rs,
            rs == all_rhythms(cadence.rhythms),
            evs == cadence.events.events_seq(),
            cadence.events.wf(),
            wf_dtod(boundary),
            score.never as int == never_sum(rs.take(i as int), evs, boundary),
            score.value as int == (if delay_sum(rs.take(i as int), evs, boundary) <= u64::MAX {
                delay_sum(rs.take(i as int), evs, boundary)
            } else {
                u64::MAX as int
            }),
        decreases n - i,
    {
        let rhythm = &rhythms[i];
        let ghost pre_delay = delay_sum(rs.take(i as int), evs, boundary);
        let ghost step = rhythm_delay(rs[i as int], evs, boundary);
        proof {
            let t = rs.take(i as int + 1);
            assert(t.drop_last() =~= rs.take(i as int));
            assert(t.last() == rs[i as int]);
            lemma_delay_nonneg(rs[i as int], evs, boundary);
            lemma_delay_sum_nonneg(rs.take(i as int), evs, boundary);
        }
        match cadence.events.latest_event_before(rhythm.id(), boundary) {
            None => {
                proof {
                    lemma_never_sum_bound(rs.take(i as int), evs, boundary);
                }
                score.never = score.never + 1;
            },
            Some(ev) => {
                proof {
                    crate::cadence::lemma_latest_idx_range(evs, rhythm.spec_id(), Some(boundary));
                    assert(wf_dtod(ev.when));
                }
                match rhythm.next_beat(ev.when) {
                    Some(next) => {
                        proof {
                            crate::rhythms::lemma_next_hit_bounds(*rhythm, ev.when.day as int, 62);
                            crate::rhythms::lemma_next_hit_bounds(*rhythm, ev.when.day as int, 7);
                            match rhythm {
                                Rhythm::Daily(_) => {},
                                Rhythm::Monthly(_) => {},
                                Rhythm::WeekDaily(_) => {},
                                Rhythm::EveryNDays(e) => {
                                    assert(crate::rhythms::spec_next_day(
                                        *rhythm,
                                        ev.when.day as int,
                                    ) == Some(ev.when.day + e.n as int));
                                },
                            }
                            assert(0 <= next.day);
                        }
                        if next.lt(&boundary) {
                            let d = next.days_apart(boundary);
                            proof {
                                assert(d as int == step);
                            }
                            if score.value <= u64::MAX - d {
                                score.value = score.value + d;
                            } else {
                                score.value = u64::MAX;
                            }
                        } else {
                            proof {
                                assert(step == 0);
                            }
                        }
                    },
                    None => {
                        proof {
                            assert(step == 0);
                        }
                    },
                }
            },
        }
        i = i + 1;
    }
    proof {
        assert(rs.take(n as int) =~= rs);
    }
    score
}

proof fn lemma_delay_sum_nonneg(rs: Seq<Rhythm>, events: Seq<Event>, boundary: DateTimeOfDay)
    ensures
        delay_sum(rs, events, boundary) >= 0,
    decreases rs.len(),
{
    if rs.len() > 0 {
        lemma_delay_sum_nonneg(rs.drop_last(), events, boundary);
        lemma_delay_nonneg(rs.last(), events, boundary);
    }
}

proof fn lemma_never_sum_bound(rs: Seq<Rhythm>, events: Seq<Event>, boundary: DateTimeOfDay)
    ensures
        0 <= never_sum(rs, events, boundary) <= rs.len(),
    decreases rs.len(),
{
    if rs.len() > 0 {
        lemma_never_sum_bound(rs.drop_last(), events, boundary);
    }
}

} // verus!
