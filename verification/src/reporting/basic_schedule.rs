//! The plain unthrottled schedule: every occurrence of every rhythm within
//! the window, with no capacity smoothing.
use vstd::prelude::*;

use crate::Error;
use crate::cadence::Cadence;
use crate::rhythms::Rhythm;
use crate::time::DateTimeOfDay;
use crate::time::dtod_le;
use crate::time::dtod_lt;
use crate::time::wf_dtod;

verus! {

/// The unthrottled schedule: occurrences in ascending date order, rhythms
/// on an equal date in the order they were added.
pub struct Schedule {
    start: DateTimeOfDay,
    limit: DateTimeOfDay,
    occurrences: Vec<(DateTimeOfDay, Rhythm)>,
}

impl Schedule {
    /// The scheduled occurrences, in date order.
    pub closed spec fn occ_seq(&self) -> Seq<(DateTimeOfDay, Rhythm)> {
        self.occurrences@
    }

    /// The window bounds.
    pub closed spec fn spec_start(&self) -> DateTimeOfDay {
        self.start
    }

    /// The window limit.
    pub closed spec fn spec_limit(&self) -> DateTimeOfDay {
        self.limit
    }

    /// Every occurrence lies within the window and the list ascends by
    /// date.
    pub open spec fn wf(&self) -> bool {
        &&& forall|i: int|
            0 <= i < self.occ_seq().len() ==> dtod_le(
                self.spec_start(),
                (#[trigger] self.occ_seq()[i]).0,
            ) && dtod_lt(self.occ_seq()[i].0, self.spec_limit())
        &&& forall|i: int, j: int|
            0 <= i < j < self.occ_seq().len() ==> dtod_le(
                (#[trigger] self.occ_seq()[i]).0,
                (#[trigger] self.occ_seq()[j]).0,
            )
    }

    /// Builds the unthrottled schedule for the window `[start, limit)`.
    /// Fails exactly when the window is empty or reversed.
    pub fn new(cadence: &Cadence, start: DateTimeOfDay, limit: DateTimeOfDay) -> (r: Result<
        Schedule,
        Error,
    >)
        requires
            wf_dtod(start),
            wf_dtod(limit),
            cadence.events.wf(),
        ensures
            r is Err <==> !dtod_lt(start, limit),
            r matches Err(e) ==> e is InvalidWindow,
            r matches Ok(s) ==> s.wf(),
    {
        if !start.lt(&limit) {
            return Err(Error::InvalidWindow);
        }
        let mut bs = Schedule { start, limit, occurrences: Vec::new() };
        proof {
            assert(bs.wf());
        }
        let rhythms = cadence.rhythms.rhythms();
        let n = rhythms.len();
        let mut i: usize = 0;
        while i < n
            invariant
                0 <= i <= n,
                n == rhythms@.len(),
                cadence.events.wf(),
                wf_dtod(start),
                wf_dtod(limit),
                dtod_lt(start, limit),
                bs.spec_start() == start,
                bs.spec_limit() == limit,
                bs.wf(),
            decreases n - i,
        {
            let last_seen = match cadence.events.latest_event(rhythms[i].id()) {
                Some(x) => {
                    proof {
                        crate::cadence::lemma_latest_idx_range(
                            cadence.events.events_seq(),
                            rhythms@[i as int].spec_id(),
                            None,
                        );
                    }
                    x.when
                },
                None => start,
            };
            bs.add_rhythm(last_seen, &rhythms[i]);
            i = i + 1;
        }
        Ok(bs)
    }

    /// Adds every in-window occurrence of one rhythm, beginning after its
    /// most recent completion.
    fn add_rhythm(&mut self, last_seen: DateTimeOfDay, rhythm: &Rhythm)
        requires
            old(self).wf(),
            wf_dtod(old(self).spec_start()),
            wf_dtod(old(self).spec_limit()),
            wf_dtod(last_seen),
        ensures
            final(self).wf(),
            final(self).spec_start() == old(self).spec_start(),
            final(self).spec_limit() == old(self).spec_limit(),
    {
        let mut when = match rhythm.next_beat(last_seen) {
            Some(b) => b,
            None => {
                return ;
            },
        };
        if when.day < 1 {
            return ;
        }
        while when.lt(&self.start)
            invariant
                self.wf(),
                self == old(self),
                wf_dtod(self.spec_start()),
                wf_dtod(self.spec_limit()),
                1 <= when.day,
            decreases (if self.start.day + 1 - when.day > 0 {
                self.start.day + 1 - when.day
            } else {
                0
            }),
        {
            let nb = match rhythm.next_beat(when) {
                Some(b) => b,
                None => {
                    return ;
                },
            };
            if nb.day <= when.day {
                return ;
            }
            when = nb;
        }
        while when.lt(&self.limit)
            invariant
                self.wf(),
                self.spec_start() == old(self).spec_start(),
                self.spec_limit() == old(self).spec_limit(),
                wf_dtod(self.spec_start()),
                wf_dtod(self.spec_limit()),
                dtod_le(self.spec_start(), when) || !dtod_lt(when, self.spec_limit()),
                1 <= when.day,
            decreases (if self.limit.day + 1 - when.day > 0 {
                self.limit.day + 1 - when.day
            } else {
                0
            }),
        {
            let nb = match rhythm.next_beat(when) {
                Some(b) => b,
                None => {
                    return ;
                },
            };
            if nb.day <= when.day {
                return ;
            }
            self.push_occurrence(when, rhythm);
            when = nb;
        }
    }

    /// Inserts one occurrence at its sorted position, after any existing
    /// occurrences on the same date.
    fn push_occurrence(&mut self, d: DateTimeOfDay, rhythm: &Rhythm)
        requires
            old(self).wf(),
            dtod_le(old(self).spec_start(), d),
            dtod_lt(d, old(self).spec_limit()),
        ensures
            final(self).wf(),
            final(self).spec_start() == old(self).spec_start(),
            final(self).spec_limit() == old(self).spec_limit(),
    {
        let ghost oldocc = self.occurrences@;
        let m = self.occurrences.len();
        let mut p: usize = 0;
        let pos: usize;
        loop
            invariant
                0 <= p <= m,
                m == self.occurrences@.len(),
                self == old(self),
                forall|q: int| 0 <= q < p ==> dtod_le((#[trigger] oldocc[q]).0, d),
                oldocc == self.occurrences@,
            ensures
                0 <= p <= m,
                forall|q: int| 0 <= q < p ==> dtod_le((#[trigger] oldocc[q]).0, d),
                p < m ==> dtod_lt(d, oldocc[p as int].0),
            decreases m - p,
        {
            if p >= m {
                break ;
            }
            if d.lt(&self.occurrences[p].0) {
                break ;
            }
            p = p + 1;
        }
        pos = p;
        self.occurrences.insert(pos, (d, rhythm.dup()));
        proof {
            let newocc = self.occurrences@;
            assert(oldocc =~= old(self).occ_seq());
            assert forall|q: int| 0 <= q < oldocc.len() implies dtod_le(
                old(self).spec_start(),
                (#[trigger] oldocc[q]).0,
            ) && dtod_lt(oldocc[q].0, old(self).spec_limit()) by {
                assert(old(self).occ_seq()[q] == oldocc[q]);
            }
            assert forall|i: int, j: int| 0 <= i < j < oldocc.len() implies dtod_le(
                (#[trigger] oldocc[i]).0,
                (#[trigger] oldocc[j]).0,
            ) by {
                assert(old(self).occ_seq()[i] == oldocc[i]);
                assert(old(self).occ_seq()[j] == oldocc[j]);
            }
            assert(forall|q: int| 0 <= q < pos ==> #[trigger] newocc[q] == oldocc[q]);
            assert(forall|q: int| pos < q < newocc.len() ==> #[trigger] newocc[q] == oldocc[q - 1]);
            assert(newocc[pos as int].0 == d);
            assert forall|i: int, j: int| 0 <= i < j < newocc.len() implies dtod_le(
                (#[trigger] newocc[i]).0,
                (#[trigger] newocc[j]).0,
            ) by {
                if j == pos {
                } else if i == pos {
                    assert(newocc[j] == oldocc[j - 1]);
                    if j - 1 == pos {
                        assert(dtod_lt(d, oldocc[pos as int].0));
                    } else {
                        assert(dtod_lt(d, oldocc[pos as int].0));
                        assert(dtod_le(oldocc[pos as int].0, oldocc[j - 1].0));
                    }
                } else if i < pos && j > pos {
                    if i == j - 1 {
                        assert(false);
                    }
                    assert(dtod_le(oldocc[i].0, oldocc[j - 1].0));
                } else if j < pos {
                } else {
                    assert(newocc[i] == oldocc[i - 1]);
                    assert(newocc[j] == oldocc[j - 1]);
                }
            }
        }
    }

    /// The structured readout: one event per occurrence, in date order,
    /// each carrying its rhythm's identifier and a line with the date bound
    /// under `when:`.
    pub fn plumbing(&self) -> (r: Vec<crate::cadence::Event>)
        requires
            self.wf(),
            wf_dtod(self.spec_start()),
            wf_dtod(self.spec_limit()),
        ensures
            r@.len() == self.occ_seq().len(),
            forall|k: int| 0 <= k < r@.len() ==> (#[trigger] r@[k]).item.wf(),
            forall|k: int|
                0 <= k < r@.len() ==> {
                    &&& (#[trigger] r@[k]).when == self.occ_seq()[k].0
                    &&& r@[k].id@ == self.occ_seq()[k].1.spec_id()
                    &&& r@[k].item.spec_lookup("when:"@) == Some(
                        crate::time::dtod_repr(self.occ_seq()[k].0),
                    )
                    &&& r@[k].item.spec_lookup("id:"@) == Some(self.occ_seq()[k].1.spec_id())
                    &&& (crate::line_item::wf_desc(crate::rhythms::rhythm_desc(self.occ_seq()[k].1))
                        ==> {
                        &&& r@[k].item.spec_desc() == crate::rhythms::rhythm_desc(
                            self.occ_seq()[k].1,
                        )
                        &&& forall|key: Seq<char>|
                            key != "when:"@ ==> #[trigger] r@[k].item.spec_lookup(key)
                                == crate::rhythms::line_item_binding(self.occ_seq()[k].1, key)
                    })
                },
    {
        proof {
            reveal_strlit("when:");
        }
        let mut out: Vec<crate::cadence::Event> = Vec::new();
        let n = self.occurrences.len();
        let mut i: usize = 0;
        while i < n
            invariant
                0 <= i <= n,
                n == self.occ_seq().len(),
                self.wf(),
                wf_dtod(self.spec_start()),
                wf_dtod(self.spec_limit()),
                out@.len() == i,
                forall|k: int| 0 <= k < out@.len() ==> (#[trigger] out@[k]).item.wf(),
                forall|k: int|
                    0 <= k < out@.len() ==> {
                        &&& (#[trigger] out@[k]).when == self.occ_seq()[k].0
                        &&& out@[k].id@ == self.occ_seq()[k].1.spec_id()
                        &&& out@[k].item.spec_lookup("when:"@) == Some(
                            crate::time::dtod_repr(self.occ_seq()[k].0),
                        )
                        &&& out@[k].item.spec_lookup("id:"@) == Some(self.occ_seq()[k].1.spec_id())
                        &&& (crate::line_item::wf_desc(
                            crate::rhythms::rhythm_desc(self.occ_seq()[k].1),
                        ) ==> {
                            &&& out@[k].item.spec_desc() == crate::rhythms::rhythm_desc(
                                self.occ_seq()[k].1,
                            )
                            &&& forall|key: Seq<char>|
                                key != "when:"@ ==> #[trigger] out@[k].item.spec_lookup(key)
                                    == crate::rhythms::line_item_binding(self.occ_seq()[k].1, key)
                        })
                    },
            decreases n - i,
        {
            proof {
                reveal_strlit("when:");
                reveal_strlit("id:");
                assert("when:"@.len() == 5);
                assert("id:"@.len() == 3);
            }
            let when_d = self.occurrences[i].0;
            let rhythm = &self.occurrences[i].1;
            proof {
                assert(dtod_le(self.spec_start(), self.occ_seq()[i as int].0));
                assert(dtod_lt(self.occ_seq()[i as int].0, self.spec_limit()));
                assert(-crate::time::CIVIL_RANGE <= when_d.day <= crate::time::CIVIL_RANGE);
            }
            let mut item = rhythm.line_item();
            let when_text = when_d.repr();
            item.insert("when:", when_text.as_str());
            proof {
                if crate::line_item::wf_desc(crate::rhythms::rhythm_desc(self.occ_seq()[i as int].1)) {
                    assert forall|key: Seq<char>| key != "when:"@ implies #[trigger] item.spec_lookup(key) == crate::rhythms::line_item_binding(self.occ_seq()[i as int].1, key) by {}
                }
            }
            out.push(crate::cadence::Event { id: rhythm.id(), when: when_d, item });
            i = i + 1;
        }
        out
    }

    /// The human-readable readout, in the same order.
    pub fn porcelain(&self) -> (r: Vec<String>)
        requires
            self.wf(),
            wf_dtod(self.spec_start()),
            wf_dtod(self.spec_limit()),
        ensures
            r@.len() == self.occ_seq().len(),
            forall|k: int|
                0 <= k < r@.len() ==> (#[trigger] r@[k])@ == crate::rhythms::human_line_text(
                    self.occ_seq()[k].1,
                ) + " @ "@ + crate::time::dtod_repr(self.occ_seq()[k].0),
    {
        proof {
            reveal_strlit(" @ ");
        }
        let mut out: Vec<String> = Vec::new();
        let n = self.occurrences.len();
        let mut i: usize = 0;
        while i < n
            invariant
                0 <= i <= n,
                n == self.occ_seq().len(),
                self.wf(),
                wf_dtod(self.spec_start()),
                wf_dtod(self.spec_limit()),
                out@.len() == i,
                forall|k: int|
                    0 <= k < out@.len() ==> (#[trigger] out@[k])@
                        == crate::rhythms::human_line_text(self.occ_seq()[k].1) + " @ "@
                        + crate::time::dtod_repr(self.occ_seq()[k].0),
            decreases n - i,
        {
            let when_d = self.occurrences[i].0;
            let rhythm = &self.occurrences[i].1;
            proof {
                reveal_strlit(" @ ");
                assert(dtod_le(self.spec_start(), self.occ_seq()[i as int].0));
                assert(dtod_lt(self.occ_seq()[i as int].0, self.spec_limit()));
                assert(-crate::time::CIVIL_RANGE <= when_d.day <= crate::time::CIVIL_RANGE);
            }
            let mut line = rhythm.human_line();
            line.append(" @ ");
            let when_text = when_d.repr();
            line.append(when_text.as_str());
            proof {
                assert(line@ =~= crate::rhythms::human_line_text(self.occ_seq()[i as int].1)
                    + " @ "@ + crate::time::dtod_repr(self.occ_seq()[i as int].0));
            }
            out.push(line);
            i = i + 1;
        }
        out
    }
}

} // verus!
