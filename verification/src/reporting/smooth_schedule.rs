//! The smooth scheduling engine.
//!
//! Each rhythm contributes one pending candidate at a time: its next
//! occurrence together with the ranked alternate dates its slider allows.
//! The engine repeatedly places the most urgent candidate, subject to an
//! adaptive per-day capacity; when a candidate runs out of alternates, every
//! capacity below a computed water mark is raised and the whole attempt is
//! started over, so the final layout stays as even as possible.
use vstd::prelude::*;

use crate::Error;
use crate::cadence::Cadence;
use crate::rhythms::Rhythm;
use crate::rhythms::Slider;
use crate::rhythms::spec_skip;
use crate::rhythms::spec_slider;
use crate::rhythms::wf_rhythm;
use crate::time::DateTimeOfDay;
use crate::time::dtod_le;
use crate::time::dtod_lt;

verus! {

/// Capacity values never exceed this bound, so capacity sums stay well
/// inside a machine word.
pub const LIMIT_CAP: u64 = 1_000_000_000_000;

/// Day numbers of candidate targets stay within this bound.
pub const TARGET_RANGE: i64 = 10_000_000_000;

/// The ranked choice list generated from an ideal target and a slider: the
/// target at priority 0, the days before it at priorities 1 through
/// `before`, then the days after it continuing from there.
pub open spec fn choice_seq(target: DateTimeOfDay, s: Slider) -> Seq<(DateTimeOfDay, u64)> {
    Seq::new(
        (1 + s.before + s.after) as nat,
        |i: int|
            if i == 0 {
                (target, 0u64)
            } else if i <= s.before {
                (DateTimeOfDay { day: (target.day - i) as i64, when: target.when }, i as u64)
            } else {
                (
                    DateTimeOfDay {
                        day: (target.day + (i - s.before)) as i64,
                        when: target.when,
                    },
                    i as u64,
                )
            },
    )
}

/// A date, raised to the window start if it lies below it.
pub open spec fn clamp_up(d: DateTimeOfDay, start: DateTimeOfDay) -> DateTimeOfDay {
    if dtod_lt(d, start) {
        start
    } else {
        d
    }
}

/// The per-date capacity table of one allocation attempt.  Dates absent from
/// the table have capacity one; entries only grow.
pub struct LimitTable {
    entries: Vec<(DateTimeOfDay, u64)>,
}

/// The value stored for a date, if any.
pub open spec fn table_lookup(es: Seq<(DateTimeOfDay, u64)>, d: DateTimeOfDay) -> Option<u64>
    decreases es.len(),
{
    if es.len() == 0 {
        None
    } else if es[0].0 == d {
        Some(es[0].1)
    } else {
        table_lookup(es.skip(1), d)
    }
}

impl LimitTable {
    /// The stored entries.
    pub closed spec fn entries_seq(&self) -> Seq<(DateTimeOfDay, u64)> {
        self.entries@
    }

    /// The stored capacity of a date, if any.
    pub open spec fn spec_lookup(&self, d: DateTimeOfDay) -> Option<u64> {
        table_lookup(self.entries_seq(), d)
    }

    /// The effective capacity of a date: the stored value, or one.
    pub open spec fn spec_get(&self, d: DateTimeOfDay) -> u64 {
        match self.spec_lookup(d) {
            Some(v) => v,
            None => 1u64,
        }
    }

    /// Keys are distinct and every value lies in `[1, LIMIT_CAP]`.
    pub open spec fn wf(&self) -> bool {
        &&& forall|i: int, j: int|
            0 <= i < j < self.entries_seq().len() ==> (#[trigger] self.entries_seq()[i]).0 != (
            #[trigger] self.entries_seq()[j]).0
        &&& forall|i: int|
            0 <= i < self.entries_seq().len() ==> 1 <= (#[trigger] self.entries_seq()[i]).1
                <= LIMIT_CAP
    }

    /// An empty table: every date at capacity one.
    pub fn new() -> (r: LimitTable)
        ensures
            r.wf(),
            r.entries_seq() == Seq::<(DateTimeOfDay, u64)>::empty(),
    {
        LimitTable { entries: Vec::new() }
    }

    /// The capacity of `d`, entering it at the default if absent.
    pub fn get_or_insert(&mut self, d: DateTimeOfDay) -> (r: u64)
        requires
            old(self).wf(),
        ensures
            final(self).wf(),
            r == old(self).spec_get(d),
            r == final(self).spec_get(d),
            1 <= r <= LIMIT_CAP,
            final(self).spec_lookup(d) == Some(r),
            forall|d2: DateTimeOfDay|
                d2 != d ==> #[trigger] final(self).spec_lookup(d2) == old(self).spec_lookup(d2),
            forall|d2: DateTimeOfDay| #[trigger] final(self).spec_get(d2) == old(self).spec_get(d2),
    {
        let n = self.entries.len();
        let ghost es = self.entries@;
        let mut i: usize = 0;
        while i < n
            invariant
                0 <= i <= n,
                n == es.len(),
                self.entries@ == es,
                es == old(self).entries@,
                old(self).wf(),
                forall|j: int| 0 <= j < i ==> (#[trigger] es[j]).0 != d,
            decreases n - i,
        {
            let (ed, ev) = self.entries[i];
            if ed == d {
                proof {
                    lemma_table_present(es, i as int);
                }
                return ev;
            }
            i = i + 1;
        }
        proof {
            lemma_table_absent(es, d);
        }
        self.entries.push((d, 1));
        proof {
            let neww = self.entries@;
            assert(forall|j: int| 0 <= j < es.len() ==> neww[j] == es[j]);
            assert(neww[es.len() as int] == (d, 1u64));
            lemma_table_present(neww, es.len() as int);
            assert forall|d2: DateTimeOfDay| d2 != d implies #[trigger] table_lookup(neww, d2)
                == table_lookup(es, d2) by {
                lemma_table_push_other(es, d, 1u64, d2);
            }
        }
        1
    }

    /// Raises every stored capacity below the mark up to it (capped).
    pub fn raise_below(&mut self, mark: u64)
        requires
            old(self).wf(),
        ensures
            final(self).wf(),
            final(self).entries_seq().len() == old(self).entries_seq().len(),
            forall|d: DateTimeOfDay|
                #[trigger] final(self).spec_lookup(d) == (match old(self).spec_lookup(d) {
                    Some(v) => Some(
                        if v < mark {
                            if mark <= LIMIT_CAP {
                                mark
                            } else {
                                LIMIT_CAP
                            }
                        } else {
                            v
                        },
                    ),
                    None => None::<u64>,
                }),
    {
        let capped: u64 = if mark <= LIMIT_CAP {
            mark
        } else {
            LIMIT_CAP
        };
        let n = self.entries.len();
        let ghost es = old(self).entries@;
        let mut i: usize = 0;
        while i < n
            invariant
                0 <= i <= n,
                n == es.len(),
                old(self).wf(),
                es == old(self).entries@,
                self.entries@.len() == n,
                capped == (if mark <= LIMIT_CAP {
                    mark
                } else {
                    LIMIT_CAP
                }),
                forall|j: int|
                    0 <= j < i ==> #[trigger] self.entries@[j] == (
                    es[j].0,
                    if es[j].1 < mark {
                        capped
                    } else {
                        es[j].1
                    },
                ),
                forall|j: int| i <= j < n ==> #[trigger] self.entries@[j] == es[j],
            decreases n - i,
        {
            let (ed, ev) = self.entries[i];
            if ev < mark {
                let pair = (ed, capped);
                self.entries.remove(i);
                self.entries.insert(i, pair);
            }
            i = i + 1;
        }
        proof {
            let neww = self.entries@;
            assert forall|d: DateTimeOfDay| #[trigger] table_lookup(neww, d) == (
            match table_lookup(es, d) {
                Some(v) => Some(
                    if v < mark {
                        capped
                    } else {
                        v
                    },
                ),
                None => None::<u64>,
            }) by {
                lemma_table_mapped(es, neww, d, mark, capped);
            }
        }
    }
}

proof fn lemma_table_present(es: Seq<(DateTimeOfDay, u64)>, i: int)
    requires
        0 <= i < es.len(),
        forall|j: int| 0 <= j < i ==> (#[trigger] es[j]).0 != es[i].0,
    ensures
        table_lookup(es, es[i].0) == Some(es[i].1),
    decreases i,
{
    if i == 0 {
    } else {
        assert(forall|j: int| 0 <= j < i - 1 ==> (#[trigger] es.skip(1)[j]) == es[j + 1]);
        lemma_table_present(es.skip(1), i - 1);
        assert(es.skip(1)[i - 1] == es[i]);
    }
}

proof fn lemma_table_absent(es: Seq<(DateTimeOfDay, u64)>, d: DateTimeOfDay)
    requires
        forall|j: int| 0 <= j < es.len() ==> (#[trigger] es[j]).0 != d,
    ensures
        table_lookup(es, d) is None,
    decreases es.len(),
{
    if es.len() > 0 {
        assert(forall|j: int|
            0 <= j < es.skip(1).len() ==> (#[trigger] es.skip(1)[j]) == es[j + 1]);
        lemma_table_absent(es.skip(1), d);
    }
}

proof fn lemma_table_push_other(
    es: Seq<(DateTimeOfDay, u64)>,
    d: DateTimeOfDay,
    v: u64,
    d2: DateTimeOfDay,
)
    requires
        d2 != d,
    ensures
        table_lookup(es.push((d, v)), d2) == table_lookup(es, d2),
    decreases es.len(),
{
    let p = es.push((d, v));
    if es.len() == 0 {
        assert(p[0] == (d, v));
        assert(p[0].0 != d2);
        assert(p.skip(1) =~= Seq::<(DateTimeOfDay, u64)>::empty());
        assert(table_lookup(p, d2) == table_lookup(p.skip(1), d2));
        assert(table_lookup(p.skip(1), d2) is None);
        assert(table_lookup(es, d2) is None);
    } else {
        assert(p[0] == es[0]);
        assert(p.skip(1) =~= es.skip(1).push((d, v)));
        lemma_table_push_other(es.skip(1), d, v, d2);
        if es[0].0 == d2 {
            assert(table_lookup(p, d2) == Some(p[0].1));
            assert(table_lookup(es, d2) == Some(es[0].1));
        } else {
            assert(table_lookup(p, d2) == table_lookup(p.skip(1), d2));
            assert(table_lookup(es, d2) == table_lookup(es.skip(1), d2));
        }
    }
}

proof fn lemma_table_mapped(
    es: Seq<(DateTimeOfDay, u64)>,
    neww: Seq<(DateTimeOfDay, u64)>,
    d: DateTimeOfDay,
    mark: u64,
    capped: u64,
)
    requires
        neww.len() == es.len(),
        forall|j: int|
            0 <= j < es.len() ==> #[trigger] neww[j] == (
            es[j].0,
            if es[j].1 < mark {
                capped
            } else {
                es[j].1
            },
        ),
    ensures
        table_lookup(neww, d) == (match table_lookup(es, d) {
            Some(v) => Some(
                if v < mark {
                    capped
                } else {
                    v
                },
            ),
            None => None::<u64>,
        }),
    decreases es.len(),
{
    if es.len() > 0 {
        assert(neww[0] == (es[0].0, if es[0].1 < mark { capped } else { es[0].1 }));
        assert forall|j: int| 0 <= j < es.skip(1).len() implies #[trigger] neww.skip(1)[j] == (
            (es.skip(1)[j]).0,
            if (es.skip(1)[j]).1 < mark {
                capped
            } else {
                (es.skip(1)[j]).1
            },
        ) by {
            assert(neww.skip(1)[j] == neww[j + 1]);
            assert(es.skip(1)[j] == es[j + 1]);
        }
        lemma_table_mapped(es.skip(1), neww.skip(1), d, mark, capped);
        if es[0].0 == d {
            assert(neww[0].0 == d);
            assert(table_lookup(neww, d) == Some(neww[0].1));
            assert(table_lookup(es, d) == Some(es[0].1));
        } else {
            assert(neww[0].0 != d);
            assert(table_lookup(neww, d) == table_lookup(neww.skip(1), d));
            assert(table_lookup(es, d) == table_lookup(es.skip(1), d));
        }
    }
}


/// One pending occurrence of one rhythm: its active date and priority, the
/// ideal target it was generated from, the alternates not yet tried (lowest
/// priority last, so the next one can be popped), and the dates already
/// passed over.
pub struct SmoothRhythm {
    heap_key: (DateTimeOfDay, u64),
    original_target: DateTimeOfDay,
    remaining_choices: Vec<(DateTimeOfDay, u64)>,
    passed_over_choices: Vec<DateTimeOfDay>,
    rhythm: Rhythm,
    seed: Ghost<DateTimeOfDay>,
}

impl SmoothRhythm {
    /// The active date and priority.
    pub closed spec fn key(&self) -> (DateTimeOfDay, u64) {
        self.heap_key
    }

    /// The ideal target this candidate was generated from.
    pub closed spec fn target(&self) -> DateTimeOfDay {
        self.original_target
    }

    /// The alternates not yet tried, lowest priority last.
    pub closed spec fn remaining(&self) -> Seq<(DateTimeOfDay, u64)> {
        self.remaining_choices@
    }

    /// The dates already passed over.
    pub closed spec fn passed(&self) -> Seq<DateTimeOfDay> {
        self.passed_over_choices@
    }

    /// The rhythm this candidate belongs to.
    pub closed spec fn spec_rhythm(&self) -> Rhythm {
        self.rhythm
    }

    /// The first in-window occurrence this candidate's line of occurrences
    /// descends from.
    pub closed spec fn seed(&self) -> DateTimeOfDay {
        self.seed@
    }

    /// The active date and priority.
    pub fn heap_key(&self) -> (r: (DateTimeOfDay, u64))
        ensures
            r == self.key(),
    {
        self.heap_key
    }

    /// How many alternates remain.
    pub fn remaining_len(&self) -> (r: usize)
        ensures
            r == self.remaining().len(),
    {
        self.remaining_choices.len()
    }

    /// The rhythm this candidate belongs to.
    pub fn rhythm(&self) -> (r: &Rhythm)
        ensures
            *r == self.spec_rhythm(),
    {
        &self.rhythm
    }
}

/// Whether `to` lies on the occurrence chain of `r` that begins at `from`:
/// it is `from` itself, or is reached by repeatedly stepping to the next
/// occurrence.
pub open spec fn occ_reachable(r: Rhythm, from: DateTimeOfDay, to: DateTimeOfDay) -> bool
    decreases (if to.day - from.day > 0 {
        to.day - from.day
    } else {
        0
    }),
{
    if from == to {
        true
    } else if to.day <= from.day {
        false
    } else {
        match crate::rhythms::spec_next_dtod(r, from) {
            Some(nb) => nb.day > from.day && occ_reachable(r, nb, to),
            None => false,
        }
    }
}

/// Chain reachability extends across one more occurrence step.
proof fn lemma_reachable_extend(r: Rhythm, s: DateTimeOfDay, t: DateTimeOfDay, t2: DateTimeOfDay)
    requires
        occ_reachable(r, s, t),
        crate::rhythms::spec_next_dtod(r, t) == Some(t2),
        t2.day > t.day,
    ensures
        occ_reachable(r, s, t2),
    decreases (if t.day - s.day > 0 {
        t.day - s.day
    } else {
        0
    }),
{
    if s == t {
        assert(occ_reachable(r, t2, t2));
    } else {
        let nb = crate::rhythms::spec_next_dtod(r, s).unwrap();
        lemma_reachable_extend(r, nb, t, t2);
    }
}

/// A well-formed candidate for a window starting at `start`: its target is
/// in or after the window, its active entry is the choice at its priority,
/// raised to the window start if below it, the untried alternates are
/// exactly the later choices in reverse, and the passed-over dates are the
/// earlier choices as they were active.
pub open spec fn wf_cand(c: SmoothRhythm, start: DateTimeOfDay) -> bool {
    let cs = choice_seq(c.target(), spec_slider(c.spec_rhythm()));
    let idx = c.key().1 as int;
    &&& wf_rhythm(c.spec_rhythm())
    &&& crate::rhythms::progressive(c.spec_rhythm())
    &&& dtod_le(start, c.target())
    &&& -TARGET_RANGE <= c.target().day <= TARGET_RANGE
    &&& 0 <= idx < cs.len()
    &&& c.key().0 == clamp_up(cs[idx].0, start)
    &&& c.remaining() == cs.skip(idx + 1).reverse()
    &&& c.passed() == Seq::new(idx as nat, |j: int| clamp_up(cs[j].0, start))
    &&& (spec_slider(c.spec_rhythm()) == (Slider { before: 0, after: 0 }) ==> dtod_le(
        start,
        c.seed(),
    ) && occ_reachable(c.spec_rhythm(), c.seed(), c.target()))
}

impl SmoothRhythm {
    /// Builds the candidate for one occurrence: the target at priority zero,
    /// the slider's alternates ranked behind it.
    pub fn new(rhythm: Rhythm, target: DateTimeOfDay, Ghost(seed): Ghost<DateTimeOfDay>) -> (r:
        SmoothRhythm)
        requires
            wf_rhythm(rhythm),
            -TARGET_RANGE <= target.day <= TARGET_RANGE,
        ensures
            r.spec_rhythm() == rhythm,
            r.target() == target,
            r.seed() == seed,
            r.key() == (target, 0u64),
            r.remaining() == choice_seq(target, spec_slider(rhythm)).skip(1).reverse(),
            r.passed() == Seq::<DateTimeOfDay>::empty(),
    {
        let slider = rhythm.slider();
        let ghost cs = choice_seq(target, spec_slider(rhythm));
        let total: usize = 1 + slider.before as usize + slider.after as usize;
        let mut asc: Vec<(DateTimeOfDay, u64)> = Vec::new();
        asc.push((target, 0));
        let mut i: usize = 0;
        while i < slider.before as usize
            invariant
                0 <= i <= slider.before,
                -TARGET_RANGE <= target.day <= TARGET_RANGE,
                slider == spec_slider(rhythm),
                slider.before <= crate::rhythms::SLIDER_MAX,
                slider.after <= crate::rhythms::SLIDER_MAX,
                cs == choice_seq(target, spec_slider(rhythm)),
                asc@.len() == i + 1,
                forall|j: int| 0 <= j <= i ==> #[trigger] asc@[j] == cs[j],
            decreases slider.before - i,
        {
            let d = DateTimeOfDay { day: target.day - (i as i64 + 1), when: target.when };
            asc.push((d, i as u64 + 1));
            i = i + 1;
        }
        let mut i: usize = 0;
        while i < slider.after as usize
            invariant
                0 <= i <= slider.after,
                -TARGET_RANGE <= target.day <= TARGET_RANGE,
                slider == spec_slider(rhythm),
                slider.before <= crate::rhythms::SLIDER_MAX,
                slider.after <= crate::rhythms::SLIDER_MAX,
                cs == choice_seq(target, spec_slider(rhythm)),
                asc@.len() == slider.before + i + 1,
                forall|j: int| 0 <= j < asc@.len() ==> #[trigger] asc@[j] == cs[j],
            decreases slider.after - i,
        {
            let d = DateTimeOfDay { day: target.day + (i as i64 + 1), when: target.when };
            asc.push((d, slider.before as u64 + i as u64 + 1));
            i = i + 1;
        }
        // Reverse everything past the target, so the lowest priority sits at
        // the back, ready to pop.
        let mut rev: Vec<(DateTimeOfDay, u64)> = Vec::new();
        let mut k: usize = total;
        while k > 1
            invariant
                1 <= k <= total,
                total == cs.len(),
                asc@.len() == total,
                forall|j: int| 0 <= j < asc@.len() ==> #[trigger] asc@[j] == cs[j],
                rev@.len() == total - k,
                forall|j: int| 0 <= j < rev@.len() ==> #[trigger] rev@[j] == cs[total - 1 - j],
            decreases k,
        {
            k = k - 1;
            rev.push(asc[k]);
        }
        let r = SmoothRhythm {
            heap_key: (target, 0),
            original_target: target,
            remaining_choices: rev,
            passed_over_choices: Vec::new(),
            rhythm,
            seed: Ghost(seed),
        };
        proof {
            assert(r.remaining() =~= cs.skip(1).reverse());
            assert(r.passed() =~= Seq::<DateTimeOfDay>::empty());
        }
        r
    }

    /// Pops the next-lowest-priority untried date: the active date moves to
    /// the passed-over list and the popped choice becomes active, unclamped.
    /// `None` once every alternate has been tried.
    pub fn next_best_choice(&self) -> (r: Option<SmoothRhythm>)
        ensures
            r is None <==> self.remaining().len() == 0,
            r matches Some(c2) ==> {
                &&& c2.spec_rhythm() == self.spec_rhythm()
                &&& c2.target() == self.target()
                &&& c2.seed() == self.seed()
                &&& c2.key() == self.remaining().last()
                &&& c2.remaining() == self.remaining().drop_last()
                &&& c2.passed() == self.passed().push(self.key().0)
            },
    {
        let n = self.remaining_choices.len();
        if n == 0 {
            return None;
        }
        let mut remaining: Vec<(DateTimeOfDay, u64)> = Vec::new();
        let mut i: usize = 0;
        while i < n - 1
            invariant
                0 <= i <= n - 1,
                n == self.remaining().len(),
                remaining@ =~= self.remaining().take(i as int),
            decreases n - i,
        {
            remaining.push(self.remaining_choices[i]);
            proof {
                assert(remaining@ =~= self.remaining().take(i as int + 1));
            }
            i = i + 1;
        }
        let key = self.remaining_choices[n - 1];
        let mut passed: Vec<DateTimeOfDay> = Vec::new();
        let pn = self.passed_over_choices.len();
        let mut i: usize = 0;
        while i < pn
            invariant
                0 <= i <= pn,
                pn == self.passed().len(),
                passed@ =~= self.passed().take(i as int),
            decreases pn - i,
        {
            passed.push(self.passed_over_choices[i]);
            proof {
                assert(passed@ =~= self.passed().take(i as int + 1));
            }
            i = i + 1;
        }
        passed.push(self.heap_key.0);
        let r = SmoothRhythm {
            heap_key: key,
            original_target: self.original_target,
            remaining_choices: remaining,
            passed_over_choices: passed,
            rhythm: self.rhythm.dup(),
            seed: Ghost(self.seed@),
        };
        proof {
            assert(r.remaining() =~= self.remaining().drop_last());
            assert(r.passed() =~= self.passed().push(self.key().0));
        }
        Some(r)
    }

    /// Raises the active date to the window start if it lies below it.
    pub fn clamp_to(&mut self, start: DateTimeOfDay)
        ensures
            final(self).key().0 == clamp_up(old(self).key().0, start),
            final(self).key().1 == old(self).key().1,
            final(self).target() == old(self).target(),
            final(self).remaining() == old(self).remaining(),
            final(self).passed() == old(self).passed(),
            final(self).spec_rhythm() == old(self).spec_rhythm(),
            final(self).seed() == old(self).seed(),
    {
        if self.heap_key.0.lt(&start) {
            self.heap_key.0 = start;
        }
    }

    /// The candidate for the rhythm's next occurrence: computed from the
    /// ideal target when the rhythm skips within its tolerance, else from
    /// the date actually used.  `None` when the rhythm has no next
    /// occurrence in reach.
    pub fn next_beat(&self, Ghost(start): Ghost<DateTimeOfDay>) -> (r: Option<SmoothRhythm>)
        requires
            wf_cand(*self, start),
            crate::time::DAY_MIN <= start.day,
            self.target().day <= crate::time::DAY_MAX,
        ensures
            r matches Some(c2) ==> {
                &&& c2.spec_rhythm() == self.spec_rhythm()
                &&& Some(c2.target()) == crate::rhythms::spec_next_dtod(
                    self.spec_rhythm(),
                    if spec_skip(self.spec_rhythm()) {
                        self.target()
                    } else {
                        self.key().0
                    },
                )
                &&& c2.key() == (c2.target(), 0u64)
                &&& c2.remaining() == choice_seq(
                    c2.target(),
                    spec_slider(self.spec_rhythm()),
                ).skip(1).reverse()
                &&& c2.passed() == Seq::<DateTimeOfDay>::empty()
                &&& dtod_lt(start, c2.target())
                &&& c2.seed() == self.seed()
            },
            r is None ==> crate::rhythms::spec_next_dtod(
                self.spec_rhythm(),
                if spec_skip(self.spec_rhythm()) {
                    self.target()
                } else {
                    self.key().0
                },
            ) is None,
    {
        let base = if self.rhythm.skip_beat_within_slider() {
            self.original_target
        } else {
            self.heap_key.0
        };
        proof {
            let cs = choice_seq(self.target(), spec_slider(self.spec_rhythm()));
            let idx = self.key().1 as int;
            assert(cs[idx].0.day >= self.target().day - spec_slider(self.spec_rhythm()).before);
            assert(cs[idx].0.day <= self.target().day + spec_slider(self.spec_rhythm()).after);
            assert(self.key().0.day >= start.day || self.key().0.day >= cs[idx].0.day);
        }
        let next = match self.rhythm.next_beat(base) {
            Some(b) => b,
            None => {
                return None;
            },
        };
        proof {
            crate::rhythms::lemma_next_day_bounds(self.spec_rhythm(), base.day as int);
        }
        Some(SmoothRhythm::new(self.rhythm.dup(), next, Ghost(self.seed@)))
    }

    /// The capacity expectation of this candidate: the average capacity over
    /// its whole neighborhood (untried, active, and passed-over dates), or
    /// the active date's own capacity if that is larger.
    pub fn dtod_limit(&self, recurse_limits: &mut LimitTable) -> (r: u64)
        requires
            old(recurse_limits).wf(),
            self.remaining().len() <= 800_000,
            self.passed().len() <= 800_000,
        ensures
            final(recurse_limits).wf(),
            1 <= r <= LIMIT_CAP,
            r >= old(recurse_limits).spec_get(self.key().0),
            r == spec_dtod_limit(*self, *old(recurse_limits)),
            forall|d: DateTimeOfDay|
                #[trigger] final(recurse_limits).spec_get(d) == old(recurse_limits).spec_get(d),
            forall|d: DateTimeOfDay|
                #[trigger] final(recurse_limits).spec_lookup(d) == (
                if old(recurse_limits).spec_lookup(d) is Some {
                    old(recurse_limits).spec_lookup(d)
                } else if cand_mentions(*self, d) {
                    Some(1u64)
                } else {
                    None
                }),
    {
        let ghost t0 = *recurse_limits;
        let mut total: u64 = 0;
        let mut count: u64 = 0;
        let n = self.remaining_choices.len();
        let mut i: usize = 0;
        while i < n
            invariant
                0 <= i <= n,
                n == self.remaining().len(),
                n <= 800_000,
                t0.wf(),
                recurse_limits.wf(),
                total == i,
                count == sum_limits(t0, self.remaining().take(i as int).map_values(|p: (DateTimeOfDay, u64)| p.0)),
                count <= i * LIMIT_CAP,
                same_gets(t0, *recurse_limits),
                forall|d2: DateTimeOfDay|
                    #[trigger] recurse_limits.spec_lookup(d2) == (if t0.spec_lookup(d2) is Some {
                        t0.spec_lookup(d2)
                    } else if self.remaining().take(i as int).map_values(
                        |p: (DateTimeOfDay, u64)| p.0,
                    ).contains(d2) {
                        Some(1u64)
                    } else {
                        None
                    }),
            decreases n - i,
        {
            let d = self.remaining_choices[i].0;
            let ghost before_tab = *recurse_limits;
            let v = recurse_limits.get_or_insert(d);
            proof {
                let pre = self.remaining().take(i as int).map_values(
                    |p: (DateTimeOfDay, u64)| p.0,
                );
                let post = self.remaining().take(i as int + 1).map_values(
                    |p: (DateTimeOfDay, u64)| p.0,
                );
                assert(post.drop_last() =~= pre);
                assert(post.last() == self.remaining()[i as int].0);
                assert((i + 1) * LIMIT_CAP == i * LIMIT_CAP + LIMIT_CAP) by (nonlinear_arith);
                let mapped = self.remaining().map_values(|p: (DateTimeOfDay, u64)| p.0);
                assert(pre =~= mapped.take(i as int));
                assert(post =~= mapped.take(i as int + 1));
                assert forall|d2: DateTimeOfDay| true implies #[trigger] recurse_limits.spec_lookup(
                    d2,
                ) == (if t0.spec_lookup(d2) is Some {
                    t0.spec_lookup(d2)
                } else if mapped.take(i as int + 1).contains(d2) {
                    Some(1u64)
                } else {
                    None
                }) by {
                    lemma_contains_take_step(mapped, i as int, d2);
                    assert(mapped[i as int] == d);
                    if d2 == d {
                        if t0.spec_lookup(d) is Some {
                            assert(before_tab.spec_lookup(d) == t0.spec_lookup(d));
                        } else {
                            assert(before_tab.spec_get(d) == t0.spec_get(d));
                        }
                    }
                }
            }
            count = count + v;
            total = total + 1;
            i = i + 1;
        }
        proof {
            assert(self.remaining().take(n as int) =~= self.remaining());
            assert(self.remaining().take(n as int).map_values(|p: (DateTimeOfDay, u64)| p.0)
                =~= self.remaining().map_values(|p: (DateTimeOfDay, u64)| p.0));
        }
        // the active date
        let ghost before_active = *recurse_limits;
        let srhythm_limit = recurse_limits.get_or_insert(self.heap_key.0);
        count = count + srhythm_limit;
        total = total + 1;
        proof {
            assert(self.passed().take(0) =~= Seq::<DateTimeOfDay>::empty());
            assert((self.remaining().len() + 1) * LIMIT_CAP == self.remaining().len() * LIMIT_CAP
                + LIMIT_CAP) by (nonlinear_arith);
            let mapped = self.remaining().map_values(|p: (DateTimeOfDay, u64)| p.0);
            assert forall|d2: DateTimeOfDay| true implies #[trigger] recurse_limits.spec_lookup(
                d2,
            ) == (if t0.spec_lookup(d2) is Some {
                t0.spec_lookup(d2)
            } else if mapped.contains(d2) || d2 == self.key().0 {
                Some(1u64)
            } else {
                None
            }) by {
                if d2 == self.key().0 {
                    if t0.spec_lookup(d2) is Some {
                        assert(before_active.spec_lookup(d2) == t0.spec_lookup(d2));
                    } else {
                        assert(before_active.spec_get(d2) == t0.spec_get(d2));
                    }
                }
            }
        }
        // the passed-over dates
        let pn = self.passed_over_choices.len();
        let mut i: usize = 0;
        while i < pn
            invariant
                0 <= i <= pn,
                pn == self.passed().len(),
                pn <= 800_000,
                self.remaining().len() <= 800_000,
                t0.wf(),
                recurse_limits.wf(),
                total == self.remaining().len() + 1 + i,
                srhythm_limit == t0.spec_get(self.key().0),
                1 <= srhythm_limit <= LIMIT_CAP,
                count == sum_limits(t0, self.remaining().map_values(|p: (DateTimeOfDay, u64)| p.0))
                    + srhythm_limit + sum_limits(t0, self.passed().take(i as int)),
                count <= (self.remaining().len() + 1 + i) * LIMIT_CAP,
                same_gets(t0, *recurse_limits),
                forall|d2: DateTimeOfDay|
                    #[trigger] recurse_limits.spec_lookup(d2) == (if t0.spec_lookup(d2) is Some {
                        t0.spec_lookup(d2)
                    } else if self.remaining().map_values(|p: (DateTimeOfDay, u64)| p.0).contains(
                        d2,
                    ) || d2 == self.key().0 || self.passed().take(i as int).contains(d2) {
                        Some(1u64)
                    } else {
                        None
                    }),
            decreases pn - i,
        {
            let d = self.passed_over_choices[i];
            let ghost before_tab = *recurse_limits;
            let v = recurse_limits.get_or_insert(d);
            proof {
                let pre = self.passed().take(i as int);
                let post = self.passed().take(i as int + 1);
                assert(post.drop_last() =~= pre);
                assert(post.last() == self.passed()[i as int]);
                assert((self.remaining().len() + 1 + i + 1) * LIMIT_CAP == (self.remaining().len()
                    + 1 + i) * LIMIT_CAP + LIMIT_CAP) by (nonlinear_arith);
                let mapped = self.remaining().map_values(|p: (DateTimeOfDay, u64)| p.0);
                assert forall|d2: DateTimeOfDay| true implies #[trigger] recurse_limits.spec_lookup(
                    d2,
                ) == (if t0.spec_lookup(d2) is Some {
                    t0.spec_lookup(d2)
                } else if mapped.contains(d2) || d2 == self.key().0 || self.passed().take(
                    i as int + 1,
                ).contains(d2) {
                    Some(1u64)
                } else {
                    None
                }) by {
                    lemma_contains_take_step(self.passed(), i as int, d2);
                    if d2 == d {
                        if t0.spec_lookup(d) is Some {
                            assert(before_tab.spec_lookup(d) == t0.spec_lookup(d));
                        } else {
                            assert(before_tab.spec_get(d) == t0.spec_get(d));
                        }
                    }
                }
            }
            count = count + v;
            total = total + 1;
            i = i + 1;
        }
        proof {
            assert(self.passed().take(pn as int) =~= self.passed());
        }
        let avg = count / total;
        let r = if avg > srhythm_limit {
            avg
        } else {
            srhythm_limit
        };
        proof {
            let mapped = self.remaining().map_values(|p: (DateTimeOfDay, u64)| p.0);
            let dates = mapped + seq![self.key().0] + self.passed();
            lemma_sum_limits_concat(t0, mapped + seq![self.key().0], self.passed());
            lemma_sum_limits_concat(t0, mapped, seq![self.key().0]);
            let single = seq![self.key().0];
            assert(single.len() == 1);
            assert(single.last() == self.key().0);
            assert(single.drop_last() =~= Seq::<DateTimeOfDay>::empty());
            assert(sum_limits(t0, single) == sum_limits(t0, single.drop_last()) + t0.spec_get(
                single.last(),
            ));
            assert(sum_limits(t0, single) == t0.spec_get(self.key().0));
            assert(dates.len() == total);
            assert(count == sum_limits(t0, dates));
            assert(count / total <= LIMIT_CAP) by (nonlinear_arith)
                requires
                    total > 0,
                    count <= total * LIMIT_CAP,
            ;
        }
        r
    }
}

/// A candidate fresh from `SmoothRhythm::new` is well formed for any window
/// start at or before its target.
pub proof fn lemma_fresh_wf(c: SmoothRhythm, start: DateTimeOfDay, rhythm: Rhythm)
    requires
        wf_rhythm(rhythm),
        crate::rhythms::progressive(rhythm),
        c.spec_rhythm() == rhythm,
        dtod_le(start, c.target()),
        -TARGET_RANGE <= c.target().day <= TARGET_RANGE,
        c.key() == (c.target(), 0u64),
        c.remaining() == choice_seq(c.target(), spec_slider(rhythm)).skip(1).reverse(),
        c.passed() == Seq::<DateTimeOfDay>::empty(),
        spec_slider(rhythm) == (Slider { before: 0, after: 0 }) ==> dtod_le(start, c.seed())
            && occ_reachable(rhythm, c.seed(), c.target()),
    ensures
        wf_cand(c, start),
{
    let cs = choice_seq(c.target(), spec_slider(rhythm));
    assert(cs[0] == (c.target(), 0u64));
    assert(c.passed() =~= Seq::new(0, |j: int| clamp_up(cs[j].0, start)));
}

/// Membership in a prefix grows one element at a time.
proof fn lemma_contains_take_step<T>(s: Seq<T>, i: int, x: T)
    requires
        0 <= i < s.len(),
    ensures
        s.take(i + 1).contains(x) <==> (s.take(i).contains(x) || s[i] == x),
{
    if s.take(i + 1).contains(x) {
        let j = choose|j: int| 0 <= j < s.take(i + 1).len() && #[trigger] s.take(i + 1)[j] == x;
        if j < i {
            assert(s.take(i)[j] == x);
        } else {
            assert(s[i] == x);
        }
    }
    if s.take(i).contains(x) {
        let j = choose|j: int| 0 <= j < s.take(i).len() && #[trigger] s.take(i)[j] == x;
        assert(s.take(i + 1)[j] == x);
    }
    if s[i] == x {
        assert(s.take(i + 1)[i] == x);
    }
}

/// The dates a candidate's capacity estimate touches: its untried
/// alternates, its active date, and its passed-over dates.
pub open spec fn cand_mentions(c: SmoothRhythm, d: DateTimeOfDay) -> bool {
    ||| c.remaining().map_values(|p: (DateTimeOfDay, u64)| p.0).contains(d)
    ||| d == c.key().0
    ||| c.passed().contains(d)
}

/// Whether two tables give every date the same effective capacity.
pub open spec fn same_gets(a: LimitTable, b: LimitTable) -> bool {
    forall|d: DateTimeOfDay| #[trigger] b.spec_get(d) == a.spec_get(d)
}

/// The sum of the effective capacities of a list of dates.
pub open spec fn sum_limits(t: LimitTable, ds: Seq<DateTimeOfDay>) -> int
    decreases ds.len(),
{
    if ds.len() == 0 {
        0
    } else {
        sum_limits(t, ds.drop_last()) + t.spec_get(ds.last())
    }
}

proof fn lemma_sum_limits_concat(t: LimitTable, a: Seq<DateTimeOfDay>, b: Seq<DateTimeOfDay>)
    ensures
        sum_limits(t, a + b) == sum_limits(t, a) + sum_limits(t, b),
    decreases b.len(),
{
    if b.len() == 0 {
        assert(a + b =~= a);
    } else {
        assert((a + b).drop_last() =~= a + b.drop_last());
        assert((a + b).last() == b.last());
        lemma_sum_limits_concat(t, a, b.drop_last());
    }
}

proof fn lemma_sum_limits_bounds(t: LimitTable, ds: Seq<DateTimeOfDay>)
    requires
        t.wf(),
    ensures
        0 <= sum_limits(t, ds),
    decreases ds.len(),
{
    if ds.len() > 0 {
        lemma_sum_limits_bounds(t, ds.drop_last());
    }
}

/// The capacity demand estimate of a candidate over a table: the average of
/// the capacities over all its dates, or the active date's capacity if that
/// is larger.
pub open spec fn spec_dtod_limit(c: SmoothRhythm, t: LimitTable) -> u64 {
    let dates = c.remaining().map_values(|p: (DateTimeOfDay, u64)| p.0) + seq![c.key().0]
        + c.passed();
    let total = dates.len() as int;
    let avg = sum_limits(t, dates) / total;
    let cur = t.spec_get(c.key().0) as int;
    if avg > cur {
        avg as u64
    } else {
        cur as u64
    }
}


/// Whether `a` is selected before `b`: the lower (date, priority) pair
/// first, and among equals the one with fewer remaining choices (the least
/// flexible) first.
pub open spec fn cand_better(a: SmoothRhythm, b: SmoothRhythm) -> bool {
    ||| dtod_lt(a.key().0, b.key().0)
    ||| (a.key().0 == b.key().0 && a.key().1 < b.key().1)
    ||| (a.key().0 == b.key().0 && a.key().1 == b.key().1 && a.remaining().len()
        < b.remaining().len())
}

/// Whether `a` and `b` tie under the selection order.
pub open spec fn cand_equiv(a: SmoothRhythm, b: SmoothRhythm) -> bool {
    a.key() == b.key() && a.remaining().len() == b.remaining().len()
}

fn better(a: &SmoothRhythm, b: &SmoothRhythm) -> (r: bool)
    ensures
        r == cand_better(*a, *b),
{
    let ka = a.heap_key();
    let kb = b.heap_key();
    if ka.0.lt(&kb.0) {
        true
    } else if kb.0.lt(&ka.0) {
        false
    } else if ka.1 != kb.1 {
        ka.1 < kb.1
    } else {
        a.remaining_len() < b.remaining_len()
    }
}

/// The pending candidate processed next: the best under the selection
/// order, and among ties the one that entered the pending set last.
fn select_best(heap: &Vec<SmoothRhythm>) -> (r: usize)
    requires
        heap@.len() > 0,
    ensures
        r < heap@.len(),
        forall|j: int| 0 <= j < heap@.len() ==> !cand_better(#[trigger] heap@[j], heap@[r as int]),
        forall|j: int|
            r < j < heap@.len() ==> !cand_equiv(#[trigger] heap@[j], heap@[r as int]),
{
    let n = heap.len();
    let mut best: usize = 0;
    let mut j: usize = 1;
    while j < n
        invariant
            0 <= best < j <= n,
            n == heap@.len(),
            forall|k: int| 0 <= k < j ==> !cand_better(#[trigger] heap@[k], heap@[best as int]),
            forall|k: int|
                best < k < j ==> !cand_equiv(#[trigger] heap@[k], heap@[best as int]),
        decreases n - j,
    {
        if !better(&heap[best], &heap[j]) {
            proof {
                assert forall|k: int| 0 <= k < j + 1 implies !cand_better(
                    #[trigger] heap@[k],
                    heap@[j as int],
                ) by {
                    if k < j {
                        assert(!cand_better(heap@[k], heap@[best as int]));
                    }
                }
            }
            best = j;
        }
        j = j + 1;
    }
    best
}

/// The computed assignment table: for each date, the candidates placed
/// there, in assignment order, with the ghost record of every placement.
pub struct Schedule {
    slots: Vec<(DateTimeOfDay, Vec<SmoothRhythm>)>,
    placements: Ghost<Seq<(DateTimeOfDay, int, int)>>,
}

/// The index of the slot holding `d`, if any.
pub open spec fn slot_idx(ss: Seq<(DateTimeOfDay, Vec<SmoothRhythm>)>, d: DateTimeOfDay) -> Option<
    int,
>
    decreases ss.len(),
{
    if ss.len() == 0 {
        None
    } else if ss[0].0 == d {
        Some(0int)
    } else {
        match slot_idx(ss.skip(1), d) {
            Some(i) => Some(i + 1),
            None => None,
        }
    }
}

/// How many of the recorded placements fell on `d`.
pub open spec fn recs_count(h: Seq<(DateTimeOfDay, int, int)>, d: DateTimeOfDay) -> int
    decreases h.len(),
{
    if h.len() == 0 {
        0
    } else {
        recs_count(h.drop_last(), d) + if h.last().0 == d {
            1int
        } else {
            0int
        }
    }
}

impl Schedule {
    /// The slots, in ascending date order.
    pub closed spec fn slots_seq(&self) -> Seq<(DateTimeOfDay, Vec<SmoothRhythm>)> {
        self.slots@
    }

    /// The record of every placement of this attempt, in order: the date,
    /// the number already placed there, and the capacity allowed at that
    /// moment.
    pub closed spec fn placements_seq(&self) -> Seq<(DateTimeOfDay, int, int)> {
        self.placements@
    }

    /// The number of candidates placed on `d`.
    pub open spec fn spec_count_at(&self, d: DateTimeOfDay) -> int {
        match slot_idx(self.slots_seq(), d) {
            Some(i) => self.slots_seq()[i].1@.len() as int,
            None => 0,
        }
    }
}

/// The schedule invariant for a window starting at `start`: slots ascend by
/// date, every candidate sits in the slot of its active date and is well
/// formed, every recorded placement was within the capacity computed for it
/// at that moment, and the slots hold exactly the recorded placements.
pub open spec fn wf_sched(s: Schedule, start: DateTimeOfDay) -> bool {
    &&& forall|i: int, j: int|
        0 <= i < j < s.slots_seq().len() ==> dtod_lt(
            (#[trigger] s.slots_seq()[i]).0,
            (#[trigger] s.slots_seq()[j]).0,
        )
    &&& forall|i: int| 0 <= i < s.slots_seq().len() ==> (#[trigger] s.slots_seq()[i]).1@.len() > 0
    &&& forall|i: int, j: int|
        0 <= i < s.slots_seq().len() && 0 <= j < (#[trigger] s.slots_seq()[i]).1@.len() ==> {
            &&& wf_cand(#[trigger] s.slots_seq()[i].1@[j], start)
            &&& s.slots_seq()[i].1@[j].key().0 == s.slots_seq()[i].0
            &&& s.slots_seq()[i].1@[j].target().day <= crate::time::DAY_MAX
        }
    &&& forall|k: int|
        0 <= k < s.placements_seq().len() ==> {
            &&& 0 <= (#[trigger] s.placements_seq()[k]).1 < s.placements_seq()[k].2
            &&& s.placements_seq()[k].1 == recs_count(
                s.placements_seq().take(k),
                s.placements_seq()[k].0,
            )
        }
    &&& forall|d: DateTimeOfDay| #[trigger] s.spec_count_at(d) == recs_count(s.placements_seq(), d)
}

proof fn lemma_slot_present(ss: Seq<(DateTimeOfDay, Vec<SmoothRhythm>)>, i: int)
    requires
        0 <= i < ss.len(),
        forall|j: int| 0 <= j < i ==> (#[trigger] ss[j]).0 != ss[i].0,
    ensures
        slot_idx(ss, ss[i].0) == Some(i),
    decreases i,
{
    if i == 0 {
    } else {
        assert(forall|j: int| 0 <= j < i - 1 ==> (#[trigger] ss.skip(1)[j]) == ss[j + 1]);
        lemma_slot_present(ss.skip(1), i - 1);
        assert(ss.skip(1)[i - 1] == ss[i]);
    }
}

/// A found slot index holds the date looked up.
proof fn lemma_slot_idx_char(ss: Seq<(DateTimeOfDay, Vec<SmoothRhythm>)>, d: DateTimeOfDay)
    ensures
        slot_idx(ss, d) matches Some(k) ==> 0 <= k < ss.len() && ss[k].0 == d,
    decreases ss.len(),
{
    if ss.len() > 0 && ss[0].0 != d {
        lemma_slot_idx_char(ss.skip(1), d);
        if slot_idx(ss.skip(1), d) is Some {
            let k = slot_idx(ss.skip(1), d).unwrap();
            assert(ss.skip(1)[k] == ss[k + 1]);
        }
    }
}

proof fn lemma_slot_absent(ss: Seq<(DateTimeOfDay, Vec<SmoothRhythm>)>, d: DateTimeOfDay)
    requires
        forall|j: int| 0 <= j < ss.len() ==> (#[trigger] ss[j]).0 != d,
    ensures
        slot_idx(ss, d) is None,
    decreases ss.len(),
{
    if ss.len() > 0 {
        assert(forall|j: int|
            0 <= j < ss.skip(1).len() ==> (#[trigger] ss.skip(1)[j]) == ss[j + 1]);
        lemma_slot_absent(ss.skip(1), d);
    }
}

/// Indexes into two slot lists that agree except at one replaced or
/// inserted position resolve alike away from it.
proof fn lemma_slot_idx_update(
    ss: Seq<(DateTimeOfDay, Vec<SmoothRhythm>)>,
    tt: Seq<(DateTimeOfDay, Vec<SmoothRhythm>)>,
    i: int,
    d: DateTimeOfDay,
)
    requires
        0 <= i < ss.len(),
        tt.len() == ss.len(),
        forall|j: int| 0 <= j < ss.len() && j != i ==> #[trigger] tt[j] == ss[j],
        tt[i].0 == ss[i].0,
        forall|p: int, q: int| 0 <= p < q < ss.len() ==> (#[trigger] ss[p]).0 != (#[trigger] ss[q]).0,
    ensures
        slot_idx(tt, d) == slot_idx(ss, d),
        d == ss[i].0 ==> slot_idx(ss, d) == Some(i),
    decreases i,
{
    if exists|p: int| 0 <= p < ss.len() && (#[trigger] ss[p]).0 == d {
        let p = choose|p: int| 0 <= p < ss.len() && (#[trigger] ss[p]).0 == d;
        assert(forall|j: int| 0 <= j < p ==> (#[trigger] ss[j]).0 != d);
        lemma_slot_present(ss, p);
        assert(forall|j: int| 0 <= j < p ==> (#[trigger] tt[j]).0 != d);
        assert(tt[p].0 == d);
        lemma_slot_present(tt, p);
        if d == ss[i].0 {
            assert(p == i);
        }
    } else {
        assert(forall|p: int| 0 <= p < ss.len() ==> (#[trigger] ss[p]).0 != d);
        lemma_slot_absent(ss, d);
        assert forall|p: int| 0 <= p < tt.len() implies (#[trigger] tt[p]).0 != d by {
            if p != i {
                assert(tt[p] == ss[p]);
            }
        }
        lemma_slot_absent(tt, d);
    }
}

/// Indexes into a slot list with one fresh entry inserted resolve alike for
/// every other date.
proof fn lemma_slot_idx_insert(
    ss: Seq<(DateTimeOfDay, Vec<SmoothRhythm>)>,
    tt: Seq<(DateTimeOfDay, Vec<SmoothRhythm>)>,
    i: int,
    d: DateTimeOfDay,
)
    requires
        0 <= i <= ss.len(),
        tt.len() == ss.len() + 1,
        forall|j: int| 0 <= j < i ==> #[trigger] tt[j] == ss[j],
        forall|j: int| i < j < tt.len() ==> #[trigger] tt[j] == ss[j - 1],
        tt[i].0 != d,
        forall|p: int, q: int| 0 <= p < q < ss.len() ==> (#[trigger] ss[p]).0 != (#[trigger] ss[q]).0,
    ensures
        match slot_idx(tt, d) {
            Some(k) => slot_idx(ss, d) is Some && tt[k] == ss[slot_idx(ss, d).unwrap()],
            None => slot_idx(ss, d) is None,
        },
{
    if exists|p: int| 0 <= p < ss.len() && (#[trigger] ss[p]).0 == d {
        let p = choose|p: int| 0 <= p < ss.len() && (#[trigger] ss[p]).0 == d;
        assert(forall|j: int| 0 <= j < p ==> (#[trigger] ss[j]).0 != d);
        lemma_slot_present(ss, p);
        if p < i {
            assert(tt[p].0 == d);
            assert(forall|j: int| 0 <= j < p ==> (#[trigger] tt[j]).0 != d);
            lemma_slot_present(tt, p);
        } else {
            assert(tt[p + 1] == ss[p]);
            assert forall|j: int| 0 <= j < p + 1 implies (#[trigger] tt[j]).0 != d by {
                if j < i {
                    assert(tt[j] == ss[j]);
                } else if j > i {
                    assert(tt[j] == ss[j - 1]);
                }
            }
            lemma_slot_present(tt, p + 1);
        }
    } else {
        assert(forall|p: int| 0 <= p < ss.len() ==> (#[trigger] ss[p]).0 != d);
        lemma_slot_absent(ss, d);
        assert forall|p: int| 0 <= p < tt.len() implies (#[trigger] tt[p]).0 != d by {
            if p < i {
                assert(tt[p] == ss[p]);
            } else if p > i {
                assert(tt[p] == ss[p - 1]);
            }
        }
        lemma_slot_absent(tt, d);
    }
}

proof fn lemma_recs_count_push(h: Seq<(DateTimeOfDay, int, int)>, rec: (DateTimeOfDay, int, int), d: DateTimeOfDay)
    ensures
        recs_count(h.push(rec), d) == recs_count(h, d) + if rec.0 == d {
            1int
        } else {
            0int
        },
{
    assert(h.push(rec).drop_last() =~= h);
    assert(h.push(rec).last() == rec);
}

/// The first position whose slot date is not below `d`.
fn find_slot_lower(slots: &Vec<(DateTimeOfDay, Vec<SmoothRhythm>)>, d: DateTimeOfDay) -> (r:
    usize)
    ensures
        r <= slots@.len(),
        forall|j: int| 0 <= j < r ==> dtod_lt((#[trigger] slots@[j]).0, d),
        r < slots@.len() ==> !dtod_lt(slots@[r as int].0, d),
{
    let n = slots.len();
    let mut i: usize = 0;
    while i < n
        invariant
            0 <= i <= n,
            n == slots@.len(),
            forall|j: int| 0 <= j < i ==> dtod_lt((#[trigger] slots@[j]).0, d),
        decreases n - i,
    {
        let key = slots[i].0;
        if !key.lt(&d) {
            return i;
        }
        i = i + 1;
    }
    i
}

/// Whether the slot at `i` holds exactly the date `d`.
fn slot_key_is(slots: &Vec<(DateTimeOfDay, Vec<SmoothRhythm>)>, i: usize, d: DateTimeOfDay) -> (r:
    bool)
    requires
        i < slots@.len(),
    ensures
        r == (slots@[i as int].0 == d),
{
    slots[i].0 == d
}

impl Schedule {
    /// An empty schedule.
    pub fn new_empty() -> (r: Schedule)
        ensures
            r.slots_seq() == Seq::<(DateTimeOfDay, Vec<SmoothRhythm>)>::empty(),
            r.placements_seq() == Seq::<(DateTimeOfDay, int, int)>::empty(),
            forall|start: DateTimeOfDay| wf_sched(r, start),
            forall|wlimit: DateTimeOfDay| targets_within(r, wlimit),
    {
        let r = Schedule { slots: Vec::new(), placements: Ghost(Seq::empty()) };
        proof {
            assert forall|start: DateTimeOfDay| wf_sched(r, start) by {
                assert forall|d: DateTimeOfDay| #[trigger] r.spec_count_at(d) == recs_count(
                    r.placements_seq(),
                    d,
                ) by {
                    lemma_slot_absent(r.slots_seq(), d);
                }
            }
        }
        r
    }

    /// The number of candidates already placed on `d`.
    pub fn count_at(&self, d: DateTimeOfDay, Ghost(start): Ghost<DateTimeOfDay>) -> (r: usize)
        requires
            wf_sched(*self, start),
        ensures
            r == self.spec_count_at(d),
    {
        let n = self.slots.len();
        let mut i: usize = 0;
        while i < n
            invariant
                0 <= i <= n,
                n == self.slots_seq().len(),
                wf_sched(*self, start),
                forall|j: int| 0 <= j < i ==> (#[trigger] self.slots_seq()[j]).0 != d,
            decreases n - i,
        {
            if self.slots[i].0 == d {
                proof {
                    lemma_slot_present(self.slots_seq(), i as int);
                }
                return self.slots[i].1.len();
            }
            i = i + 1;
        }
        proof {
            lemma_slot_absent(self.slots_seq(), d);
        }
        0
    }

    /// Places a candidate on its active date, recording the capacity it was
    /// admitted under.
    #[verifier::rlimit(60)]
    pub fn place(
        &mut self,
        c: SmoothRhythm,
        Ghost(start): Ghost<DateTimeOfDay>,
        Ghost(limit): Ghost<int>,
        Ghost(wlimit): Ghost<DateTimeOfDay>,
    )
        requires
            wf_sched(*old(self), start),
            wf_cand(c, start),
            c.target().day <= crate::time::DAY_MAX,
            old(self).spec_count_at(c.key().0) < limit,
            targets_within(*old(self), wlimit),
            dtod_lt(c.target(), wlimit),
        ensures
            wf_sched(*final(self), start),
            targets_within(*final(self), wlimit),
            cand_scheduled(*final(self), c),
            forall|c2: SmoothRhythm|
                cand_scheduled(*old(self), c2) ==> #[trigger] cand_scheduled(*final(self), c2),
            final(self).spec_count_at(c.key().0) == old(self).spec_count_at(c.key().0) + 1,
            forall|d: DateTimeOfDay|
                d != c.key().0 ==> #[trigger] final(self).spec_count_at(d) == old(self).spec_count_at(d),
            final(self).placements_seq() == old(self).placements_seq().push(
                (c.key().0, old(self).spec_count_at(c.key().0), limit),
            ),
    {
        let d = c.heap_key().0;
        let ghost oldss = self.slots@;
        let ghost oldh = self.placements@;
        let ghost rec = (c.key().0, old(self).spec_count_at(c.key().0), limit);
        let n = self.slots.len();
        let i = find_slot_lower(&self.slots, d);
        proof {
            self.placements@ = oldh.push(rec);
        }
        if i < n && slot_key_is(&self.slots, i, d) {
            // existing slot
            let mut pair = self.slots.remove(i);
            pair.1.push(c);
            self.slots.insert(i, pair);
            proof {
                let newss = self.slots@;
                assert(forall|j: int| 0 <= j < newss.len() && j != i ==> newss[j] == oldss[j]);
                assert(newss[i as int].0 == oldss[i as int].0);
                assert(newss[i as int].1@ =~= oldss[i as int].1@.push(c));
                assert forall|p: int, q: int|
                    0 <= p < q < oldss.len() implies (#[trigger] oldss[p]).0 != (
                #[trigger] oldss[q]).0 by {
                    assert(dtod_lt(oldss[p].0, oldss[q].0));
                }
                lemma_slot_present(oldss, i as int);
                assert forall|d2: DateTimeOfDay| true implies #[trigger] self.spec_count_at(
                    d2,
                ) == recs_count(self.placements_seq(), d2) by {
                    lemma_slot_idx_update(oldss, newss, i as int, d2);
                    lemma_slot_idx_char(oldss, d2);
                    lemma_slot_idx_char(newss, d2);
                    lemma_recs_count_push(oldh, rec, d2);
                    assert(old(self).spec_count_at(d2) == recs_count(oldh, d2));
                    if d2 == d {
                        assert(slot_idx(newss, d2) == Some(i as int));
                        assert(self.spec_count_at(d2) == newss[i as int].1@.len());
                    }
                }
                assert forall|k: int|
                    0 <= k < self.placements_seq().len() implies {
                    &&& 0 <= (#[trigger] self.placements_seq()[k]).1 < self.placements_seq()[k].2
                    &&& self.placements_seq()[k].1 == recs_count(
                        self.placements_seq().take(k),
                        self.placements_seq()[k].0,
                    )
                } by {
                    if k < oldh.len() {
                        assert(self.placements_seq()[k] == oldh[k]);
                        assert(self.placements_seq().take(k) =~= oldh.take(k));
                    } else {
                        assert(self.placements_seq().take(k) =~= oldh);
                    }
                }
                assert(wf_sched(*self, start));
                assert forall|i2: int, j2: int|
                    0 <= i2 < self.slots_seq().len() && 0 <= j2 < self.slots_seq()[i2].1@.len()
                    implies dtod_lt((#[trigger] self.slots_seq()[i2].1@[j2]).target(), wlimit) by {
                    if i2 == i && j2 == newss[i as int].1@.len() - 1 {
                    } else if i2 == i {
                        assert(newss[i2].1@[j2] == oldss[i2].1@[j2]);
                    } else {
                        assert(newss[i2] == oldss[i2]);
                    }
                }
                assert(newss[i as int].1@[newss[i as int].1@.len() - 1] == c);
                assert(cand_scheduled(*self, c));
                assert forall|c2: SmoothRhythm| cand_scheduled(*old(self), c2) implies #[trigger] cand_scheduled(*self, c2) by {
                    let (i2, j2) = choose|i2: int, j2: int|
                        0 <= i2 < oldss.len() && 0 <= j2 < oldss[i2].1@.len() && (
                        #[trigger] oldss[i2].1@[j2]) == c2;
                    if i2 == i {
                        assert(newss[i2].1@[j2] == oldss[i2].1@[j2]);
                    } else {
                        assert(newss[i2] == oldss[i2]);
                    }
                    assert(newss[i2].1@[j2] == c2);
                }
                lemma_recs_count_push(oldh, rec, c.key().0);
                assert forall|d2: DateTimeOfDay| d2 != c.key().0 implies #[trigger] self.spec_count_at(d2) == old(self).spec_count_at(d2) by {
                    lemma_recs_count_push(oldh, rec, d2);
                    assert(old(self).spec_count_at(d2) == recs_count(oldh, d2));
                }
                assert(self.spec_count_at(c.key().0) == old(self).spec_count_at(c.key().0) + 1);
            }
        } else {
            proof {
                if i < n {
                    assert(!dtod_lt(oldss[i as int].0, d) && oldss[i as int].0 != d);
                    assert(dtod_lt(d, oldss[i as int].0));
                }
            }
            let mut fresh: Vec<SmoothRhythm> = Vec::new();
            fresh.push(c);
            self.slots.insert(i, (d, fresh));
            proof {
                let newss = self.slots@;
                assert(forall|j: int| 0 <= j < i ==> #[trigger] newss[j] == oldss[j]);
                assert(forall|j: int| i < j < newss.len() ==> #[trigger] newss[j] == oldss[j - 1]);
                assert(newss[i as int].0 == d);
                assert(newss[i as int].1@ =~= seq![c]);
                assert forall|p: int, q: int|
                    0 <= p < q < oldss.len() implies (#[trigger] oldss[p]).0 != (
                #[trigger] oldss[q]).0 by {
                    assert(dtod_lt(oldss[p].0, oldss[q].0));
                }
                // sortedness of the new list
                assert forall|p: int, q: int| 0 <= p < q < newss.len() implies dtod_lt(
                    (#[trigger] newss[p]).0,
                    (#[trigger] newss[q]).0,
                ) by {
                    if q == i {
                        assert(dtod_lt(oldss[p].0, d));
                    } else if p == i {
                        assert(i < n);
                        assert(dtod_lt(d, oldss[i as int].0));
                        if q - 1 == i {
                        } else {
                            assert(dtod_lt(oldss[i as int].0, oldss[q - 1].0));
                        }
                    } else if p < i && q > i {
                        if p == q - 1 {
                            assert(dtod_lt(oldss[p].0, d));
                            assert(dtod_lt(d, oldss[i as int].0));
                        } else {
                            assert(dtod_lt(oldss[p].0, oldss[q - 1].0));
                        }
                    } else {
                    }
                }
                assert forall|j: int| 0 <= j < i implies (#[trigger] newss[j]).0 != d by {
                    assert(newss[j] == oldss[j]);
                    assert(dtod_lt(oldss[j].0, d));
                }
                lemma_slot_present(newss, i as int);
                assert(forall|j: int| 0 <= j < i ==> dtod_lt((#[trigger] oldss[j]).0, d));
                assert forall|j: int| 0 <= j < oldss.len() implies (#[trigger] oldss[j]).0
                    != d by {
                    if j < i {
                    } else {
                        if i < n {
                            if j == i {
                                assert(dtod_lt(d, oldss[j].0));
                            } else {
                                assert(dtod_lt(oldss[i as int].0, oldss[j].0));
                                assert(dtod_lt(d, oldss[j].0));
                            }
                        }
                    }
                }
                lemma_slot_absent(oldss, d);
                assert forall|d2: DateTimeOfDay| true implies #[trigger] self.spec_count_at(
                    d2,
                ) == recs_count(self.placements_seq(), d2) by {
                    lemma_recs_count_push(oldh, rec, d2);
                    assert(old(self).spec_count_at(d2) == recs_count(oldh, d2));
                    if d2 == d {
                        assert(slot_idx(newss, d2) == Some(i as int));
                        assert(self.spec_count_at(d2) == newss[i as int].1@.len());
                    } else {
                        lemma_slot_idx_insert(oldss, newss, i as int, d2);
                    }
                }
                assert forall|k: int|
                    0 <= k < self.placements_seq().len() implies {
                    &&& 0 <= (#[trigger] self.placements_seq()[k]).1 < self.placements_seq()[k].2
                    &&& self.placements_seq()[k].1 == recs_count(
                        self.placements_seq().take(k),
                        self.placements_seq()[k].0,
                    )
                } by {
                    if k < oldh.len() {
                        assert(self.placements_seq()[k] == oldh[k]);
                        assert(self.placements_seq().take(k) =~= oldh.take(k));
                    } else {
                        assert(self.placements_seq().take(k) =~= oldh);
                    }
                }
                assert(wf_sched(*self, start));
                assert forall|i2: int, j2: int|
                    0 <= i2 < self.slots_seq().len() && 0 <= j2 < self.slots_seq()[i2].1@.len()
                    implies dtod_lt((#[trigger] self.slots_seq()[i2].1@[j2]).target(), wlimit) by {
                    if i2 == i {
                        assert(newss[i2].1@[j2] == c);
                    } else if i2 < i {
                        assert(newss[i2] == oldss[i2]);
                    } else {
                        assert(newss[i2] == oldss[i2 - 1]);
                    }
                }
                assert(newss[i as int].1@[0] == c);
                assert(cand_scheduled(*self, c));
                assert forall|c2: SmoothRhythm| cand_scheduled(*old(self), c2) implies #[trigger] cand_scheduled(*self, c2) by {
                    let (i2, j2) = choose|i2: int, j2: int|
                        0 <= i2 < oldss.len() && 0 <= j2 < oldss[i2].1@.len() && (
                        #[trigger] oldss[i2].1@[j2]) == c2;
                    if i2 < i {
                        assert(newss[i2].1@[j2] == c2);
                    } else {
                        assert(newss[i2 + 1] == oldss[i2]);
                        assert(newss[i2 + 1].1@[j2] == c2);
                    }
                }
                lemma_recs_count_push(oldh, rec, c.key().0);
                assert forall|d2: DateTimeOfDay| d2 != c.key().0 implies #[trigger] self.spec_count_at(d2) == old(self).spec_count_at(d2) by {
                    lemma_recs_count_push(oldh, rec, d2);
                    assert(old(self).spec_count_at(d2) == recs_count(oldh, d2));
                }
                assert(self.spec_count_at(c.key().0) == old(self).spec_count_at(c.key().0) + 1);
            }
        }
    }
}


impl SmoothRhythm {
    /// The number of passed-over dates.
    pub fn passed_len(&self) -> (r: usize)
        ensures
            r == self.passed().len(),
    {
        self.passed_over_choices.len()
    }

    /// The passed-over date at position `i`.
    pub fn passed_at(&self, i: usize) -> (r: DateTimeOfDay)
        requires
            i < self.passed().len(),
        ensures
            r == self.passed()[i as int],
    {
        self.passed_over_choices[i]
    }
}

/// The rule set the engine accepts: every slider in range, every every-N
/// period at least one day.
pub open spec fn wf_rules(r: crate::cadence::Rhythms) -> bool {
    &&& forall|i: int|
        0 <= i < r.monthlies_seq().len() ==> crate::rhythms::wf_slider(
            (#[trigger] r.monthlies_seq()[i]).slider,
        )
    &&& forall|i: int|
        0 <= i < r.week_dailies_seq().len() ==> crate::rhythms::wf_slider(
            (#[trigger] r.week_dailies_seq()[i]).slider,
        )
    &&& forall|i: int|
        0 <= i < r.every_n_seq().len() ==> crate::rhythms::wf_slider(
            (#[trigger] r.every_n_seq()[i]).slider,
        ) && (#[trigger] r.every_n_seq()[i]).n > r.every_n_seq()[i].slider.before
}

/// Decides whether a loaded rule set meets the engine's requirements, so a
/// caller can establish `wf_rules` before scheduling.
pub fn rules_ok(r: &crate::cadence::Rhythms) -> (b: bool)
    ensures
        b == wf_rules(*r),
{
    let monthlies = r.monthlies();
    let mn = monthlies.len();
    let mut i: usize = 0;
    while i < mn
        invariant
            0 <= i <= mn,
            mn == monthlies@.len(),
            monthlies@ == r.monthlies_seq(),
            forall|k: int|
                0 <= k < i ==> crate::rhythms::wf_slider((#[trigger] r.monthlies_seq()[k]).slider),
        decreases mn - i,
    {
        let s = monthlies[i].slider;
        if !(s.before <= crate::rhythms::SLIDER_MAX && s.after <= crate::rhythms::SLIDER_MAX) {
            return false;
        }
        i = i + 1;
    }
    let weeklies = r.week_dailies();
    let wn = weeklies.len();
    let mut i: usize = 0;
    while i < wn
        invariant
            0 <= i <= wn,
            wn == weeklies@.len(),
            weeklies@ == r.week_dailies_seq(),
            forall|k: int|
                0 <= k < i ==> crate::rhythms::wf_slider(
                    (#[trigger] r.week_dailies_seq()[k]).slider,
                ),
        decreases wn - i,
    {
        let s = weeklies[i].slider;
        if !(s.before <= crate::rhythms::SLIDER_MAX && s.after <= crate::rhythms::SLIDER_MAX) {
            return false;
        }
        i = i + 1;
    }
    let every_n = r.every_n_dailies();
    let en = every_n.len();
    let mut i: usize = 0;
    while i < en
        invariant
            0 <= i <= en,
            en == every_n@.len(),
            every_n@ == r.every_n_seq(),
            forall|k: int|
                0 <= k < mn ==> crate::rhythms::wf_slider((#[trigger] r.monthlies_seq()[k]).slider),
            mn == r.monthlies_seq().len(),
            forall|k: int|
                0 <= k < wn ==> crate::rhythms::wf_slider(
                    (#[trigger] r.week_dailies_seq()[k]).slider,
                ),
            wn == r.week_dailies_seq().len(),
            forall|k: int|
                0 <= k < i ==> crate::rhythms::wf_slider((#[trigger] r.every_n_seq()[k]).slider)
                    && r.every_n_seq()[k].n > r.every_n_seq()[k].slider.before,
        decreases en - i,
    {
        let e = &every_n[i];
        if !(e.slider.before <= crate::rhythms::SLIDER_MAX && e.slider.after
            <= crate::rhythms::SLIDER_MAX && e.n > e.slider.before) {
            return false;
        }
        i = i + 1;
    }
    true
}

/// A heap of pending candidates fit for the window `[start, limit)`.
pub open spec fn wf_heap(h: Seq<SmoothRhythm>, start: DateTimeOfDay, limit: DateTimeOfDay) -> bool {
    forall|k: int|
        0 <= k < h.len() ==> wf_cand(#[trigger] h[k], start) && dtod_lt(h[k].target(), limit)
}

/// An occurrence that reaches the window lies at or after its start.
proof fn lemma_advance_at_or_after(
    r: Rhythm,
    b: DateTimeOfDay,
    start: DateTimeOfDay,
)
    ensures
        crate::rhythms::spec_advance_until(r, b, start) matches Some(t) ==> dtod_le(start, t),
    decreases (if start.day + 1 - b.day > 0 {
        start.day + 1 - b.day
    } else {
        0
    }),
{
    if !dtod_lt(b, start) {
    } else {
        match crate::rhythms::spec_next_dtod(r, b) {
            None => {},
            Some(nb) => {
                if nb.day <= b.day {
                } else {
                    lemma_advance_at_or_after(r, nb, start);
                }
            },
        }
    }
}

/// A starting occurrence lies at or after the window start.
pub proof fn lemma_starting_at_or_after(
    r: Rhythm,
    start: DateTimeOfDay,
    last_seen: DateTimeOfDay,
)
    ensures
        crate::rhythms::spec_starting(r, start, last_seen) matches Some(t) ==> dtod_le(start, t),
{
    match crate::rhythms::spec_next_dtod(r, last_seen) {
        None => {},
        Some(b1) => {
            lemma_advance_at_or_after(r, b1, start);
            match crate::rhythms::spec_next_dtod(r, b1) {
                None => {},
                Some(b2) => {
                    lemma_advance_at_or_after(r, b2, start);
                },
            }
        },
    }
}

/// The completion a rhythm is seeded from: its latest recorded event, or
/// the window start when none is recorded.
pub open spec fn seed_last_seen(
    events: Seq<crate::cadence::Event>,
    r: Rhythm,
    start: DateTimeOfDay,
) -> DateTimeOfDay {
    match crate::cadence::spec_latest_idx(events, r.spec_id(), None) {
        Some(p) => events[p].when,
        None => start,
    }
}

/// Seeds the pending set with a rhythm's first in-window occurrence, if it
/// has one.
fn seed_rhythm(
    heap: &mut Vec<SmoothRhythm>,
    rhythm: Rhythm,
    events: &crate::cadence::Events,
    start: DateTimeOfDay,
    limit: DateTimeOfDay,
)
    requires
        wf_rhythm(rhythm),
        crate::rhythms::progressive(rhythm),
        events.wf(),
        crate::time::wf_dtod(start),
        crate::time::wf_dtod(limit),
        wf_heap(old(heap)@, start, limit),
    ensures
        wf_heap(final(heap)@, start, limit),
        (match crate::rhythms::spec_starting(
            rhythm,
            start,
            seed_last_seen(events.events_seq(), rhythm, start),
        ) {
            Some(t) => if dtod_lt(t, limit) {
                &&& final(heap)@.len() == old(heap)@.len() + 1
                &&& final(heap)@.take(old(heap)@.len() as int) == old(heap)@
                &&& final(heap)@.last().spec_rhythm() == rhythm
                &&& final(heap)@.last().target() == t
                &&& final(heap)@.last().seed() == t
                &&& final(heap)@.last().key() == (t, 0u64)
                &&& final(heap)@.last().remaining() == choice_seq(t, spec_slider(rhythm)).skip(
                    1,
                ).reverse()
                &&& final(heap)@.last().passed() == Seq::<DateTimeOfDay>::empty()
            } else {
                final(heap)@ == old(heap)@
            },
            None => final(heap)@ == old(heap)@,
        }),
{
    let ghost spec_last = seed_last_seen(events.events_seq(), rhythm, start);
    let last_seen = match events.latest_event(rhythm.id()) {
        Some(x) => {
            proof {
                crate::cadence::lemma_latest_idx_range(
                    events.events_seq(),
                    rhythm.spec_id(),
                    None,
                );
                assert(crate::time::wf_dtod(x.when));
            }
            proof {
                assert(x.when == spec_last);
            }
            x.when
        },
        None => start,
    };
    proof {
        assert(last_seen == spec_last);
    }
    let target = match rhythm.starting_beat(start, last_seen) {
        Some(t) => t,
        None => {
            return ;
        },
    };
    proof {
        lemma_starting_at_or_after(rhythm, start, last_seen);
    }
    if target.lt(&limit) {
        let c = SmoothRhythm::new(rhythm, target, Ghost(target));
        proof {
            assert(occ_reachable(c.spec_rhythm(), target, target));
            lemma_fresh_wf(c, start, c.spec_rhythm());
        }
        heap.push(c);
        proof {
            assert forall|k: int| 0 <= k < heap@.len() implies wf_cand(#[trigger] heap@[k], start)
                && dtod_lt(heap@[k].target(), limit) by {
                if k < heap@.len() - 1 {
                    assert(heap@[k] == old(heap)@[k]);
                }
            }
            assert(heap@.take(old(heap)@.len() as int) =~= old(heap)@);
        }
    }
}

/// The first position in a descending list whose period falls below
/// `nval`; equal periods stay in front.
fn find_pos_desc(out: &Vec<crate::rhythms::EveryNDays>, nval: u32) -> (r: usize)
    ensures
        r <= out@.len(),
        forall|q: int| 0 <= q < r ==> (#[trigger] out@[q]).n >= nval,
        r < out@.len() ==> out@[r as int].n < nval,
{
    let m = out.len();
    let mut p: usize = 0;
    while p < m
        invariant
            0 <= p <= m,
            m == out@.len(),
            forall|q: int| 0 <= q < p ==> (#[trigger] out@[q]).n >= nval,
        decreases m - p,
    {
        if out[p].n < nval {
            return p;
        }
        p = p + 1;
    }
    p
}

/// The every-N rhythms in descending order of their period, stably.
fn sort_every_n_desc(input: Vec<crate::rhythms::EveryNDays>) -> (r: Vec<
    crate::rhythms::EveryNDays,
>)
    ensures
        r@.len() == input@.len(),
        forall|i: int| 0 <= i < r@.len() ==> input@.contains(#[trigger] r@[i]),
        forall|j: int| 0 <= j < input@.len() ==> r@.contains(#[trigger] input@[j]),
        forall|i: int, j: int| 0 <= i < j < r@.len() ==> (#[trigger] r@[i]).n >= (#[trigger] r@[j]).n,
{
    let n = input.len();
    let mut out: Vec<crate::rhythms::EveryNDays> = Vec::new();
    let mut i: usize = 0;
    while i < n
        invariant
            0 <= i <= n,
            n == input@.len(),
            out@.len() == i,
            forall|p: int| 0 <= p < out@.len() ==> input@.contains(#[trigger] out@[p]),
            forall|p: int| 0 <= p < i ==> out@.contains(#[trigger] input@[p]),
            forall|p: int, q: int|
                0 <= p < q < out@.len() ==> (#[trigger] out@[p]).n >= (#[trigger] out@[q]).n,
        decreases n - i,
    {
        let x = input[i].dup();
        let ghost oldout = out@;
        let m = out.len();
        let pos = find_pos_desc(&out, x.n);
        out.insert(pos, x);
        proof {
            assert(out@[pos as int] == x);
            assert(x == input@[i as int]);
            assert(forall|p: int| 0 <= p < pos ==> #[trigger] out@[p] == oldout[p]);
            assert(forall|p: int| pos < p < out@.len() ==> #[trigger] out@[p] == oldout[p - 1]);
            assert forall|pp: int| 0 <= pp < out@.len() implies input@.contains(
                #[trigger] out@[pp],
            ) by {
                if pp < pos {
                    assert(out@[pp] == oldout[pp]);
                } else if pp > pos {
                    assert(out@[pp] == oldout[pp - 1]);
                } else {
                    assert(out@[pp] == input@[i as int]);
                    assert(input@.contains(out@[pp]));
                }
            }
            assert forall|pp: int| 0 <= pp < i + 1 implies out@.contains(#[trigger] input@[pp])
                by {
                if pp == i {
                    assert(out@[pos as int] == input@[i as int]);
                } else {
                    let w = choose|w: int| 0 <= w < oldout.len() && oldout[w] == input@[pp];
                    if w < pos {
                        assert(out@[w] == input@[pp]);
                    } else {
                        assert(out@[w + 1] == input@[pp]);
                    }
                }
            }
            assert forall|pp: int, q: int| 0 <= pp < q < out@.len() implies (
            #[trigger] out@[pp]).n >= (#[trigger] out@[q]).n by {
                if q == pos {
                    assert(out@[pp] == oldout[pp]);
                    assert(oldout[pp].n >= x.n);
                } else if pp == pos {
                    assert(out@[q] == oldout[q - 1]);
                    assert(q - 1 >= pos);
                    if q - 1 == pos {
                        assert(pos < m);
                        assert(oldout[pos as int].n < x.n);
                    } else {
                        assert(pos < m);
                        assert(oldout[pos as int].n < x.n);
                        assert(oldout[pos as int].n >= oldout[q - 1].n);
                    }
                } else if pp < pos && q > pos {
                    assert(out@[pp] == oldout[pp]);
                    assert(out@[q] == oldout[q - 1]);
                    if pp == q - 1 {
                        assert(pp < pos && pos < q);
                        assert(false);
                    }
                    assert(oldout[pp].n >= oldout[q - 1].n);
                } else if q < pos {
                    assert(out@[pp] == oldout[pp]);
                    assert(out@[q] == oldout[q]);
                } else {
                    assert(out@[pp] == oldout[pp - 1]);
                    assert(out@[q] == oldout[q - 1]);
                }
            }
        }
        i = i + 1;
    }
    out
}

/// The minimum effective capacity over a list of dates, starting from a
/// given bound.
pub open spec fn min_cap_over(t: LimitTable, ds: Seq<DateTimeOfDay>, acc: int) -> int
    decreases ds.len(),
{
    if ds.len() == 0 {
        acc
    } else {
        let rest = min_cap_over(t, ds.drop_last(), acc);
        let v = t.spec_get(ds.last()) as int;
        if v < rest {
            v
        } else {
            rest
        }
    }
}

/// The water mark a deadlocked candidate raises the table to: one above the
/// smallest current capacity among its passed-over dates, or one above its
/// own capacity estimate if none was passed over.
pub open spec fn spec_water_mark(t: LimitTable, c: SmoothRhythm, dtod_limit: u64) -> int {
    min_cap_over(t, c.passed(), dtod_limit as int) + 1
}

/// The deadlock recovery step: every capacity below the water mark is
/// raised to it (capped), the candidate's passed-over dates entering the
/// table at the default first; no capacity decreases.
pub fn raise_water_mark(recurse_limits: &mut LimitTable, srhythm: &SmoothRhythm, dtod_limit: u64)
    requires
        old(recurse_limits).wf(),
        1 <= dtod_limit <= LIMIT_CAP,
    ensures
        final(recurse_limits).wf(),
        forall|d: DateTimeOfDay|
            #[trigger] final(recurse_limits).spec_lookup(d) == (
            match (if old(recurse_limits).spec_lookup(d) is Some {
                old(recurse_limits).spec_lookup(d)
            } else if srhythm.passed().contains(d) {
                Some(1u64)
            } else {
                None
            }) {
                Some(v) => Some(
                    if (v as int) < spec_water_mark(*old(recurse_limits), *srhythm, dtod_limit) {
                        (if spec_water_mark(*old(recurse_limits), *srhythm, dtod_limit)
                            <= LIMIT_CAP as int {
                            spec_water_mark(*old(recurse_limits), *srhythm, dtod_limit)
                        } else {
                            LIMIT_CAP as int
                        }) as u64
                    } else {
                        v
                    },
                ),
                None => None,
            }),
        forall|d: DateTimeOfDay|
            #[trigger] final(recurse_limits).spec_get(d) >= old(recurse_limits).spec_get(d),
{
    let ghost t0 = *recurse_limits;
    let mut water_mark: u64 = dtod_limit;
    let pn = srhythm.passed_len();
    let mut k: usize = 0;
    proof {
        assert(srhythm.passed().take(0) =~= Seq::<DateTimeOfDay>::empty());
    }
    while k < pn
        invariant
            0 <= k <= pn,
            pn == srhythm.passed().len(),
            t0.wf(),
            recurse_limits.wf(),
            1 <= dtod_limit <= LIMIT_CAP,
            1 <= water_mark <= LIMIT_CAP,
            water_mark as int == min_cap_over(t0, srhythm.passed().take(k as int), dtod_limit as int),
            same_gets(t0, *recurse_limits),
            forall|d2: DateTimeOfDay|
                #[trigger] recurse_limits.spec_lookup(d2) == (if t0.spec_lookup(d2) is Some {
                    t0.spec_lookup(d2)
                } else if srhythm.passed().take(k as int).contains(d2) {
                    Some(1u64)
                } else {
                    None
                }),
        decreases pn - k,
    {
        let d = srhythm.passed_at(k);
        let ghost before_tab = *recurse_limits;
        let v = recurse_limits.get_or_insert(d);
        proof {
            let pre = srhythm.passed().take(k as int);
            let post = srhythm.passed().take(k as int + 1);
            assert(post.drop_last() =~= pre);
            assert(post.last() == srhythm.passed()[k as int]);
            assert(v == t0.spec_get(d));
            assert forall|d2: DateTimeOfDay| true implies #[trigger] recurse_limits.spec_lookup(
                d2,
            ) == (if t0.spec_lookup(d2) is Some {
                t0.spec_lookup(d2)
            } else if post.contains(d2) {
                Some(1u64)
            } else {
                None
            }) by {
                lemma_contains_take_step(srhythm.passed(), k as int, d2);
                if d2 == d {
                    if t0.spec_lookup(d) is Some {
                        assert(before_tab.spec_lookup(d) == t0.spec_lookup(d));
                    } else {
                        assert(before_tab.spec_get(d) == t0.spec_get(d));
                    }
                }
            }
        }
        if v < water_mark {
            water_mark = v;
        }
        k = k + 1;
    }
    proof {
        assert(srhythm.passed().take(pn as int) =~= srhythm.passed());
    }
    let water_mark = water_mark + 1;
    let ghost mid = *recurse_limits;
    recurse_limits.raise_below(water_mark);
    proof {
        assert(water_mark as int == spec_water_mark(t0, *srhythm, dtod_limit));
        assert forall|d: DateTimeOfDay| true implies #[trigger] recurse_limits.spec_get(d)
            >= t0.spec_get(d) by {
            assert(mid.spec_get(d) == t0.spec_get(d));
        }
    }
}

impl Schedule {
    /// Computes the smoothed schedule for the window `[start, limit)`.
    /// Fails exactly when the window is empty or reversed.
    pub fn new(cadence: &Cadence, start: DateTimeOfDay, limit: DateTimeOfDay) -> (r: Result<
        Schedule,
        Error,
    >)
        requires
            crate::time::wf_dtod(start),
            crate::time::wf_dtod(limit),
            wf_rules(cadence.rhythms),
            cadence.events.wf(),
        ensures
            r is Err <==> !dtod_lt(start, limit),
            r matches Err(e) ==> e is InvalidWindow,
            r matches Ok(s) ==> dtod_lt(start, limit) && wf_sched(s, start) && dates_in_range(s)
                && targets_within(s, limit) && all_rules_covered(
                s,
                cadence.rhythms,
                cadence.events.events_seq(),
                start,
                limit,
            ),
    {
        if !start.lt(&limit) {
            return Err(Error::InvalidWindow);
        }
        let mut recurse_limits = LimitTable::new();
        // Deadlock recovery raises capacities and retries the whole
        // allocation.  No bound on the number of retries is proven, so an
        // explicit (far out of reach) cap guards the loop; should it ever be
        // exhausted, one last attempt runs in relaxed mode, which grants
        // each stuck candidate the capacity it needs and therefore always
        // produces a schedule.
        let mut attempts_left: u64 = 1_000_000_000;
        while attempts_left > 0
            invariant
                recurse_limits.wf(),
                crate::time::wf_dtod(start),
                crate::time::wf_dtod(limit),
                dtod_lt(start, limit),
                wf_rules(cadence.rhythms),
                cadence.events.wf(),
            decreases attempts_left,
        {
            attempts_left = attempts_left - 1;
            match Schedule::attempt(cadence, start, limit, &mut recurse_limits, false) {
                Some(sched) => {
                    return Ok(sched);
                },
                None => {
                    // capacities were raised; run the whole attempt again
                },
            }
        }
        match Schedule::attempt(cadence, start, limit, &mut recurse_limits, true) {
            Some(sched) => Ok(sched),
            None => vstd::pervasive::unreached(),
        }
    }

    /// One allocation attempt under the current capacity table.  `None` on
    /// deadlock, after raising the capacities below the water mark.  In
    /// relaxed mode a saturated date grants the stuck candidate the capacity
    /// it needs instead, so the attempt always succeeds.
    fn attempt(
        cadence: &Cadence,
        start: DateTimeOfDay,
        limit: DateTimeOfDay,
        recurse_limits: &mut LimitTable,
        relaxed: bool,
    ) -> (r: Option<Schedule>)
        requires
            old(recurse_limits).wf(),
            crate::time::wf_dtod(start),
            crate::time::wf_dtod(limit),
            dtod_lt(start, limit),
            wf_rules(cadence.rhythms),
            cadence.events.wf(),
        ensures
            final(recurse_limits).wf(),
            r matches Some(s) ==> wf_sched(s, start) && dates_in_range(s) && targets_within(
                s,
                limit,
            ) && all_rules_covered(s, cadence.rhythms, cadence.events.events_seq(), start, limit),
            relaxed ==> r is Some,
    {
        let mut sched = Schedule::new_empty();
        let mut heap: Vec<SmoothRhythm> = Vec::new();
        // Seed in the fixed category order: dailies, monthlies, weeklies,
        // then the every-N rhythms by descending period.
        let dailies = cadence.rhythms.dailies();
        let dn = dailies.len();
        let mut i: usize = 0;
        while i < dn
            invariant
                0 <= i <= dn,
                dn == dailies@.len(),
                dailies@ == cadence.rhythms.dailies_seq(),
                wf_heap(heap@, start, limit),
                cadence.events.wf(),
                crate::time::wf_dtod(start),
                crate::time::wf_dtod(limit),
                dailies_pending(
                    heap@,
                    cadence.rhythms,
                    cadence.events.events_seq(),
                    start,
                    limit,
                    i as int,
                ),
            decreases dn - i,
        {
            let ghost prev = heap@;
            seed_rhythm(&mut heap, Rhythm::Daily(dailies[i].dup()), &cadence.events, start, limit);
            proof {
                assert(heap@.take(prev.len() as int) =~= prev);
                assert forall|k: int|
                    0 <= k < i + 1 && rule_wanted(
                        Rhythm::Daily(#[trigger] cadence.rhythms.dailies_seq()[k]),
                        cadence.events.events_seq(),
                        start,
                        limit,
                    ) implies rhythm_pending(
                    heap@,
                    Rhythm::Daily(cadence.rhythms.dailies_seq()[k]),
                ) by {
                    if k < i {
                        lemma_pending_prefix(
                            prev,
                            heap@,
                            Rhythm::Daily(cadence.rhythms.dailies_seq()[k]),
                        );
                    } else {
                        assert(heap@.last().spec_rhythm() == Rhythm::Daily(
                            cadence.rhythms.dailies_seq()[k],
                        ));
                    }
                }
            }
            i = i + 1;
        }
        let monthlies = cadence.rhythms.monthlies();
        let mn = monthlies.len();
        let mut i: usize = 0;
        while i < mn
            invariant
                0 <= i <= mn,
                mn == monthlies@.len(),
                monthlies@ == cadence.rhythms.monthlies_seq(),
                wf_rules(cadence.rhythms),
                wf_heap(heap@, start, limit),
                cadence.events.wf(),
                crate::time::wf_dtod(start),
                crate::time::wf_dtod(limit),
                dailies_pending(
                    heap@,
                    cadence.rhythms,
                    cadence.events.events_seq(),
                    start,
                    limit,
                    cadence.rhythms.dailies_seq().len() as int,
                ),
                monthlies_pending(
                    heap@,
                    cadence.rhythms,
                    cadence.events.events_seq(),
                    start,
                    limit,
                    i as int,
                ),
            decreases mn - i,
        {
            let ghost prev = heap@;
            seed_rhythm(
                &mut heap,
                Rhythm::Monthly(monthlies[i].dup()),
                &cadence.events,
                start,
                limit,
            );
            proof {
                assert(heap@.take(prev.len() as int) =~= prev);
                assert forall|k: int|
                    0 <= k < cadence.rhythms.dailies_seq().len() && rule_wanted(
                        Rhythm::Daily(#[trigger] cadence.rhythms.dailies_seq()[k]),
                        cadence.events.events_seq(),
                        start,
                        limit,
                    ) implies rhythm_pending(
                    heap@,
                    Rhythm::Daily(cadence.rhythms.dailies_seq()[k]),
                ) by {
                    lemma_pending_prefix(
                        prev,
                        heap@,
                        Rhythm::Daily(cadence.rhythms.dailies_seq()[k]),
                    );
                }
                assert forall|k: int|
                    0 <= k < i + 1 && rule_wanted(
                        Rhythm::Monthly(#[trigger] cadence.rhythms.monthlies_seq()[k]),
                        cadence.events.events_seq(),
                        start,
                        limit,
                    ) implies rhythm_pending(
                    heap@,
                    Rhythm::Monthly(cadence.rhythms.monthlies_seq()[k]),
                ) by {
                    if k < i {
                        lemma_pending_prefix(
                            prev,
                            heap@,
                            Rhythm::Monthly(cadence.rhythms.monthlies_seq()[k]),
                        );
                    } else {
                        assert(heap@.last().spec_rhythm() == Rhythm::Monthly(
                            cadence.rhythms.monthlies_seq()[k],
                        ));
                    }
                }
            }
            i = i + 1;
        }
        let week_dailies = cadence.rhythms.week_dailies();
        let wn = week_dailies.len();
        let mut i: usize = 0;
        while i < wn
            invariant
                0 <= i <= wn,
                wn == week_dailies@.len(),
                week_dailies@ == cadence.rhythms.week_dailies_seq(),
                wf_rules(cadence.rhythms),
                wf_heap(heap@, start, limit),
                cadence.events.wf(),
                crate::time::wf_dtod(start),
                crate::time::wf_dtod(limit),
                dailies_pending(
                    heap@,
                    cadence.rhythms,
                    cadence.events.events_seq(),
                    start,
                    limit,
                    cadence.rhythms.dailies_seq().len() as int,
                ),
                monthlies_pending(
                    heap@,
                    cadence.rhythms,
                    cadence.events.events_seq(),
                    start,
                    limit,
                    cadence.rhythms.monthlies_seq().len() as int,
                ),
                weeklies_pending(
                    heap@,
                    cadence.rhythms,
                    cadence.events.events_seq(),
                    start,
                    limit,
                    i as int,
                ),
            decreases wn - i,
        {
            let ghost prev = heap@;
            seed_rhythm(
                &mut heap,
                Rhythm::WeekDaily(week_dailies[i].dup()),
                &cadence.events,
                start,
                limit,
            );
            proof {
                assert(heap@.take(prev.len() as int) =~= prev);
                assert forall|k: int|
                    0 <= k < cadence.rhythms.dailies_seq().len() && rule_wanted(
                        Rhythm::Daily(#[trigger] cadence.rhythms.dailies_seq()[k]),
                        cadence.events.events_seq(),
                        start,
                        limit,
                    ) implies rhythm_pending(
                    heap@,
                    Rhythm::Daily(cadence.rhythms.dailies_seq()[k]),
                ) by {
                    lemma_pending_prefix(
                        prev,
                        heap@,
                        Rhythm::Daily(cadence.rhythms.dailies_seq()[k]),
                    );
                }
                assert forall|k: int|
                    0 <= k < cadence.rhythms.monthlies_seq().len() && rule_wanted(
                        Rhythm::Monthly(#[trigger] cadence.rhythms.monthlies_seq()[k]),
                        cadence.events.events_seq(),
                        start,
                        limit,
                    ) implies rhythm_pending(
                    heap@,
                    Rhythm::Monthly(cadence.rhythms.monthlies_seq()[k]),
                ) by {
                    lemma_pending_prefix(
                        prev,
                        heap@,
                        Rhythm::Monthly(cadence.rhythms.monthlies_seq()[k]),
                    );
                }
                assert forall|k: int|
                    0 <= k < i + 1 && rule_wanted(
                        Rhythm::WeekDaily(#[trigger] cadence.rhythms.week_dailies_seq()[k]),
                        cadence.events.events_seq(),
                        start,
                        limit,
                    ) implies rhythm_pending(
                    heap@,
                    Rhythm::WeekDaily(cadence.rhythms.week_dailies_seq()[k]),
                ) by {
                    if k < i {
                        lemma_pending_prefix(
                            prev,
                            heap@,
                            Rhythm::WeekDaily(cadence.rhythms.week_dailies_seq()[k]),
                        );
                    } else {
                        assert(heap@.last().spec_rhythm() == Rhythm::WeekDaily(
                            cadence.rhythms.week_dailies_seq()[k],
                        ));
                    }
                }
            }
            i = i + 1;
        }
        let raw_every_n = cadence.rhythms.every_n_dailies();
        let ghost rawseq = raw_every_n@;
        let every_n = sort_every_n_desc(raw_every_n);
        let en = every_n.len();
        let mut i: usize = 0;
        while i < en
            invariant
                0 <= i <= en,
                en == every_n@.len(),
                forall|p: int|
                    0 <= p < every_n@.len() ==> rawseq.contains(#[trigger] every_n@[p]),
                forall|p: int| 0 <= p < rawseq.len() ==> every_n@.contains(#[trigger] rawseq[p]),
                rawseq == cadence.rhythms.every_n_seq(),
                wf_rules(cadence.rhythms),
                wf_heap(heap@, start, limit),
                cadence.events.wf(),
                crate::time::wf_dtod(start),
                crate::time::wf_dtod(limit),
                dailies_pending(
                    heap@,
                    cadence.rhythms,
                    cadence.events.events_seq(),
                    start,
                    limit,
                    cadence.rhythms.dailies_seq().len() as int,
                ),
                monthlies_pending(
                    heap@,
                    cadence.rhythms,
                    cadence.events.events_seq(),
                    start,
                    limit,
                    cadence.rhythms.monthlies_seq().len() as int,
                ),
                weeklies_pending(
                    heap@,
                    cadence.rhythms,
                    cadence.events.events_seq(),
                    start,
                    limit,
                    cadence.rhythms.week_dailies_seq().len() as int,
                ),
                forall|p: int|
                    0 <= p < i && rule_wanted(
                        Rhythm::EveryNDays(#[trigger] every_n@[p]),
                        cadence.events.events_seq(),
                        start,
                        limit,
                    ) ==> rhythm_pending(heap@, Rhythm::EveryNDays(every_n@[p])),
            decreases en - i,
        {
            proof {
                assert(rawseq.contains(every_n@[i as int]));
                let j = choose|j: int| 0 <= j < rawseq.len() && rawseq[j] == every_n@[i as int];
                assert(wf_rhythm(Rhythm::EveryNDays(every_n@[i as int])));
                assert(crate::rhythms::progressive(Rhythm::EveryNDays(every_n@[i as int])));
            }
            let ghost prev = heap@;
            seed_rhythm(
                &mut heap,
                Rhythm::EveryNDays(every_n[i].dup()),
                &cadence.events,
                start,
                limit,
            );
            proof {
                assert(heap@.take(prev.len() as int) =~= prev);
                assert forall|k: int|
                    0 <= k < cadence.rhythms.dailies_seq().len() && rule_wanted(
                        Rhythm::Daily(#[trigger] cadence.rhythms.dailies_seq()[k]),
                        cadence.events.events_seq(),
                        start,
                        limit,
                    ) implies rhythm_pending(
                    heap@,
                    Rhythm::Daily(cadence.rhythms.dailies_seq()[k]),
                ) by {
                    lemma_pending_prefix(
                        prev,
                        heap@,
                        Rhythm::Daily(cadence.rhythms.dailies_seq()[k]),
                    );
                }
                assert forall|k: int|
                    0 <= k < cadence.rhythms.monthlies_seq().len() && rule_wanted(
                        Rhythm::Monthly(#[trigger] cadence.rhythms.monthlies_seq()[k]),
                        cadence.events.events_seq(),
                        start,
                        limit,
                    ) implies rhythm_pending(
                    heap@,
                    Rhythm::Monthly(cadence.rhythms.monthlies_seq()[k]),
                ) by {
                    lemma_pending_prefix(
                        prev,
                        heap@,
                        Rhythm::Monthly(cadence.rhythms.monthlies_seq()[k]),
                    );
                }
                assert forall|k: int|
                    0 <= k < cadence.rhythms.week_dailies_seq().len() && rule_wanted(
                        Rhythm::WeekDaily(#[trigger] cadence.rhythms.week_dailies_seq()[k]),
                        cadence.events.events_seq(),
                        start,
                        limit,
                    ) implies rhythm_pending(
                    heap@,
                    Rhythm::WeekDaily(cadence.rhythms.week_dailies_seq()[k]),
                ) by {
                    lemma_pending_prefix(
                        prev,
                        heap@,
                        Rhythm::WeekDaily(cadence.rhythms.week_dailies_seq()[k]),
                    );
                }
                assert forall|p: int|
                    0 <= p < i + 1 && rule_wanted(
                        Rhythm::EveryNDays(#[trigger] every_n@[p]),
                        cadence.events.events_seq(),
                        start,
                        limit,
                    ) implies rhythm_pending(heap@, Rhythm::EveryNDays(every_n@[p])) by {
                    if p < i {
                        lemma_pending_prefix(prev, heap@, Rhythm::EveryNDays(every_n@[p]));
                    } else {
                        assert(heap@.last().spec_rhythm() == Rhythm::EveryNDays(every_n@[p]));
                    }
                }
            }
            i = i + 1;
        }
        proof {
            assert forall|k: int|
                0 <= k < cadence.rhythms.every_n_seq().len() && rule_wanted(
                    Rhythm::EveryNDays(#[trigger] cadence.rhythms.every_n_seq()[k]),
                    cadence.events.events_seq(),
                    start,
                    limit,
                ) implies rhythm_pending(
                heap@,
                Rhythm::EveryNDays(cadence.rhythms.every_n_seq()[k]),
            ) by {
                assert(every_n@.contains(rawseq[k]));
                let p = choose|p: int| 0 <= p < every_n@.len() && every_n@[p] == rawseq[k];
                assert(rule_wanted(
                    Rhythm::EveryNDays(every_n@[p]),
                    cadence.events.events_seq(),
                    start,
                    limit,
                ));
            }
            assert(wanted_covered(
                heap@,
                sched,
                cadence.rhythms,
                cadence.events.events_seq(),
                start,
                limit,
            ));
        }
        // Work the pending set down, most urgent candidate first.
        loop
            invariant
                wf_heap(heap@, start, limit),
                wf_sched(sched, start),
                targets_within(sched, limit),
                wanted_covered(
                    heap@,
                    sched,
                    cadence.rhythms,
                    cadence.events.events_seq(),
                    start,
                    limit,
                ),
                recurse_limits.wf(),
                crate::time::wf_dtod(start),
                crate::time::wf_dtod(limit),
                dtod_lt(start, limit),
            ensures
                heap@.len() == 0,
            decreases heap_measure(heap@, limit),
        {
            proof {
                lemma_heap_measure_nonneg(heap@, limit);
            }
            if heap.len() == 0 {
                break ;
            }
            let ghost pre_heap = heap@;
            let idx = select_best(&heap);
            let srhythm = heap.remove(idx);
            proof {
                lemma_heap_measure_remove(pre_heap, idx as int, limit);
                assert(cand_measure(srhythm, limit) >= 1) by (nonlinear_arith)
                    requires
                        cand_measure(srhythm, limit) == (if limit.day > srhythm.target().day {
                            limit.day - srhythm.target().day
                        } else {
                            0
                        }) * 1_000_000 + srhythm.remaining().len() + 1,
                        srhythm.remaining().len() >= 0,
                ;
                assert(wf_cand(srhythm, start));
                assert forall|k: int| 0 <= k < heap@.len() implies wf_cand(#[trigger] heap@[k], start)
                    && dtod_lt(heap@[k].target(), limit) by {
                    if k < idx {
                    } else {
                    }
                }
            }
            let target_dtod = srhythm.heap_key().0;
            proof {
                let cs = choice_seq(srhythm.target(), spec_slider(srhythm.spec_rhythm()));
                assert(srhythm.remaining().len() <= cs.len());
                assert(cs.len() <= 1 + 2 * crate::rhythms::SLIDER_MAX);
                assert(srhythm.passed().len() < cs.len());
            }
            let dtod_limit = srhythm.dtod_limit(recurse_limits);
            let count = sched.count_at(target_dtod, Ghost(start));
            if count >= dtod_limit as usize && !relaxed {
                match srhythm.next_best_choice() {
                    Some(mut srhythm_next) => {
                        srhythm_next.clamp_to(start);
                        proof {
                            lemma_shifted_wf(srhythm, srhythm_next, start);
                        }
                        heap.push(srhythm_next);
                        proof {
                            assert forall|k: int| 0 <= k < heap@.len() implies wf_cand(
                                #[trigger] heap@[k],
                                start,
                            ) && dtod_lt(heap@[k].target(), limit) by {}
                            lemma_heap_measure_push(
                                pre_heap.remove(idx as int),
                                srhythm_next,
                                limit,
                            );
                            assert(srhythm_next.target() == srhythm.target());
                            assert(srhythm_next.remaining().len() == srhythm.remaining().len()
                                - 1);
                            assert(cand_measure(srhythm_next, limit) < cand_measure(
                                srhythm,
                                limit,
                            ));
                            assert(heap_measure(heap@, limit) < heap_measure(pre_heap, limit));
                            lemma_heap_measure_nonneg(heap@, limit);
                            lemma_remove_indexing(pre_heap, idx as int);
                            assert(heap@[heap@.len() - 1].spec_rhythm()
                                == srhythm.spec_rhythm());
                            lemma_step_all_covered(
                                pre_heap,
                                heap@,
                                sched,
                                sched,
                                idx as int,
                                srhythm,
                                cadence.rhythms,
                                cadence.events.events_seq(),
                                start,
                                limit,
                            );
                        }
                    },
                    None => {
                        // Deadlock: raise the capacities to the water mark
                        // and start the whole allocation again.
                        raise_water_mark(recurse_limits, &srhythm, dtod_limit);
                        return None;
                    },
                }
            } else {
                match srhythm.next_beat(Ghost(start)) {
                    Some(next_srhythm) => {
                        proof {
                            lemma_next_target_range(srhythm, next_srhythm, start);
                            lemma_progress(srhythm, next_srhythm.target(), start);
                        }
                        if next_srhythm.heap_key().0.lt(&limit) {
                            proof {
                                if spec_slider(srhythm.spec_rhythm()) == (Slider {
                                    before: 0,
                                    after: 0,
                                }) {
                                    lemma_zero_tolerance_advance(srhythm, next_srhythm, start);
                                    lemma_reachable_extend(
                                        srhythm.spec_rhythm(),
                                        srhythm.seed(),
                                        srhythm.target(),
                                        next_srhythm.target(),
                                    );
                                }
                                lemma_fresh_wf(next_srhythm, start, next_srhythm.spec_rhythm());
                            }
                            heap.push(next_srhythm);
                            proof {
                                assert forall|k: int| 0 <= k < heap@.len() implies wf_cand(
                                    #[trigger] heap@[k],
                                    start,
                                ) && dtod_lt(heap@[k].target(), limit) by {}
                                lemma_heap_measure_push(
                                    pre_heap.remove(idx as int),
                                    next_srhythm,
                                    limit,
                                );
                                assert(next_srhythm.remaining().len() <= 2
                                    * crate::rhythms::SLIDER_MAX);
                                assert(heap_measure(heap@, limit) == heap_measure(
                                    pre_heap.remove(idx as int),
                                    limit,
                                ) + cand_measure(next_srhythm, limit));
                                assert(cand_measure(next_srhythm, limit) < cand_measure(
                                    srhythm,
                                    limit,
                                )) by (nonlinear_arith)
                                    requires
                                        next_srhythm.target().day > srhythm.target().day,
                                        dtod_lt(next_srhythm.target(), limit),
                                        next_srhythm.remaining().len() <= 2
                                            * crate::rhythms::SLIDER_MAX,
                                        cand_measure(next_srhythm, limit) == (if limit.day
                                            > next_srhythm.target().day {
                                            limit.day - next_srhythm.target().day
                                        } else {
                                            0
                                        }) * 1_000_000 + next_srhythm.remaining().len() + 1,
                                        cand_measure(srhythm, limit) == (if limit.day
                                            > srhythm.target().day {
                                            limit.day - srhythm.target().day
                                        } else {
                                            0
                                        }) * 1_000_000 + srhythm.remaining().len() + 1,
                                        srhythm.remaining().len() >= 0,
                                        dtod_lt(srhythm.target(), limit),
                                ;
                            }
                        }
                    },
                    None => {
                        // the rhythm has no further occurrence in reach
                    },
                }
                // the capacity granted: the computed estimate, or in
                // relaxed mode whatever the stuck candidate needs
                let ghost granted: int = if (count as int) < dtod_limit as int {
                    dtod_limit as int
                } else {
                    count as int + 1
                };
                let ghost pre_sched = sched;
                proof {
                    assert(sched.spec_count_at(target_dtod) < granted);
                    assert(heap_measure(heap@, limit) < heap_measure(pre_heap, limit));
                    lemma_heap_measure_nonneg(heap@, limit);
                }
                sched.place(srhythm, Ghost(start), Ghost(granted), Ghost(limit));
                proof {
                    lemma_remove_indexing(pre_heap, idx as int);
                    lemma_step_all_covered(
                        pre_heap,
                        heap@,
                        pre_sched,
                        sched,
                        idx as int,
                        srhythm,
                        cadence.rhythms,
                        cadence.events.events_seq(),
                        start,
                        limit,
                    );
                }
            }
        }
        proof {
            assert(all_rules_covered(
                sched,
                cadence.rhythms,
                cadence.events.events_seq(),
                start,
                limit,
            ));
            lemma_assigned_within_tolerance(sched, start);
            assert forall|i: int|
                0 <= i < sched.slots_seq().len() implies 1 <= (#[trigger] sched.slots_seq()[i]).0.day
                <= crate::time::CIVIL_RANGE by {
                let c = sched.slots_seq()[i].1@[0];
                assert(wf_cand(c, start));
                assert(c.key().0 == sched.slots_seq()[i].0);
                assert(spec_slider(c.spec_rhythm()).after <= crate::rhythms::SLIDER_MAX);
            }
        }
        Some(sched)
    }
}

/// A candidate advanced to its next alternate and clamped to the window
/// start is well formed again.
proof fn lemma_shifted_wf(c: SmoothRhythm, c2: SmoothRhythm, start: DateTimeOfDay)
    requires
        wf_cand(c, start),
        c.remaining().len() > 0,
        c2.spec_rhythm() == c.spec_rhythm(),
        c2.target() == c.target(),
        c2.seed() == c.seed(),
        c2.key().0 == clamp_up(c.remaining().last().0, start),
        c2.key().1 == c.remaining().last().1,
        c2.remaining() == c.remaining().drop_last(),
        c2.passed() == c.passed().push(c.key().0),
    ensures
        wf_cand(c2, start),
{
    let cs = choice_seq(c.target(), spec_slider(c.spec_rhythm()));
    let idx = c.key().1 as int;
    assert(c.remaining() == cs.skip(idx + 1).reverse());
    assert(c.remaining().last() == cs.skip(idx + 1).reverse()[c.remaining().len() - 1]);
    assert(cs.skip(idx + 1).reverse()[c.remaining().len() - 1] == cs.skip(idx + 1)[0]);
    assert(cs.skip(idx + 1)[0] == cs[idx + 1]);
    assert(c2.key().1 == cs[idx + 1].1);
    assert(cs[idx + 1].1 == idx + 1);
    assert(c2.remaining() =~= cs.skip(idx + 2).reverse()) by {
        assert(c2.remaining().len() == cs.skip(idx + 2).reverse().len());
        assert forall|j: int| 0 <= j < c2.remaining().len() implies c2.remaining()[j] == cs.skip(
            idx + 2,
        ).reverse()[j] by {
            assert(c2.remaining()[j] == c.remaining()[j]);
            assert(c.remaining()[j] == cs.skip(idx + 1)[cs.skip(idx + 1).len() - 1 - j]);
            assert(cs.skip(idx + 2).reverse()[j] == cs.skip(idx + 2)[cs.skip(idx + 2).len() - 1
                - j]);
            assert(cs.skip(idx + 1)[cs.skip(idx + 1).len() - 1 - j] == cs[idx + 1 + cs.skip(
                idx + 1,
            ).len() - 1 - j]);
            assert(cs.skip(idx + 2)[cs.skip(idx + 2).len() - 1 - j] == cs[idx + 2 + cs.skip(
                idx + 2,
            ).len() - 1 - j]);
        }
    }
    assert(c2.passed() =~= Seq::new((idx + 1) as nat, |j: int| clamp_up(cs[j].0, start))) by {
        assert(c2.passed().len() == idx + 1);
        assert forall|j: int| 0 <= j < idx + 1 implies c2.passed()[j] == clamp_up(cs[j].0, start)
            by {
            if j < idx {
                assert(c2.passed()[j] == c.passed()[j]);
            } else {
                assert(c2.passed()[j] == c.key().0);
            }
        }
    }
}

/// The target of a freshly advanced candidate stays within the supported
/// range.
proof fn lemma_next_target_range(c: SmoothRhythm, c2: SmoothRhythm, start: DateTimeOfDay)
    requires
        wf_cand(c, start),
        crate::time::DAY_MIN <= start.day,
        c.target().day <= crate::time::DAY_MAX,
        Some(c2.target()) == crate::rhythms::spec_next_dtod(
            c.spec_rhythm(),
            if spec_skip(c.spec_rhythm()) {
                c.target()
            } else {
                c.key().0
            },
        ),
        dtod_lt(start, c2.target()),
    ensures
        -TARGET_RANGE <= c2.target().day <= TARGET_RANGE,
{
    let base = if spec_skip(c.spec_rhythm()) {
        c.target()
    } else {
        c.key().0
    };
    let cs = choice_seq(c.target(), spec_slider(c.spec_rhythm()));
    let idx = c.key().1 as int;
    assert(cs[idx].0.day <= c.target().day + spec_slider(c.spec_rhythm()).after);
    assert(c.key().0 == clamp_up(cs[idx].0, start));
    assert(base.day <= c.target().day + crate::rhythms::SLIDER_MAX || base.day == start.day);
    crate::rhythms::lemma_next_day_bounds(c.spec_rhythm(), base.day as int);
    assert(c2.target().day > start.day - 1);
}


/// The termination weight of one candidate: how many days its target still
/// has before the window limit, dominating the alternates it can still try.
pub open spec fn cand_measure(c: SmoothRhythm, limit: DateTimeOfDay) -> int {
    (if limit.day > c.target().day {
        limit.day - c.target().day
    } else {
        0
    }) * 1_000_000 + c.remaining().len() + 1
}

/// The termination weight of the pending set.
pub open spec fn heap_measure(h: Seq<SmoothRhythm>, limit: DateTimeOfDay) -> int
    decreases h.len(),
{
    if h.len() == 0 {
        0
    } else {
        heap_measure(h.drop_last(), limit) + cand_measure(h.last(), limit)
    }
}

proof fn lemma_heap_measure_nonneg(h: Seq<SmoothRhythm>, limit: DateTimeOfDay)
    ensures
        heap_measure(h, limit) >= 0,
    decreases h.len(),
{
    if h.len() > 0 {
        lemma_heap_measure_nonneg(h.drop_last(), limit);
        assert(cand_measure(h.last(), limit) >= 0) by (nonlinear_arith);
    }
}

proof fn lemma_heap_measure_push(h: Seq<SmoothRhythm>, c: SmoothRhythm, limit: DateTimeOfDay)
    ensures
        heap_measure(h.push(c), limit) == heap_measure(h, limit) + cand_measure(c, limit),
{
    assert(h.push(c).drop_last() =~= h);
    assert(h.push(c).last() == c);
}

proof fn lemma_heap_measure_remove(h: Seq<SmoothRhythm>, i: int, limit: DateTimeOfDay)
    requires
        0 <= i < h.len(),
    ensures
        heap_measure(h.remove(i), limit) == heap_measure(h, limit) - cand_measure(h[i], limit),
    decreases h.len(),
{
    if i == h.len() - 1 {
        assert(h.remove(i) =~= h.drop_last());
    } else {
        assert(h.remove(i).drop_last() =~= h.drop_last().remove(i));
        assert(h.remove(i).last() == h.last());
        lemma_heap_measure_remove(h.drop_last(), i, limit);
        assert(h.drop_last()[i] == h[i]);
    }
}

/// An advanced candidate's target strictly outruns the one it came from.
proof fn lemma_progress(c: SmoothRhythm, t2: DateTimeOfDay, start: DateTimeOfDay)
    requires
        wf_cand(c, start),
        Some(t2) == crate::rhythms::spec_next_dtod(
            c.spec_rhythm(),
            if spec_skip(c.spec_rhythm()) {
                c.target()
            } else {
                c.key().0
            },
        ),
    ensures
        t2.day > c.target().day,
{
    let r = c.spec_rhythm();
    let base = if spec_skip(r) {
        c.target()
    } else {
        c.key().0
    };
    let cs = choice_seq(c.target(), spec_slider(r));
    let idx = c.key().1 as int;
    assert(cs[idx].0.day >= c.target().day - spec_slider(r).before);
    assert(c.key().0 == clamp_up(cs[idx].0, start));
    assert(c.key().0.day >= cs[idx].0.day);
    crate::rhythms::lemma_next_day_bounds(r, base.day as int);
    match r {
        Rhythm::Daily(_) => {
            assert(spec_slider(r).before == 0);
            assert(base.day >= c.target().day);
        },
        Rhythm::Monthly(_) => {
            assert(base == c.target());
        },
        Rhythm::WeekDaily(_) => {
            assert(base == c.target());
        },
        Rhythm::EveryNDays(e) => {
            assert(crate::rhythms::spec_next_day(r, base.day as int) == Some(
                base.day as int + e.n,
            ));
            assert(base.day >= c.target().day - e.slider.before);
            assert(e.n > e.slider.before);
        },
    }
}


/// Every placed candidate's ideal target lies below the window limit: the
/// engine only ever schedules occurrences that start inside the window
/// (their slider may still carry the assigned date at or past the limit).
pub open spec fn targets_within(s: Schedule, wlimit: DateTimeOfDay) -> bool {
    forall|i: int, j: int|
        0 <= i < s.slots_seq().len() && 0 <= j < s.slots_seq()[i].1@.len() ==> dtod_lt(
            (#[trigger] s.slots_seq()[i].1@[j]).target(),
            wlimit,
        )
}

/// Whether this exact candidate stands placed somewhere in the schedule.
pub open spec fn cand_scheduled(s: Schedule, c: SmoothRhythm) -> bool {
    exists|i: int, j: int|
        0 <= i < s.slots_seq().len() && 0 <= j < s.slots_seq()[i].1@.len() && (
        #[trigger] s.slots_seq()[i].1@[j]) == c
}

/// Whether some placed candidate belongs to the given rhythm.
pub open spec fn rhythm_scheduled(s: Schedule, r: Rhythm) -> bool {
    exists|i: int, j: int|
        0 <= i < s.slots_seq().len() && 0 <= j < s.slots_seq()[i].1@.len() && (
        #[trigger] s.slots_seq()[i].1@[j]).spec_rhythm() == r
}

/// Whether some pending candidate belongs to the given rhythm.
pub open spec fn rhythm_pending(h: Seq<SmoothRhythm>, r: Rhythm) -> bool {
    exists|k: int| 0 <= k < h.len() && (#[trigger] h[k]).spec_rhythm() == r
}

/// Whether a rhythm has an occurrence the window wants: its starting
/// occurrence exists and lies below the limit.
pub open spec fn rule_wanted(
    rh: Rhythm,
    events: Seq<crate::cadence::Event>,
    start: DateTimeOfDay,
    limit: DateTimeOfDay,
) -> bool {
    match crate::rhythms::spec_starting(rh, start, seed_last_seen(events, rh, start)) {
        Some(t) => dtod_lt(t, limit),
        None => false,
    }
}

/// Every rule of the set whose starting occurrence falls inside the window
/// is assigned at least once in the schedule: none is dropped.
pub open spec fn all_rules_covered(
    s: Schedule,
    rules: crate::cadence::Rhythms,
    events: Seq<crate::cadence::Event>,
    start: DateTimeOfDay,
    limit: DateTimeOfDay,
) -> bool {
    &&& forall|k: int|
        0 <= k < rules.dailies_seq().len() && rule_wanted(
            Rhythm::Daily(#[trigger] rules.dailies_seq()[k]),
            events,
            start,
            limit,
        ) ==> rhythm_scheduled(s, Rhythm::Daily(rules.dailies_seq()[k]))
    &&& forall|k: int|
        0 <= k < rules.monthlies_seq().len() && rule_wanted(
            Rhythm::Monthly(#[trigger] rules.monthlies_seq()[k]),
            events,
            start,
            limit,
        ) ==> rhythm_scheduled(s, Rhythm::Monthly(rules.monthlies_seq()[k]))
    &&& forall|k: int|
        0 <= k < rules.week_dailies_seq().len() && rule_wanted(
            Rhythm::WeekDaily(#[trigger] rules.week_dailies_seq()[k]),
            events,
            start,
            limit,
        ) ==> rhythm_scheduled(s, Rhythm::WeekDaily(rules.week_dailies_seq()[k]))
    &&& forall|k: int|
        0 <= k < rules.every_n_seq().len() && rule_wanted(
            Rhythm::EveryNDays(#[trigger] rules.every_n_seq()[k]),
            events,
            start,
            limit,
        ) ==> rhythm_scheduled(s, Rhythm::EveryNDays(rules.every_n_seq()[k]))
}

/// A rhythm pending in a heap stays pending when the heap is only extended.
proof fn lemma_pending_prefix(old_h: Seq<SmoothRhythm>, new_h: Seq<SmoothRhythm>, r: Rhythm)
    requires
        old_h.len() <= new_h.len(),
        new_h.take(old_h.len() as int) == old_h,
        rhythm_pending(old_h, r),
    ensures
        rhythm_pending(new_h, r),
{
    let k = choose|k: int| 0 <= k < old_h.len() && (#[trigger] old_h[k]).spec_rhythm() == r;
    assert(new_h.take(old_h.len() as int)[k] == new_h[k]);
    assert(new_h[k].spec_rhythm() == r);
}

/// Removing one position shifts the later entries down by one.
proof fn lemma_remove_indexing(s: Seq<SmoothRhythm>, i: int)
    requires
        0 <= i < s.len(),
    ensures
        s.remove(i).len() == s.len() - 1,
        forall|k: int| 0 <= k < i ==> #[trigger] s.remove(i)[k] == s[k],
        forall|k: int| i <= k < s.len() - 1 ==> #[trigger] s.remove(i)[k] == s[k + 1],
{
}

/// A rhythm placed somewhere survives any placement that keeps the existing
/// candidates.
proof fn lemma_rhythm_survives(s_old: Schedule, s_new: Schedule, r: Rhythm)
    requires
        rhythm_scheduled(s_old, r),
        forall|c2: SmoothRhythm|
            cand_scheduled(s_old, c2) ==> #[trigger] cand_scheduled(s_new, c2),
    ensures
        rhythm_scheduled(s_new, r),
{
    let (i, j) = choose|i: int, j: int|
        0 <= i < s_old.slots_seq().len() && 0 <= j < s_old.slots_seq()[i].1@.len() && (
        #[trigger] s_old.slots_seq()[i].1@[j]).spec_rhythm() == r;
    let c2 = s_old.slots_seq()[i].1@[j];
    assert(cand_scheduled(s_old, c2));
    assert(cand_scheduled(s_new, c2));
    lemma_cand_gives_rhythm(s_new, c2);
}

/// One allocator step keeps a rhythm covered: the selected candidate is
/// either re-queued under the same rhythm or placed, every other pending
/// candidate keeps its slot in the heap, and placements survive.
proof fn lemma_step_covered(
    pre_heap: Seq<SmoothRhythm>,
    post_heap: Seq<SmoothRhythm>,
    pre_sched: Schedule,
    post_sched: Schedule,
    idx: int,
    selected: SmoothRhythm,
    r: Rhythm,
)
    requires
        0 <= idx < pre_heap.len(),
        pre_heap[idx] == selected,
        post_heap.len() >= pre_heap.len() - 1,
        forall|k: int| 0 <= k < idx ==> #[trigger] post_heap[k] == pre_heap[k],
        forall|k: int| idx <= k < pre_heap.len() - 1 ==> #[trigger] post_heap[k] == pre_heap[k + 1],
        (exists|k: int|
            pre_heap.len() - 1 <= k < post_heap.len() && (#[trigger] post_heap[k]).spec_rhythm()
                == selected.spec_rhythm()) || cand_scheduled(post_sched, selected),
        forall|c2: SmoothRhythm|
            cand_scheduled(pre_sched, c2) ==> #[trigger] cand_scheduled(post_sched, c2),
        rhythm_pending(pre_heap, r) || rhythm_scheduled(pre_sched, r),
    ensures
        rhythm_pending(post_heap, r) || rhythm_scheduled(post_sched, r),
{
    if rhythm_scheduled(pre_sched, r) {
        lemma_rhythm_survives(pre_sched, post_sched, r);
    } else {
        let k0 = choose|k0: int|
            0 <= k0 < pre_heap.len() && (#[trigger] pre_heap[k0]).spec_rhythm() == r;
        if k0 < idx {
            assert(post_heap[k0].spec_rhythm() == r);
        } else if k0 > idx {
            assert(post_heap[k0 - 1] == pre_heap[k0]);
        } else {
            if cand_scheduled(post_sched, selected) {
                lemma_cand_gives_rhythm(post_sched, selected);
            } else {
                let k = choose|k: int|
                    pre_heap.len() - 1 <= k < post_heap.len() && (
                    #[trigger] post_heap[k]).spec_rhythm() == selected.spec_rhythm();
                assert(post_heap[k].spec_rhythm() == r);
            }
        }
    }
}

/// The dailies prefix of the rule set, each wanted one pending.
pub open spec fn dailies_pending(
    h: Seq<SmoothRhythm>,
    rules: crate::cadence::Rhythms,
    events: Seq<crate::cadence::Event>,
    start: DateTimeOfDay,
    limit: DateTimeOfDay,
    upto: int,
) -> bool {
    forall|k: int|
        0 <= k < upto && rule_wanted(
            Rhythm::Daily(#[trigger] rules.dailies_seq()[k]),
            events,
            start,
            limit,
        ) ==> rhythm_pending(h, Rhythm::Daily(rules.dailies_seq()[k]))
}

/// The monthlies prefix of the rule set, each wanted one pending.
pub open spec fn monthlies_pending(
    h: Seq<SmoothRhythm>,
    rules: crate::cadence::Rhythms,
    events: Seq<crate::cadence::Event>,
    start: DateTimeOfDay,
    limit: DateTimeOfDay,
    upto: int,
) -> bool {
    forall|k: int|
        0 <= k < upto && rule_wanted(
            Rhythm::Monthly(#[trigger] rules.monthlies_seq()[k]),
            events,
            start,
            limit,
        ) ==> rhythm_pending(h, Rhythm::Monthly(rules.monthlies_seq()[k]))
}

/// The weeklies prefix of the rule set, each wanted one pending.
pub open spec fn weeklies_pending(
    h: Seq<SmoothRhythm>,
    rules: crate::cadence::Rhythms,
    events: Seq<crate::cadence::Event>,
    start: DateTimeOfDay,
    limit: DateTimeOfDay,
    upto: int,
) -> bool {
    forall|k: int|
        0 <= k < upto && rule_wanted(
            Rhythm::WeekDaily(#[trigger] rules.week_dailies_seq()[k]),
            events,
            start,
            limit,
        ) ==> rhythm_pending(h, Rhythm::WeekDaily(rules.week_dailies_seq()[k]))
}

/// Every rule the window wants is either still pending or already placed.
pub open spec fn wanted_covered(
    h: Seq<SmoothRhythm>,
    s: Schedule,
    rules: crate::cadence::Rhythms,
    events: Seq<crate::cadence::Event>,
    start: DateTimeOfDay,
    limit: DateTimeOfDay,
) -> bool {
    &&& forall|k: int|
        0 <= k < rules.dailies_seq().len() && rule_wanted(
            Rhythm::Daily(#[trigger] rules.dailies_seq()[k]),
            events,
            start,
            limit,
        ) ==> (rhythm_pending(h, Rhythm::Daily(rules.dailies_seq()[k])) || rhythm_scheduled(
            s,
            Rhythm::Daily(rules.dailies_seq()[k]),
        ))
    &&& forall|k: int|
        0 <= k < rules.monthlies_seq().len() && rule_wanted(
            Rhythm::Monthly(#[trigger] rules.monthlies_seq()[k]),
            events,
            start,
            limit,
        ) ==> (rhythm_pending(h, Rhythm::Monthly(rules.monthlies_seq()[k])) || rhythm_scheduled(
            s,
            Rhythm::Monthly(rules.monthlies_seq()[k]),
        ))
    &&& forall|k: int|
        0 <= k < rules.week_dailies_seq().len() && rule_wanted(
            Rhythm::WeekDaily(#[trigger] rules.week_dailies_seq()[k]),
            events,
            start,
            limit,
        ) ==> (rhythm_pending(h, Rhythm::WeekDaily(rules.week_dailies_seq()[k]))
            || rhythm_scheduled(s, Rhythm::WeekDaily(rules.week_dailies_seq()[k])))
    &&& forall|k: int|
        0 <= k < rules.every_n_seq().len() && rule_wanted(
            Rhythm::EveryNDays(#[trigger] rules.every_n_seq()[k]),
            events,
            start,
            limit,
        ) ==> (rhythm_pending(h, Rhythm::EveryNDays(rules.every_n_seq()[k]))
            || rhythm_scheduled(s, Rhythm::EveryNDays(rules.every_n_seq()[k])))
}

/// One allocator step keeps every wanted rule covered.
proof fn lemma_step_all_covered(
    pre_heap: Seq<SmoothRhythm>,
    post_heap: Seq<SmoothRhythm>,
    pre_sched: Schedule,
    post_sched: Schedule,
    idx: int,
    selected: SmoothRhythm,
    rules: crate::cadence::Rhythms,
    events: Seq<crate::cadence::Event>,
    start: DateTimeOfDay,
    limit: DateTimeOfDay,
)
    requires
        0 <= idx < pre_heap.len(),
        pre_heap[idx] == selected,
        post_heap.len() >= pre_heap.len() - 1,
        forall|k: int| 0 <= k < idx ==> #[trigger] post_heap[k] == pre_heap[k],
        forall|k: int| idx <= k < pre_heap.len() - 1 ==> #[trigger] post_heap[k] == pre_heap[k + 1],
        (exists|k: int|
            pre_heap.len() - 1 <= k < post_heap.len() && (#[trigger] post_heap[k]).spec_rhythm()
                == selected.spec_rhythm()) || cand_scheduled(post_sched, selected),
        forall|c2: SmoothRhythm|
            cand_scheduled(pre_sched, c2) ==> #[trigger] cand_scheduled(post_sched, c2),
        wanted_covered(pre_heap, pre_sched, rules, events, start, limit),
    ensures
        wanted_covered(post_heap, post_sched, rules, events, start, limit),
{
    assert forall|k: int|
        0 <= k < rules.dailies_seq().len() && rule_wanted(
            Rhythm::Daily(#[trigger] rules.dailies_seq()[k]),
            events,
            start,
            limit,
        ) implies (rhythm_pending(post_heap, Rhythm::Daily(rules.dailies_seq()[k]))
        || rhythm_scheduled(post_sched, Rhythm::Daily(rules.dailies_seq()[k]))) by {
        lemma_step_covered(
            pre_heap,
            post_heap,
            pre_sched,
            post_sched,
            idx,
            selected,
            Rhythm::Daily(rules.dailies_seq()[k]),
        );
    }
    assert forall|k: int|
        0 <= k < rules.monthlies_seq().len() && rule_wanted(
            Rhythm::Monthly(#[trigger] rules.monthlies_seq()[k]),
            events,
            start,
            limit,
        ) implies (rhythm_pending(post_heap, Rhythm::Monthly(rules.monthlies_seq()[k]))
        || rhythm_scheduled(post_sched, Rhythm::Monthly(rules.monthlies_seq()[k]))) by {
        lemma_step_covered(
            pre_heap,
            post_heap,
            pre_sched,
            post_sched,
            idx,
            selected,
            Rhythm::Monthly(rules.monthlies_seq()[k]),
        );
    }
    assert forall|k: int|
        0 <= k < rules.week_dailies_seq().len() && rule_wanted(
            Rhythm::WeekDaily(#[trigger] rules.week_dailies_seq()[k]),
            events,
            start,
            limit,
        ) implies (rhythm_pending(post_heap, Rhythm::WeekDaily(rules.week_dailies_seq()[k]))
        || rhythm_scheduled(post_sched, Rhythm::WeekDaily(rules.week_dailies_seq()[k]))) by {
        lemma_step_covered(
            pre_heap,
            post_heap,
            pre_sched,
            post_sched,
            idx,
            selected,
            Rhythm::WeekDaily(rules.week_dailies_seq()[k]),
        );
    }
    assert forall|k: int|
        0 <= k < rules.every_n_seq().len() && rule_wanted(
            Rhythm::EveryNDays(#[trigger] rules.every_n_seq()[k]),
            events,
            start,
            limit,
        ) implies (rhythm_pending(post_heap, Rhythm::EveryNDays(rules.every_n_seq()[k]))
        || rhythm_scheduled(post_sched, Rhythm::EveryNDays(rules.every_n_seq()[k]))) by {
        lemma_step_covered(
            pre_heap,
            post_heap,
            pre_sched,
            post_sched,
            idx,
            selected,
            Rhythm::EveryNDays(rules.every_n_seq()[k]),
        );
    }
}

/// A placed candidate witnesses its rhythm as scheduled.
proof fn lemma_cand_gives_rhythm(s: Schedule, c: SmoothRhythm)
    requires
        cand_scheduled(s, c),
    ensures
        rhythm_scheduled(s, c.spec_rhythm()),
{
    let (i, j) = choose|i: int, j: int|
        0 <= i < s.slots_seq().len() && 0 <= j < s.slots_seq()[i].1@.len() && (
        #[trigger] s.slots_seq()[i].1@[j]) == c;
    assert(s.slots_seq()[i].1@[j].spec_rhythm() == c.spec_rhythm());
}

/// Every slot date lies within the calendar wrappers' reach, so the readouts
/// can format it.
pub open spec fn dates_in_range(s: Schedule) -> bool {
    forall|i: int|
        0 <= i < s.slots_seq().len() ==> 1 <= (#[trigger] s.slots_seq()[i]).0.day
            <= crate::time::CIVIL_RANGE
}

/// The placed candidates of a slot list, flattened in slot order.
pub open spec fn cands_of(ss: Seq<(DateTimeOfDay, Vec<SmoothRhythm>)>) -> Seq<SmoothRhythm>
    decreases ss.len(),
{
    if ss.len() == 0 {
        Seq::<SmoothRhythm>::empty()
    } else {
        cands_of(ss.drop_last()) + ss.last().1@
    }
}

/// What the structured readout says of one event against the candidate it
/// came from: the rhythm's identifier, and the rhythm's own stored line with
/// the assigned date bound under `when:`.  (That the event's date is the
/// candidate's assigned date follows from the readout's date clause and the
/// schedule invariant.)
pub open spec fn event_of_cand(e: crate::cadence::Event, c: SmoothRhythm) -> bool {
    &&& e.id@ == c.spec_rhythm().spec_id()
    &&& e.item.wf()
    &&& e.item.spec_lookup("when:"@) == Some(crate::time::dtod_repr(e.when))
    &&& e.item.spec_lookup("id:"@) == Some(c.spec_rhythm().spec_id())
    &&& (crate::line_item::wf_desc(crate::rhythms::rhythm_desc(c.spec_rhythm())) ==> {
        &&& e.item.spec_desc() == crate::rhythms::rhythm_desc(c.spec_rhythm())
        &&& forall|k: Seq<char>|
            k != "when:"@ ==> #[trigger] e.item.spec_lookup(k)
                == crate::rhythms::line_item_binding(c.spec_rhythm(), k)
    })
}

/// The dates of a slot list, one per placed candidate, in slot order.
pub open spec fn dates_of(ss: Seq<(DateTimeOfDay, Vec<SmoothRhythm>)>) -> Seq<DateTimeOfDay>
    decreases ss.len(),
{
    if ss.len() == 0 {
        Seq::<DateTimeOfDay>::empty()
    } else {
        dates_of(ss.drop_last()) + Seq::new(ss.last().1@.len(), |k: int| ss.last().0)
    }
}

impl Schedule {
    /// The structured readout: one event per placed candidate, in date order
    /// and assignment order, each carrying its rhythm's line with the date
    /// bound under `when:`.
    pub fn plumbing(&self) -> (r: Vec<crate::cadence::Event>)
        requires
            dates_in_range(*self),
        ensures
            r@.map_values(|e: crate::cadence::Event| e.when) == dates_of(self.slots_seq()),
            r@.len() == cands_of(self.slots_seq()).len(),
            forall|k: int|
                0 <= k < r@.len() ==> event_of_cand(#[trigger] r@[k], cands_of(self.slots_seq())[k]),
            forall|k: int| 0 <= k < r@.len() ==> (#[trigger] r@[k]).item.wf(),
            forall|k: int|
                0 <= k < r@.len() ==> 1 <= (#[trigger] r@[k]).when.day <= crate::time::CIVIL_RANGE,
    {
        proof {
            reveal_strlit("when:");
        }
        let mut out: Vec<crate::cadence::Event> = Vec::new();
        let n = self.slots.len();
        let mut i: usize = 0;
        proof {
            assert(self.slots_seq().take(0) =~= Seq::<(DateTimeOfDay, Vec<SmoothRhythm>)>::empty());
            assert(out@.map_values(|e: crate::cadence::Event| e.when) =~= dates_of(
                self.slots_seq().take(0),
            ));
            assert(cands_of(self.slots_seq().take(0)) =~= Seq::<SmoothRhythm>::empty());
        }
        while i < n
            invariant
                0 <= i <= n,
                n == self.slots_seq().len(),
                dates_in_range(*self),
                out@.map_values(|e: crate::cadence::Event| e.when) == dates_of(
                    self.slots_seq().take(i as int),
                ),
                out@.len() == cands_of(self.slots_seq().take(i as int)).len(),
                forall|k: int|
                    0 <= k < out@.len() ==> event_of_cand(
                        #[trigger] out@[k],
                        cands_of(self.slots_seq().take(i as int))[k],
                    ),
                forall|k: int| 0 <= k < out@.len() ==> (#[trigger] out@[k]).item.wf(),
                forall|k: int|
                    0 <= k < out@.len() ==> 1 <= (#[trigger] out@[k]).when.day
                        <= crate::time::CIVIL_RANGE,
            decreases n - i,
        {
            let slot_when = self.slots[i].0;
            let m = self.slots[i].1.len();
            let mut j: usize = 0;
            while j < m
                invariant
                    0 <= j <= m,
                    0 <= i < n,
                    n == self.slots_seq().len(),
                    m == self.slots_seq()[i as int].1@.len(),
                    slot_when == self.slots_seq()[i as int].0,
                    dates_in_range(*self),
                    out@.map_values(|e: crate::cadence::Event| e.when) == dates_of(
                        self.slots_seq().take(i as int),
                    ) + Seq::new(j as nat, |k: int| slot_when),
                    out@.len() == cands_of(self.slots_seq().take(i as int)).len() + j,
                    forall|k: int|
                        0 <= k < out@.len() ==> event_of_cand(
                            #[trigger] out@[k],
                            (cands_of(self.slots_seq().take(i as int))
                                + self.slots_seq()[i as int].1@.take(j as int))[k],
                        ),
                    forall|k: int| 0 <= k < out@.len() ==> (#[trigger] out@[k]).item.wf(),
                    forall|k: int|
                        0 <= k < out@.len() ==> 1 <= (#[trigger] out@[k]).when.day
                            <= crate::time::CIVIL_RANGE,
                decreases m - j,
            {
                let s = &self.slots[i].1[j];
                proof {
                    reveal_strlit("when:");
                    reveal_strlit("id:");
                    assert("when:"@.len() == 5);
                    assert("id:"@.len() == 3);
                    assert(-crate::time::CIVIL_RANGE <= slot_when.day <= crate::time::CIVIL_RANGE);
                }
                let mut item = s.rhythm().line_item();
                let when_text = slot_when.repr();
                item.insert("when:", when_text.as_str());
                let ev = crate::cadence::Event { id: s.rhythm().id(), when: slot_when, item };
                let ghost before = out@;
                out.push(ev);
                proof {
                    assert(out@.map_values(|e: crate::cadence::Event| e.when) =~= before.map_values(
                        |e: crate::cadence::Event| e.when,
                    ).push(slot_when));
                    assert(dates_of(self.slots_seq().take(i as int)) + Seq::new(
                        (j + 1) as nat,
                        |k: int| slot_when,
                    ) =~= (dates_of(self.slots_seq().take(i as int)) + Seq::new(
                        j as nat,
                        |k: int| slot_when,
                    )).push(slot_when));
                    let c = self.slots_seq()[i as int].1@[j as int];
                    if crate::line_item::wf_desc(crate::rhythms::rhythm_desc(c.spec_rhythm())) {
                        assert forall|k: Seq<char>| k != "when:"@ implies #[trigger] ev.item.spec_lookup(k) == crate::rhythms::line_item_binding(c.spec_rhythm(), k) by {}
                    }
                    assert(event_of_cand(ev, c));
                    assert((cands_of(self.slots_seq().take(i as int)) + self.slots_seq()[
                        i as int].1@.take(j as int + 1)) =~= (cands_of(
                        self.slots_seq().take(i as int),
                    ) + self.slots_seq()[i as int].1@.take(j as int)).push(c));
                }
                j = j + 1;
            }
            proof {
                let t = self.slots_seq().take(i as int + 1);
                assert(t.drop_last() =~= self.slots_seq().take(i as int));
                assert(t.last() == self.slots_seq()[i as int]);
                assert(dates_of(t) =~= dates_of(self.slots_seq().take(i as int)) + Seq::new(
                    m as nat,
                    |k: int| slot_when,
                ));
                assert(self.slots_seq()[i as int].1@.take(m as int) =~= self.slots_seq()[
                    i as int].1@);
                assert(cands_of(t) =~= cands_of(self.slots_seq().take(i as int))
                    + self.slots_seq()[i as int].1@);
            }
            i = i + 1;
        }
        proof {
            assert(self.slots_seq().take(n as int) =~= self.slots_seq());
        }
        out
    }

    /// The human-readable readout: one line per placed candidate, in the
    /// same order as the structured readout.
    pub fn porcelain(&self) -> (r: Vec<String>)
        requires
            dates_in_range(*self),
        ensures
            r@.len() == dates_of(self.slots_seq()).len(),
            r@.len() == cands_of(self.slots_seq()).len(),
            forall|k: int|
                0 <= k < r@.len() ==> (#[trigger] r@[k])@ == crate::rhythms::human_line_text(
                    cands_of(self.slots_seq())[k].spec_rhythm(),
                ) + " @ "@ + crate::time::dtod_repr(dates_of(self.slots_seq())[k]),
    {
        proof {
            reveal_strlit(" @ ");
        }
        let mut out: Vec<String> = Vec::new();
        let n = self.slots.len();
        let mut i: usize = 0;
        proof {
            assert(self.slots_seq().take(0) =~= Seq::<(DateTimeOfDay, Vec<SmoothRhythm>)>::empty());
        }
        while i < n
            invariant
                0 <= i <= n,
                n == self.slots_seq().len(),
                dates_in_range(*self),
                out@.len() == dates_of(self.slots_seq().take(i as int)).len(),
                out@.len() == cands_of(self.slots_seq().take(i as int)).len(),
                forall|k: int|
                    0 <= k < out@.len() ==> (#[trigger] out@[k])@
                        == crate::rhythms::human_line_text(
                        cands_of(self.slots_seq().take(i as int))[k].spec_rhythm(),
                    ) + " @ "@ + crate::time::dtod_repr(
                        dates_of(self.slots_seq().take(i as int))[k],
                    ),
            decreases n - i,
        {
            let slot_when = self.slots[i].0;
            let m = self.slots[i].1.len();
            let mut j: usize = 0;
            while j < m
                invariant
                    0 <= j <= m,
                    0 <= i < n,
                    n == self.slots_seq().len(),
                    m == self.slots_seq()[i as int].1@.len(),
                    slot_when == self.slots_seq()[i as int].0,
                    dates_in_range(*self),
                    out@.len() == dates_of(self.slots_seq().take(i as int)).len() + j,
                    out@.len() == cands_of(self.slots_seq().take(i as int)).len() + j,
                    forall|k: int|
                        0 <= k < out@.len() ==> (#[trigger] out@[k])@
                            == crate::rhythms::human_line_text(
                            (cands_of(self.slots_seq().take(i as int))
                                + self.slots_seq()[i as int].1@.take(j as int))[k].spec_rhythm(),
                        ) + " @ "@ + crate::time::dtod_repr(
                            (dates_of(self.slots_seq().take(i as int)) + Seq::new(
                                j as nat,
                                |q: int| slot_when,
                            ))[k],
                        ),
                decreases m - j,
            {
                let s = &self.slots[i].1[j];
                proof {
                    reveal_strlit(" @ ");
                    assert(-crate::time::CIVIL_RANGE <= slot_when.day <= crate::time::CIVIL_RANGE);
                }
                let mut line = s.rhythm().human_line();
                line.append(" @ ");
                let when_text = slot_when.repr();
                line.append(when_text.as_str());
                proof {
                    assert(line@ =~= crate::rhythms::human_line_text(
                        self.slots_seq()[i as int].1@[j as int].spec_rhythm(),
                    ) + " @ "@ + crate::time::dtod_repr(slot_when));
                }
                out.push(line);
                j = j + 1;
            }
            proof {
                let t = self.slots_seq().take(i as int + 1);
                assert(t.drop_last() =~= self.slots_seq().take(i as int));
                assert(t.last() == self.slots_seq()[i as int]);
                assert(self.slots_seq()[i as int].1@.take(m as int) =~= self.slots_seq()[
                    i as int].1@);
                assert(cands_of(t) =~= cands_of(self.slots_seq().take(i as int))
                    + self.slots_seq()[i as int].1@);
                assert(dates_of(t) =~= dates_of(self.slots_seq().take(i as int)) + Seq::new(
                    m as nat,
                    |q: int| slot_when,
                ));
            }
            i = i + 1;
        }
        proof {
            assert(self.slots_seq().take(n as int) =~= self.slots_seq());
        }
        out
    }
}

/// Every assigned occurrence lies at or after the window start and within
/// its rhythm's tolerance window of the ideal target it was generated from.
pub proof fn lemma_assigned_within_tolerance(s: Schedule, start: DateTimeOfDay)
    requires
        wf_sched(s, start),
    ensures
        forall|i: int, j: int|
            0 <= i < s.slots_seq().len() && 0 <= j < (#[trigger] s.slots_seq()[i]).1@.len() ==> {
                let c = #[trigger] s.slots_seq()[i].1@[j];
                &&& dtod_le(start, c.key().0)
                &&& c.target().day - spec_slider(c.spec_rhythm()).before <= c.key().0.day
                &&& c.key().0.day <= c.target().day + spec_slider(c.spec_rhythm()).after
            },
{
    assert forall|i: int, j: int|
        0 <= i < s.slots_seq().len() && 0 <= j < (#[trigger] s.slots_seq()[i]).1@.len() implies {
        let c = #[trigger] s.slots_seq()[i].1@[j];
        &&& dtod_le(start, c.key().0)
        &&& c.target().day - spec_slider(c.spec_rhythm()).before <= c.key().0.day
        &&& c.key().0.day <= c.target().day + spec_slider(c.spec_rhythm()).after
    } by {
        let c = s.slots_seq()[i].1@[j];
        assert(wf_cand(c, start));
        let cs = choice_seq(c.target(), spec_slider(c.spec_rhythm()));
        let idx = c.key().1 as int;
        assert(cs[idx].0.day >= c.target().day - spec_slider(c.spec_rhythm()).before);
        assert(cs[idx].0.day <= c.target().day + spec_slider(c.spec_rhythm()).after);
        assert(c.key().0 == clamp_up(cs[idx].0, start));
        if dtod_lt(cs[idx].0, start) {
            assert(c.key().0 == start);
            assert(start.day >= cs[idx].0.day);
            assert(dtod_le(start, c.target()));
        }
    }
}


/// An assigned occurrence of a zero-tolerance rhythm sits exactly on its
/// ideal target date: with no slider there is only the one choice, and a
/// target already inside the window is never clamped.
pub proof fn lemma_zero_tolerance_on_target(s: Schedule, start: DateTimeOfDay)
    requires
        wf_sched(s, start),
    ensures
        forall|i: int, j: int|
            0 <= i < s.slots_seq().len() && 0 <= j < (#[trigger] s.slots_seq()[i]).1@.len()
                && spec_slider((#[trigger] s.slots_seq()[i].1@[j]).spec_rhythm()) == (Slider {
                before: 0,
                after: 0,
            }) ==> s.slots_seq()[i].1@[j].key().0 == s.slots_seq()[i].1@[j].target(),
{
    assert forall|i: int, j: int|
        0 <= i < s.slots_seq().len() && 0 <= j < (#[trigger] s.slots_seq()[i]).1@.len()
            && spec_slider((#[trigger] s.slots_seq()[i].1@[j]).spec_rhythm()) == (Slider {
            before: 0,
            after: 0,
        }) implies s.slots_seq()[i].1@[j].key().0 == s.slots_seq()[i].1@[j].target() by {
        let c = s.slots_seq()[i].1@[j];
        assert(wf_cand(c, start));
        let cs = choice_seq(c.target(), spec_slider(c.spec_rhythm()));
        assert(cs.len() == 1);
        assert(c.key().1 as int == 0);
        assert(cs[0].0 == c.target());
        assert(c.key().0 == clamp_up(c.target(), start));
        assert(dtod_le(start, c.target()));
    }
}


/// Every placement stayed within the capacity computed for it at that
/// moment: the recorded count of candidates already on the date was
/// strictly below the recorded capacity, for every placement of the run.
pub proof fn lemma_capacity_respected(s: Schedule, start: DateTimeOfDay)
    requires
        wf_sched(s, start),
    ensures
        forall|k: int|
            0 <= k < s.placements_seq().len() ==> (#[trigger] s.placements_seq()[k]).1
                < s.placements_seq()[k].2,
        forall|k: int|
            0 <= k < s.placements_seq().len() ==> (#[trigger] s.placements_seq()[k]).1
                == recs_count(s.placements_seq().take(k), s.placements_seq()[k].0),
{
}

/// Advancing a zero-tolerance candidate to its next occurrence follows the
/// rhythm's own occurrence chain: the new ideal target is exactly the next
/// occurrence after the old ideal target.
pub proof fn lemma_zero_tolerance_advance(
    c: SmoothRhythm,
    c2: SmoothRhythm,
    start: DateTimeOfDay,
)
    requires
        wf_cand(c, start),
        spec_slider(c.spec_rhythm()) == (Slider { before: 0, after: 0 }),
        Some(c2.target()) == crate::rhythms::spec_next_dtod(
            c.spec_rhythm(),
            if spec_skip(c.spec_rhythm()) {
                c.target()
            } else {
                c.key().0
            },
        ),
    ensures
        Some(c2.target()) == crate::rhythms::spec_next_dtod(c.spec_rhythm(), c.target()),
{
    let cs = choice_seq(c.target(), spec_slider(c.spec_rhythm()));
    assert(cs.len() == 1);
    assert(c.key().1 as int == 0);
    assert(cs[0].0 == c.target());
    assert(c.key().0 == clamp_up(c.target(), start));
    assert(dtod_le(start, c.target()));
    assert(c.key().0 == c.target());
}


/// Every assigned occurrence of a zero-tolerance rhythm sits on the
/// rhythm's own occurrence chain: it is placed exactly on its ideal target,
/// and that target descends, next occurrence by next occurrence, from the
/// first in-window occurrence the rhythm was seeded with.
pub proof fn lemma_zero_tolerance_follows_chain(s: Schedule, start: DateTimeOfDay)
    requires
        wf_sched(s, start),
    ensures
        forall|i: int, j: int|
            0 <= i < s.slots_seq().len() && 0 <= j < (#[trigger] s.slots_seq()[i]).1@.len()
                && spec_slider((#[trigger] s.slots_seq()[i].1@[j]).spec_rhythm()) == (Slider {
                before: 0,
                after: 0,
            }) ==> {
                let c = s.slots_seq()[i].1@[j];
                &&& c.key().0 == c.target()
                &&& dtod_le(start, c.seed())
                &&& occ_reachable(c.spec_rhythm(), c.seed(), c.target())
            },
{
    lemma_zero_tolerance_on_target(s, start);
}

} // verus!








