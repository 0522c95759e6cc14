//! The in-memory data the scheduler consumes: the set of active rhythms and
//! the recorded completion events.  Loading these from storage is the
//! caller's business; this module parses single records and answers queries
//! over the loaded data.
use vstd::prelude::*;

use crate::Error;
use crate::command_words::COMMAND_DOTM;
use crate::command_words::COMMAND_DOTW;
use crate::command_words::COMMAND_ID;
use crate::command_words::COMMAND_N;
use crate::command_words::COMMAND_SLIDER;
use crate::command_words::COMMAND_TYPE;
use crate::command_words::COMMAND_WHEN;
use crate::id::ID;
use crate::id::strip_id_prefix;
use crate::id::wf_id_seq;
use crate::line_item::LineItem;
use crate::rhythms::Daily;
use crate::rhythms::EveryNDays;
use crate::rhythms::Monthly;
use crate::rhythms::Rhythm;
use crate::rhythms::Slider;
use crate::rhythms::WeekDaily;
use crate::rhythms::spec_weekday_parse;
use crate::time::DateTimeOfDay;
use crate::time::dtod_le;
use crate::time::dtod_lt;
use crate::util::parse_slider_spec;
use crate::util::parse_u32_spec;

verus! {

/// One recorded completion: which rhythm, when, and the stored line.
#[derive(Clone, Debug)]
pub struct Event {
    pub id: ID,
    pub when: DateTimeOfDay,
    pub item: LineItem,
}

/// Two events that agree in every observable field.
pub open spec fn ev_like(a: Event, b: Event) -> bool {
    &&& a.id@ == b.id@
    &&& a.when == b.when
    &&& a.item.spec_desc() == b.item.spec_desc()
    &&& a.item.spec_words() == b.item.spec_words()
}

/// The command pairs of a line other than its `id:` and `when:` bindings.
pub open spec fn repr_pairs(ws: Seq<(String, String)>) -> Seq<(String, String)> {
    ws.filter(|p: (String, String)| p.0@ != "id:"@ && p.0@ != "when:"@)
}

/// The display text of an event: its identifier, its instant, and its line
/// with the `id:` and `when:` bindings left out.
pub open spec fn event_repr_text(e: Event) -> Seq<char> {
    "id:"@ + e.id@ + " when:"@ + crate::time::dtod_repr(e.when) + " "@ + e.item.spec_desc()
        + crate::line_item::repr_words(repr_pairs(e.item.spec_words()))
}

impl Event {
    /// The display form of the event: its identifier, its instant, and its
    /// line with the `id:` and `when:` bindings left out.
    pub fn repr(&self) -> (r: String)
        requires
            -crate::time::CIVIL_RANGE <= self.when.day <= crate::time::CIVIL_RANGE,
        ensures
            r@ == event_repr_text(*self),
    {
        proof {
            reveal_strlit("id:");
            reveal_strlit(" when:");
            reveal_strlit(" ");
            reveal_strlit("when:");
            reveal(Seq::filter);
        }
        let mut out = self.id.repr();
        out.append(" when:");
        let when_text = self.when.repr();
        out.append(when_text.as_str());
        out.append(" ");
        out.append(self.item.desc());
        let ghost ws = self.item.spec_words();
        let n = self.item.words_len();
        let ghost head = "id:"@ + self.id@ + " when:"@ + crate::time::dtod_repr(self.when) + " "@
            + self.item.spec_desc();
        proof {
            assert(ws.take(0) =~= Seq::<(String, String)>::empty());
            assert(repr_pairs(ws.take(0)) =~= Seq::<(String, String)>::empty());
            assert(out@ =~= head);
        }
        let mut i: usize = 0;
        while i < n
            invariant
                0 <= i <= n,
                n == ws.len(),
                ws == self.item.spec_words(),
                head == "id:"@ + self.id@ + " when:"@ + crate::time::dtod_repr(self.when) + " "@
                    + self.item.spec_desc(),
                out@ == head + crate::line_item::repr_words(repr_pairs(ws.take(i as int))),
            decreases n - i,
        {
            proof {
                reveal(Seq::filter);
                reveal_strlit("id:");
                reveal_strlit("when:");
                reveal_strlit(" ");
            }
            let (k, v) = self.item.pair_at(i);
            let is_id = crate::strutil::str_eq(k.as_str(), "id:");
            let is_when = crate::strutil::str_eq(k.as_str(), "when:");
            let ghost pre = repr_pairs(ws.take(i as int));
            let ghost post = repr_pairs(ws.take(i as int + 1));
            proof {
                assert(ws.take(i as int + 1).drop_last() =~= ws.take(i as int));
                assert(ws.take(i as int + 1).last() == ws[i as int]);
            }
            if !is_id && !is_when {
                let ghost before = out@;
                out.append(" ");
                out.append(k.as_str());
                out.append(v.as_str());
                proof {
                    assert(post =~= pre.push(ws[i as int]));
                    assert(post.drop_last() =~= pre);
                    assert(post.last() == ws[i as int]);
                    assert(post.len() > 0);
                    assert(crate::line_item::repr_words(post) =~= crate::line_item::repr_words(
                        pre,
                    ) + seq![' '] + ws[i as int].0@ + ws[i as int].1@);
                    assert(out@ =~= head + crate::line_item::repr_words(post));
                }
            } else {
                proof {
                    assert(post =~= pre);
                }
            }
            i = i + 1;
        }
        proof {
            assert(ws.take(n as int) =~= ws);
        }
        out
    }

    /// An owned copy of the event.
    pub fn dup(&self) -> (r: Event)
        ensures
            ev_like(r, *self),
            r.item.wf() == self.item.wf(),
    {
        Event { id: self.id.dup(), when: self.when, item: self.item.dup() }
    }
}

/// The slider named by a line, or the default when the line names none.
pub open spec fn line_slider(item: LineItem) -> Option<Slider> {
    match item.spec_lookup(COMMAND_SLIDER@) {
        Some(s) => match parse_slider_spec(s) {
            Some(v) => Some(v),
            None => None,
        },
        None => Some(Slider { before: 0, after: 0 }),
    }
}

/// The identifier named by a line, when present and well formed.
pub open spec fn line_id(item: LineItem) -> Option<Seq<char>> {
    match item.spec_lookup(COMMAND_ID@) {
        Some(s) => if wf_id_seq(strip_id_prefix(s)) {
            Some(strip_id_prefix(s))
        } else {
            None
        },
        None => None,
    }
}

/// The recorded completions.
pub struct Events {
    events: Vec<Event>,
    errors: Vec<(LineItem, Error)>,
}

/// The latest event with the given identifier, and strictly before the
/// boundary if one is given: scanning in order, a matching event at least as
/// late as the current best replaces it.
pub open spec fn spec_latest_idx(
    s: Seq<Event>,
    id: Seq<char>,
    boundary: Option<DateTimeOfDay>,
) -> Option<int>
    decreases s.len(),
{
    if s.len() == 0 {
        None
    } else {
        let prev = spec_latest_idx(s.drop_last(), id, boundary);
        let ev = s.last();
        let in_bound = match boundary {
            Some(b) => dtod_lt(ev.when, b),
            None => true,
        };
        if ev.id@ == id && in_bound && (match prev {
            Some(p) => dtod_le(s[p].when, ev.when),
            None => true,
        }) {
            Some(s.len() - 1)
        } else {
            prev
        }
    }
}

/// The first index holding the minimum `when` (ties keep the earlier
/// index).
pub open spec fn spec_earliest_overall(s: Seq<Event>) -> Option<int>
    decreases s.len(),
{
    if s.len() == 0 {
        None
    } else {
        let prev = spec_earliest_overall(s.drop_last());
        let ev = s.last();
        match prev {
            Some(p) => if dtod_lt(ev.when, s[p].when) {
                Some(s.len() - 1)
            } else {
                prev
            },
            None => Some(s.len() - 1),
        }
    }
}

/// The last index holding the maximum `when` (ties keep the later index).
pub open spec fn spec_latest_overall(s: Seq<Event>) -> Option<int>
    decreases s.len(),
{
    if s.len() == 0 {
        None
    } else {
        let prev = spec_latest_overall(s.drop_last());
        let ev = s.last();
        match prev {
            Some(p) => if dtod_le(s[p].when, ev.when) {
                Some(s.len() - 1)
            } else {
                prev
            },
            None => Some(s.len() - 1),
        }
    }
}

/// A found latest-event index lies within the record.
pub proof fn lemma_latest_idx_range(s: Seq<Event>, id: Seq<char>, boundary: Option<DateTimeOfDay>)
    ensures
        spec_latest_idx(s, id, boundary) matches Some(p) ==> 0 <= p < s.len(),
    decreases s.len(),
{
    if s.len() > 0 {
        lemma_latest_idx_range(s.drop_last(), id, boundary);
    }
}

impl Events {
    /// The recorded events, in the order they were added.
    pub closed spec fn events_seq(&self) -> Seq<Event> {
        self.events@
    }

    /// Every stored event is well formed.
    pub open spec fn wf(&self) -> bool {
        forall|i: int|
            0 <= i < self.events_seq().len() ==> (#[trigger] self.events_seq()[i]).item.wf()
                && crate::time::wf_dtod(self.events_seq()[i].when)
    }

    /// An empty record of completions.
    pub fn new() -> (r: Events)
        ensures
            r.wf(),
            r.events_seq() == Seq::<Event>::empty(),
    {
        Events { events: Vec::new(), errors: Vec::new() }
    }

    /// Parses one stored line into an event: it must name a well-formed
    /// identifier and a parseable completion instant.
    pub fn add_line_item(&mut self, item: &LineItem) -> (r: Result<(), Error>)
        requires
            old(self).wf(),
            item.wf(),
        ensures
            final(self).wf(),
            r is Ok ==> {
                &&& line_id(*item) is Some
                &&& final(self).events_seq().len() == old(self).events_seq().len() + 1
                &&& final(self).events_seq().take(old(self).events_seq().len() as int) == old(self).events_seq()
                &&& final(self).events_seq().last().id@ == line_id(*item).unwrap()
                &&& final(self).events_seq().last().item.spec_desc() == item.spec_desc()
                &&& final(self).events_seq().last().item.spec_words() == item.spec_words()
            },
            r is Err ==> final(self).events_seq() == old(self).events_seq(),
            item.spec_lookup(COMMAND_ID@) is None ==> r is Err,
            line_id(*item) is None ==> r is Err,
            item.spec_lookup(COMMAND_WHEN@) is None ==> r is Err,
    {
        proof {
            reveal_strlit("id:");
            reveal_strlit("when:");
        }
        let id_text = match self.lookup_required(item, COMMAND_ID) {
            Ok(x) => x,
            Err(e) => {
                return Err(e);
            },
        };
        let id = match ID::new(id_text) {
            Some(id) => id,
            None => {
                return Err(Error::StringErrorXXX(String::from_str("ID not parseable")));
            },
        };
        let when_text = match self.lookup_required(item, COMMAND_WHEN) {
            Ok(x) => x,
            Err(e) => {
                return Err(e);
            },
        };
        let when = match DateTimeOfDay::parse(when_text.as_str()) {
            Ok(x) => x,
            Err(e) => {
                return Err(Error::StringErrorXXX(e));
            },
        };
        if !(1 <= when.day && when.day <= crate::time::DAY_MAX) {
            return Err(Error::StringErrorXXX(String::from_str("instant out of range")));
        }
        let event = Event { id, when, item: item.dup() };
        self.events.push(event);
        proof {
            assert(final(self).events_seq().take(old(self).events_seq().len() as int)
                =~= old(self).events_seq());
        }
        Ok(())
    }

    /// The value of a command word that must be present.
    fn lookup_required(&self, item: &LineItem, cmd: &str) -> (r: Result<String, Error>)
        requires
            item.wf(),
            crate::line_item::wf_key(cmd@),
        ensures
            r is Ok <==> item.spec_lookup(cmd@) is Some,
            r matches Ok(v) ==> item.spec_lookup(cmd@) == Some(v@),
            r matches Err(e) ==> e is StringErrorXXX,
    {
        match item.lookup(cmd) {
            Some(x) => Ok(x.to_owned()),
            None => {
                let mut msg = String::from_str("required field(");
                msg.append(cmd);
                msg.append(") not present");
                Err(Error::StringErrorXXX(msg))
            },
        }
    }

    /// Records a line that could not be parsed.
    pub fn record_error(&mut self, item: LineItem, e: Error)
        requires
            old(self).wf(),
        ensures
            final(self).wf(),
            final(self).events_seq() == old(self).events_seq(),
    {
        self.errors.push((item, e));
    }

    /// Copies of the recorded events, in order.
    pub fn iter(&self) -> (r: Vec<Event>)
        requires
            self.wf(),
        ensures
            r@.len() == self.events_seq().len(),
            forall|i: int|
                0 <= i < r@.len() ==> ev_like(#[trigger] r@[i], self.events_seq()[i]),
    {
        let n = self.events.len();
        let mut out: Vec<Event> = Vec::new();
        let mut i: usize = 0;
        while i < n
            invariant
                0 <= i <= n,
                n == self.events_seq().len(),
                out@.len() == i,
                forall|j: int|
                    0 <= j < i ==> ev_like(#[trigger] out@[j], self.events_seq()[j]),
            decreases n - i,
        {
            let ev = self.events[i].dup();
            out.push(ev);
            i = i + 1;
        }
        out
    }

    /// The number of recorded events.
    pub fn len(&self) -> (r: usize)
        ensures
            r == self.events_seq().len(),
    {
        self.events.len()
    }

    /// The latest event recorded for `id`, if any.
    pub fn latest_event(&self, id: ID) -> (r: Option<Event>)
        requires
            self.wf(),
        ensures
            r is Some <==> spec_latest_idx(self.events_seq(), id@, None) is Some,
            r matches Some(ev) ==> spec_latest_idx(self.events_seq(), id@, None) matches Some(p)
                && ev_like(ev, self.events_seq()[p]),
    {
        self.scan_latest(id, None)
    }

    /// The latest event recorded for `id` strictly before `boundary`, if
    /// any.
    pub fn latest_event_before(&self, id: ID, boundary: DateTimeOfDay) -> (r: Option<Event>)
        requires
            self.wf(),
        ensures
            r is Some <==> spec_latest_idx(self.events_seq(), id@, Some(boundary)) is Some,
            r matches Some(ev) ==> spec_latest_idx(self.events_seq(), id@, Some(boundary))
                matches Some(p) && ev_like(ev, self.events_seq()[p]),
    {
        self.scan_latest(id, Some(boundary))
    }

    fn scan_latest(&self, id: ID, boundary: Option<DateTimeOfDay>) -> (r: Option<Event>)
        requires
            self.wf(),
        ensures
            r is Some <==> spec_latest_idx(self.events_seq(), id@, boundary) is Some,
            r matches Some(ev) ==> spec_latest_idx(self.events_seq(), id@, boundary) matches Some(
                p,
            ) && ev_like(ev, self.events_seq()[p]),
    {
        let n = self.events.len();
        let mut best: Option<usize> = None;
        let mut i: usize = 0;
        while i < n
            invariant
                0 <= i <= n,
                n == self.events_seq().len(),
                match best {
                    Some(b) => 0 <= b < i && spec_latest_idx(
                        self.events_seq().take(i as int),
                        id@,
                        boundary,
                    ) == Some(b as int),
                    None => spec_latest_idx(self.events_seq().take(i as int), id@, boundary)
                        is None,
                },
            decreases n - i,
        {
            let ev = &self.events[i];
            let in_bound = match boundary {
                Some(b) => ev.when.lt(&b),
                None => true,
            };
            let matches_id = ev.id.eq(&id);
            let replaces = match best {
                Some(b) => self.events[b].when.le(&ev.when),
                None => true,
            };
            proof {
                let t = self.events_seq().take(i as int + 1);
                assert(t.drop_last() =~= self.events_seq().take(i as int));
                assert(t.last() == self.events_seq()[i as int]);
            }
            if matches_id && in_bound && replaces {
                best = Some(i);
            }
            i = i + 1;
        }
        proof {
            assert(self.events_seq().take(n as int) =~= self.events_seq());
        }
        match best {
            Some(b) => Some(self.events[b].dup()),
            None => None,
        }
    }

    /// The earliest event overall, if any.
    pub fn earliest_event_overall(&self) -> (r: Option<Event>)
        requires
            self.wf(),
        ensures
            r is Some <==> self.events_seq().len() > 0,
            r matches Some(ev) ==> spec_earliest_overall(self.events_seq()) matches Some(p)
                && ev_like(ev, self.events_seq()[p]),
    {
        let n = self.events.len();
        let mut best: Option<usize> = None;
        let mut i: usize = 0;
        while i < n
            invariant
                0 <= i <= n,
                n == self.events_seq().len(),
                best is Some <==> i > 0,
                match best {
                    Some(b) => 0 <= b < i && spec_earliest_overall(
                        self.events_seq().take(i as int),
                    ) == Some(b as int),
                    None => i == 0,
                },
            decreases n - i,
        {
            proof {
                let t = self.events_seq().take(i as int + 1);
                assert(t.drop_last() =~= self.events_seq().take(i as int));
                assert(t.last() == self.events_seq()[i as int]);
            }
            match best {
                Some(b) => {
                    if self.events[i].when.lt(&self.events[b].when) {
                        best = Some(i);
                    }
                },
                None => {
                    best = Some(i);
                },
            }
            i = i + 1;
        }
        proof {
            assert(self.events_seq().take(n as int) =~= self.events_seq());
        }
        match best {
            Some(b) => Some(self.events[b].dup()),
            None => None,
        }
    }

    /// The latest event overall, if any.
    pub fn latest_event_overall(&self) -> (r: Option<Event>)
        requires
            self.wf(),
        ensures
            r is Some <==> self.events_seq().len() > 0,
            r matches Some(ev) ==> spec_latest_overall(self.events_seq()) matches Some(p)
                && ev_like(ev, self.events_seq()[p]),
    {
        let n = self.events.len();
        let mut best: Option<usize> = None;
        let mut i: usize = 0;
        while i < n
            invariant
                0 <= i <= n,
                n == self.events_seq().len(),
                best is Some <==> i > 0,
                match best {
                    Some(b) => 0 <= b < i && spec_latest_overall(self.events_seq().take(i as int))
                        == Some(b as int),
                    None => i == 0,
                },
            decreases n - i,
        {
            proof {
                let t = self.events_seq().take(i as int + 1);
                assert(t.drop_last() =~= self.events_seq().take(i as int));
                assert(t.last() == self.events_seq()[i as int]);
            }
            match best {
                Some(b) => {
                    if self.events[b].when.le(&self.events[i].when) {
                        best = Some(i);
                    }
                },
                None => {
                    best = Some(i);
                },
            }
            i = i + 1;
        }
        proof {
            assert(self.events_seq().take(n as int) =~= self.events_seq());
        }
        match best {
            Some(b) => Some(self.events[b].dup()),
            None => None,
        }
    }
}

/// The active rhythms, grouped by kind.
pub struct Rhythms {
    dailies: Vec<Daily>,
    monthlies: Vec<Monthly>,
    week_dailies: Vec<WeekDaily>,
    every_n_dailies: Vec<EveryNDays>,
    errors: Vec<(LineItem, Error)>,
}

impl Rhythms {
    /// The daily rhythms, in the order they were added.
    pub closed spec fn dailies_seq(&self) -> Seq<Daily> {
        self.dailies@
    }

    /// The monthly rhythms, in the order they were added.
    pub closed spec fn monthlies_seq(&self) -> Seq<Monthly> {
        self.monthlies@
    }

    /// The weekly rhythms, in the order they were added.
    pub closed spec fn week_dailies_seq(&self) -> Seq<WeekDaily> {
        self.week_dailies@
    }

    /// The every-N rhythms, in the order they were added.
    pub closed spec fn every_n_seq(&self) -> Seq<EveryNDays> {
        self.every_n_dailies@
    }

    /// An empty rule set.
    pub fn new() -> (r: Rhythms)
        ensures
            r.dailies_seq() == Seq::<Daily>::empty(),
            r.monthlies_seq() == Seq::<Monthly>::empty(),
            r.week_dailies_seq() == Seq::<WeekDaily>::empty(),
            r.every_n_seq() == Seq::<EveryNDays>::empty(),
    {
        Rhythms {
            dailies: Vec::new(),
            monthlies: Vec::new(),
            week_dailies: Vec::new(),
            every_n_dailies: Vec::new(),
            errors: Vec::new(),
        }
    }

    /// Whether no rhythms have been added.
    pub fn is_empty(&self) -> (r: bool)
        ensures
            r == (self.dailies_seq().len() == 0 && self.monthlies_seq().len() == 0
                && self.week_dailies_seq().len() == 0 && self.every_n_seq().len() == 0),
    {
        self.dailies.len() == 0 && self.monthlies.len() == 0 && self.week_dailies.len() == 0
            && self.every_n_dailies.len() == 0
    }

    /// Records a line that could not be parsed.
    pub fn record_error(&mut self, item: LineItem, e: Error)
        ensures
            final(self).dailies_seq() == old(self).dailies_seq(),
            final(self).monthlies_seq() == old(self).monthlies_seq(),
            final(self).week_dailies_seq() == old(self).week_dailies_seq(),
            final(self).every_n_seq() == old(self).every_n_seq(),
    {
        self.errors.push((item, e));
    }

    /// Copies of the daily rhythms, in order.
    pub fn dailies(&self) -> (r: Vec<Daily>)
        ensures
            r@ == self.dailies_seq(),
    {
        let n = self.dailies.len();
        let mut out: Vec<Daily> = Vec::new();
        let mut i: usize = 0;
        while i < n
            invariant
                0 <= i <= n,
                n == self.dailies_seq().len(),
                out@ =~= self.dailies_seq().take(i as int),
            decreases n - i,
        {
            out.push(self.dailies[i].dup());
            proof {
                assert(out@ =~= self.dailies_seq().take(i as int + 1));
            }
            i = i + 1;
        }
        proof {
            assert(self.dailies_seq().take(n as int) =~= self.dailies_seq());
        }
        out
    }

    /// Copies of the monthly rhythms, in order.
    pub fn monthlies(&self) -> (r: Vec<Monthly>)
        ensures
            r@ == self.monthlies_seq(),
    {
        let n = self.monthlies.len();
        let mut out: Vec<Monthly> = Vec::new();
        let mut i: usize = 0;
        while i < n
            invariant
                0 <= i <= n,
                n == self.monthlies_seq().len(),
                out@ =~= self.monthlies_seq().take(i as int),
            decreases n - i,
        {
            out.push(self.monthlies[i].dup());
            proof {
                assert(out@ =~= self.monthlies_seq().take(i as int + 1));
            }
            i = i + 1;
        }
        proof {
            assert(self.monthlies_seq().take(n as int) =~= self.monthlies_seq());
        }
        out
    }

    /// Copies of the weekly rhythms, in order.
    pub fn week_dailies(&self) -> (r: Vec<WeekDaily>)
        ensures
            r@ == self.week_dailies_seq(),
    {
        let n = self.week_dailies.len();
        let mut out: Vec<WeekDaily> = Vec::new();
        let mut i: usize = 0;
        while i < n
            invariant
                0 <= i <= n,
                n == self.week_dailies_seq().len(),
                out@ =~= self.week_dailies_seq().take(i as int),
            decreases n - i,
        {
            out.push(self.week_dailies[i].dup());
            proof {
                assert(out@ =~= self.week_dailies_seq().take(i as int + 1));
            }
            i = i + 1;
        }
        proof {
            assert(self.week_dailies_seq().take(n as int) =~= self.week_dailies_seq());
        }
        out
    }

    /// Copies of the every-N rhythms, in order.
    pub fn every_n_dailies(&self) -> (r: Vec<EveryNDays>)
        ensures
            r@ == self.every_n_seq(),
    {
        let n = self.every_n_dailies.len();
        let mut out: Vec<EveryNDays> = Vec::new();
        let mut i: usize = 0;
        while i < n
            invariant
                0 <= i <= n,
                n == self.every_n_seq().len(),
                out@ =~= self.every_n_seq().take(i as int),
            decreases n - i,
        {
            out.push(self.every_n_dailies[i].dup());
            proof {
                assert(out@ =~= self.every_n_seq().take(i as int + 1));
            }
            i = i + 1;
        }
        proof {
            assert(self.every_n_seq().take(n as int) =~= self.every_n_seq());
        }
        out
    }

    /// All rhythms as the sum type, category by category: the dailies, the
    /// monthlies, the weeklies, then the every-N rhythms, each in stored
    /// order.
    pub fn rhythms(&self) -> (r: Vec<Rhythm>)
        ensures
            r@ == self.dailies_seq().map_values(|d: Daily| Rhythm::Daily(d))
                + self.monthlies_seq().map_values(|m: Monthly| Rhythm::Monthly(m))
                + self.week_dailies_seq().map_values(|w: WeekDaily| Rhythm::WeekDaily(w))
                + self.every_n_seq().map_values(|e: EveryNDays| Rhythm::EveryNDays(e)),
            r@.len() == self.dailies_seq().len() + self.monthlies_seq().len()
                + self.week_dailies_seq().len() + self.every_n_seq().len(),
    {
        let mut out: Vec<Rhythm> = Vec::new();
        let ds = self.dailies();
        let ms = self.monthlies();
        let ws = self.week_dailies();
        let es = self.every_n_dailies();
        let mut i: usize = 0;
        let dn = ds.len();
        while i < dn
            invariant
                0 <= i <= dn,
                dn == ds@.len(),
                ds@ == self.dailies_seq(),
                out@.len() == i,
                out@ == self.dailies_seq().take(i as int).map_values(
                    |d: Daily| Rhythm::Daily(d),
                ),
            decreases dn - i,
        {
            out.push(Rhythm::Daily(ds[i].dup()));
            proof {
                assert(out@ =~= self.dailies_seq().take(i as int + 1).map_values(
                    |d: Daily| Rhythm::Daily(d),
                ));
            }
            i = i + 1;
        }
        proof {
            assert(self.dailies_seq().take(dn as int) =~= self.dailies_seq());
        }
        let mut i: usize = 0;
        let mn = ms.len();
        while i < mn
            invariant
                0 <= i <= mn,
                mn == ms@.len(),
                ms@ == self.monthlies_seq(),
                out@.len() == dn + i,
                dn == self.dailies_seq().len(),
                out@ == self.dailies_seq().map_values(|d: Daily| Rhythm::Daily(d))
                    + self.monthlies_seq().take(i as int).map_values(
                    |m: Monthly| Rhythm::Monthly(m),
                ),
            decreases mn - i,
        {
            out.push(Rhythm::Monthly(ms[i].dup()));
            proof {
                assert(out@ =~= self.dailies_seq().map_values(|d: Daily| Rhythm::Daily(d))
                    + self.monthlies_seq().take(i as int + 1).map_values(
                    |m: Monthly| Rhythm::Monthly(m),
                ));
            }
            i = i + 1;
        }
        proof {
            assert(self.monthlies_seq().take(mn as int) =~= self.monthlies_seq());
        }
        let mut i: usize = 0;
        let wn = ws.len();
        while i < wn
            invariant
                0 <= i <= wn,
                wn == ws@.len(),
                ws@ == self.week_dailies_seq(),
                out@.len() == dn + mn + i,
                dn == self.dailies_seq().len(),
                mn == self.monthlies_seq().len(),
                out@ == self.dailies_seq().map_values(|d: Daily| Rhythm::Daily(d))
                    + self.monthlies_seq().map_values(|m: Monthly| Rhythm::Monthly(m))
                    + self.week_dailies_seq().take(i as int).map_values(
                    |w: WeekDaily| Rhythm::WeekDaily(w),
                ),
            decreases wn - i,
        {
            out.push(Rhythm::WeekDaily(ws[i].dup()));
            proof {
                assert(out@ =~= self.dailies_seq().map_values(|d: Daily| Rhythm::Daily(d))
                    + self.monthlies_seq().map_values(|m: Monthly| Rhythm::Monthly(m))
                    + self.week_dailies_seq().take(i as int + 1).map_values(
                    |w: WeekDaily| Rhythm::WeekDaily(w),
                ));
            }
            i = i + 1;
        }
        proof {
            assert(self.week_dailies_seq().take(wn as int) =~= self.week_dailies_seq());
        }
        let mut i: usize = 0;
        let en = es.len();
        while i < en
            invariant
                0 <= i <= en,
                en == es@.len(),
                es@ == self.every_n_seq(),
                out@.len() == dn + mn + wn + i,
                dn == self.dailies_seq().len(),
                mn == self.monthlies_seq().len(),
                wn == self.week_dailies_seq().len(),
                out@ == self.dailies_seq().map_values(|d: Daily| Rhythm::Daily(d))
                    + self.monthlies_seq().map_values(|m: Monthly| Rhythm::Monthly(m))
                    + self.week_dailies_seq().map_values(|w: WeekDaily| Rhythm::WeekDaily(w))
                    + self.every_n_seq().take(i as int).map_values(
                    |e: EveryNDays| Rhythm::EveryNDays(e),
                ),
            decreases en - i,
        {
            out.push(Rhythm::EveryNDays(es[i].dup()));
            proof {
                assert(out@ =~= self.dailies_seq().map_values(|d: Daily| Rhythm::Daily(d))
                    + self.monthlies_seq().map_values(|m: Monthly| Rhythm::Monthly(m))
                    + self.week_dailies_seq().map_values(|w: WeekDaily| Rhythm::WeekDaily(w))
                    + self.every_n_seq().take(i as int + 1).map_values(
                    |e: EveryNDays| Rhythm::EveryNDays(e),
                ));
            }
            i = i + 1;
        }
        proof {
            assert(self.every_n_seq().take(en as int) =~= self.every_n_seq());
        }
        out
    }
}

/// The rule set and completion history the scheduler works from.
pub struct Cadence {
    pub rhythms: Rhythms,
    pub events: Events,
}

impl Cadence {
    /// Assembles the scheduler's inputs.
    pub fn new(rhythms: Rhythms, events: Events) -> (r: Cadence)
        ensures
            r.rhythms.dailies_seq() == rhythms.dailies_seq(),
            r.rhythms.monthlies_seq() == rhythms.monthlies_seq(),
            r.rhythms.week_dailies_seq() == rhythms.week_dailies_seq(),
            r.rhythms.every_n_seq() == rhythms.every_n_seq(),
            r.events.events_seq() == events.events_seq(),
    {
        Cadence { rhythms, events }
    }
}


/// The recurrence type named by a line.
pub open spec fn line_type(item: LineItem) -> Option<Seq<char>> {
    item.spec_lookup(COMMAND_TYPE@)
}

/// The parsed `dotm:` field of a line, when present and numeric.
pub open spec fn line_dotm(item: LineItem) -> Option<u32> {
    match item.spec_lookup(COMMAND_DOTM@) {
        Some(s) => parse_u32_spec(s),
        None => None,
    }
}

/// The parsed `n:` field of a line, when present and numeric.
pub open spec fn line_n(item: LineItem) -> Option<u32> {
    match item.spec_lookup(COMMAND_N@) {
        Some(s) => parse_u32_spec(s),
        None => None,
    }
}

/// The `dotw:` field of a line.
pub open spec fn line_dotw(item: LineItem) -> Option<Seq<char>> {
    item.spec_lookup(COMMAND_DOTW@)
}

/// Whether a daily line carries everything a daily rhythm needs.
pub open spec fn ok_daily(item: LineItem) -> bool {
    line_id(item) is Some
}

/// Whether a monthly line carries everything a monthly rhythm needs.
pub open spec fn ok_monthly(item: LineItem) -> bool {
    line_id(item) is Some && line_dotm(item) is Some && line_slider(item) is Some
}

/// Whether a weekly line carries everything a weekly rhythm needs.
pub open spec fn ok_week_daily(item: LineItem) -> bool {
    line_id(item) is Some && line_dotw(item) is Some && line_slider(item) is Some
}

/// Whether an every-N line carries everything an every-N rhythm needs.
pub open spec fn ok_every_n(item: LineItem) -> bool {
    line_id(item) is Some && line_n(item) is Some && line_slider(item) is Some
}

impl Rhythms {
    /// Parses one stored line into a rhythm of the named type and adds it to
    /// its category.  The line's type, when present, must be one of the four
    /// known names, and a named weekday must parse: anything else is
    /// malformed beyond what this layer accepts.
    pub fn add_line_item(&mut self, item: &LineItem) -> (r: Result<(), Error>)
        requires
            item.wf(),
            line_type(*item) matches Some(t) ==> (t == "daily"@ || t == "monthly"@ || t
                == "week-daily"@ || t == "every-n-days"@),
            line_type(*item) == Some("week-daily"@) ==> (line_dotw(*item) matches Some(w)
                ==> spec_weekday_parse(w) is Some),
        ensures
            r is Ok <==> (match line_type(*item) {
                None => false,
                Some(t) => if t == "daily"@ {
                    ok_daily(*item)
                } else if t == "monthly"@ {
                    ok_monthly(*item)
                } else if t == "week-daily"@ {
                    ok_week_daily(*item)
                } else {
                    ok_every_n(*item)
                },
            }),
            r is Err ==> final(self).dailies_seq() == old(self).dailies_seq() && final(self).monthlies_seq() == old(self).monthlies_seq() && final(self).week_dailies_seq() == old(self).week_dailies_seq() && final(self).every_n_seq() == old(self).every_n_seq(),
            r is Ok && line_type(*item) == Some("daily"@) ==> {
                &&& final(self).dailies_seq().len() == old(self).dailies_seq().len() + 1
                &&& final(self).dailies_seq().take(old(self).dailies_seq().len() as int) == old(self).dailies_seq()
                &&& final(self).dailies_seq().last().id@ == line_id(*item).unwrap()
                &&& final(self).dailies_seq().last().desc@ == item.spec_desc()
                &&& final(self).monthlies_seq() == old(self).monthlies_seq()
                &&& final(self).week_dailies_seq() == old(self).week_dailies_seq()
                &&& final(self).every_n_seq() == old(self).every_n_seq()
            },
            r is Ok && line_type(*item) == Some("monthly"@) ==> {
                &&& final(self).monthlies_seq().len() == old(self).monthlies_seq().len() + 1
                &&& final(self).monthlies_seq().take(old(self).monthlies_seq().len() as int)
                    == old(self).monthlies_seq()
                &&& final(self).monthlies_seq().last().id@ == line_id(*item).unwrap()
                &&& final(self).monthlies_seq().last().desc@ == item.spec_desc()
                &&& final(self).monthlies_seq().last().dotm == line_dotm(*item).unwrap()
                &&& final(self).monthlies_seq().last().slider == line_slider(*item).unwrap()
                &&& final(self).dailies_seq() == old(self).dailies_seq()
                &&& final(self).week_dailies_seq() == old(self).week_dailies_seq()
                &&& final(self).every_n_seq() == old(self).every_n_seq()
            },
            r is Ok && line_type(*item) == Some("week-daily"@) ==> {
                &&& final(self).week_dailies_seq().len() == old(self).week_dailies_seq().len() + 1
                &&& final(self).week_dailies_seq().take(old(self).week_dailies_seq().len() as int)
                    == old(self).week_dailies_seq()
                &&& final(self).week_dailies_seq().last().id@ == line_id(*item).unwrap()
                &&& final(self).week_dailies_seq().last().desc@ == item.spec_desc()
                &&& Some(final(self).week_dailies_seq().last().dotw) == spec_weekday_parse(
                    line_dotw(*item).unwrap(),
                )
                &&& final(self).week_dailies_seq().last().slider == line_slider(*item).unwrap()
                &&& final(self).dailies_seq() == old(self).dailies_seq()
                &&& final(self).monthlies_seq() == old(self).monthlies_seq()
                &&& final(self).every_n_seq() == old(self).every_n_seq()
            },
            r is Ok && line_type(*item) == Some("every-n-days"@) ==> {
                &&& final(self).every_n_seq().len() == old(self).every_n_seq().len() + 1
                &&& final(self).every_n_seq().take(old(self).every_n_seq().len() as int) == old(self).every_n_seq()
                &&& final(self).every_n_seq().last().id@ == line_id(*item).unwrap()
                &&& final(self).every_n_seq().last().desc@ == item.spec_desc()
                &&& final(self).every_n_seq().last().n == line_n(*item).unwrap()
                &&& final(self).every_n_seq().last().slider == line_slider(*item).unwrap()
                &&& final(self).dailies_seq() == old(self).dailies_seq()
                &&& final(self).monthlies_seq() == old(self).monthlies_seq()
                &&& final(self).week_dailies_seq() == old(self).week_dailies_seq()
            },
    {
        proof {
            reveal_strlit("daily");
            reveal_strlit("monthly");
            reveal_strlit("week-daily");
            reveal_strlit("every-n-days");
            reveal_strlit("type:");
            reveal_strlit("id:");
            reveal_strlit("dotm:");
            reveal_strlit("dotw:");
            reveal_strlit("n:");
            assert("daily"@.len() == 5);
            assert("monthly"@.len() == 7);
            assert("week-daily"@.len() == 10);
            assert("every-n-days"@.len() == 12);
        }
        let ty = match item.lookup(COMMAND_TYPE) {
            Some(x) => x.to_owned(),
            None => {
                return Err(missing_field(COMMAND_TYPE));
            },
        };
        let id_text = match item.lookup(COMMAND_ID) {
            Some(x) => x.to_owned(),
            None => {
                return Err(missing_field(COMMAND_ID));
            },
        };
        let id = match ID::new(id_text) {
            Some(id) => id,
            None => {
                return Err(Error::StringErrorXXX(String::from_str("ID not parseable")));
            },
        };
        let desc = item.desc().to_owned();
        if crate::strutil::str_eq(ty.as_str(), "daily") {
            let daily = Daily { id, desc };
            self.dailies.push(daily);
            proof {
                assert(final(self).dailies_seq().take(old(self).dailies_seq().len() as int)
                    =~= old(self).dailies_seq());
            }
            Ok(())
        } else if crate::strutil::str_eq(ty.as_str(), "monthly") {
            let dotm_text = match item.lookup(COMMAND_DOTM) {
                Some(x) => x,
                None => {
                    return Err(missing_field(COMMAND_DOTM));
                },
            };
            let dotm = match crate::util::parse_u32(dotm_text) {
                Ok(x) => x,
                Err(e) => {
                    return Err(e);
                },
            };
            let slider = match self.read_slider(item) {
                Ok(x) => x,
                Err(e) => {
                    return Err(e);
                },
            };
            let monthly = Monthly { id, desc, dotm, slider };
            self.monthlies.push(monthly);
            proof {
                assert(final(self).monthlies_seq().take(old(self).monthlies_seq().len() as int)
                    =~= old(self).monthlies_seq());
            }
            Ok(())
        } else if crate::strutil::str_eq(ty.as_str(), "week-daily") {
            let dotw_text = match item.lookup(COMMAND_DOTW) {
                Some(x) => x,
                None => {
                    return Err(missing_field(COMMAND_DOTW));
                },
            };
            let dotw = match crate::rhythms::Weekday::parse(dotw_text) {
                Some(x) => x,
                None => vstd::pervasive::unreached(),
            };
            let slider = match self.read_slider(item) {
                Ok(x) => x,
                Err(e) => {
                    return Err(e);
                },
            };
            let week_daily = WeekDaily { id, desc, dotw, slider };
            self.week_dailies.push(week_daily);
            proof {
                assert(final(self).week_dailies_seq().take(
                    old(self).week_dailies_seq().len() as int,
                ) =~= old(self).week_dailies_seq());
            }
            Ok(())
        } else if crate::strutil::str_eq(ty.as_str(), "every-n-days") {
            let n_text = match item.lookup(COMMAND_N) {
                Some(x) => x,
                None => {
                    return Err(missing_field(COMMAND_N));
                },
            };
            let n = match crate::util::parse_u32(n_text) {
                Ok(x) => x,
                Err(e) => {
                    return Err(e);
                },
            };
            let slider = match self.read_slider(item) {
                Ok(x) => x,
                Err(e) => {
                    return Err(e);
                },
            };
            let every_n = EveryNDays { id, desc, n, slider };
            self.every_n_dailies.push(every_n);
            proof {
                assert(final(self).every_n_seq().take(old(self).every_n_seq().len() as int)
                    =~= old(self).every_n_seq());
            }
            Ok(())
        } else {
            vstd::pervasive::unreached()
        }
    }

    /// The slider a line names, or the default; fails when the field is
    /// present but malformed.
    fn read_slider(&self, item: &LineItem) -> (r: Result<Slider, Error>)
        requires
            item.wf(),
        ensures
            r is Ok <==> line_slider(*item) is Some,
            r matches Ok(s) ==> line_slider(*item) == Some(s),
            r matches Err(e) ==> e is StringErrorXXX,
    {
        proof {
            reveal_strlit("slider:");
        }
        match item.lookup(COMMAND_SLIDER) {
            Some(x) => crate::util::parse_slider(x),
            None => Ok(Slider { before: 0, after: 0 }),
        }
    }
}

/// The failure report for a missing required field.
fn missing_field(cmd: &str) -> (r: Error)
    ensures
        r is StringErrorXXX,
{
    let mut msg = String::from_str("required field(");
    msg.append(cmd);
    msg.append(") not present");
    Error::StringErrorXXX(msg)
}


/// Whether an event is observably one of a record's entries.
pub open spec fn from_events(e: Event, s: Seq<Event>) -> bool {
    exists|j: int| 0 <= j < s.len() && ev_like(e, s[j])
}

/// Whether an observably equal copy of `e` appears in `r`.
pub open spec fn event_represented(r: Seq<Event>, e: Event) -> bool {
    exists|k: int| 0 <= k < r.len() && ev_like(#[trigger] r[k], e)
}

/// Every source event is represented (observably equal) somewhere in `r`.
pub open spec fn events_all_represented(r: Seq<Event>, events: Seq<Event>) -> bool {
    forall|j: int| 0 <= j < events.len() ==> event_represented(r, #[trigger] events[j])
}

/// The events in ascending `when` order, stably: later entries with an
/// equal instant keep their relative order.
pub fn sort_events_by_when(events: Vec<Event>) -> (r: Vec<Event>)
    requires
        forall|i: int| 0 <= i < events@.len() ==> (#[trigger] events@[i]).item.wf(),
    ensures
        r@.len() == events@.len(),
        forall|i: int, j: int|
            0 <= i < j < r@.len() ==> dtod_le((#[trigger] r@[i]).when, (#[trigger] r@[j]).when),
        forall|i: int| 0 <= i < r@.len() ==> from_events(#[trigger] r@[i], events@),
        events_all_represented(r@, events@),
        forall|i: int| 0 <= i < r@.len() ==> (#[trigger] r@[i]).item.wf(),
{
    let n = events.len();
    let mut out: Vec<Event> = Vec::new();
    let mut i: usize = 0;
    while i < n
        invariant
            0 <= i <= n,
            n == events@.len(),
            out@.len() == i,
            forall|p: int| 0 <= p < events@.len() ==> (#[trigger] events@[p]).item.wf(),
            forall|p: int, q: int|
                0 <= p < q < out@.len() ==> dtod_le(
                    (#[trigger] out@[p]).when,
                    (#[trigger] out@[q]).when,
                ),
            forall|p: int| 0 <= p < out@.len() ==> from_events(#[trigger] out@[p], events@),
            forall|j: int| 0 <= j < i ==> event_represented(out@, #[trigger] events@[j]),
            forall|p: int| 0 <= p < out@.len() ==> (#[trigger] out@[p]).item.wf(),
        decreases n - i,
    {
        let x = events[i].dup();
        let ghost oldout = out@;
        let m = out.len();
        // first position strictly later than `x`; equal instants stay in
        // front
        let mut p: usize = 0;
        let pos: usize;
        loop
            invariant
                0 <= p <= m,
                m == out@.len(),
                out@ == oldout,
                forall|q: int| 0 <= q < p ==> dtod_le((#[trigger] out@[q]).when, x.when),
            ensures
                0 <= p <= m,
                forall|q: int| 0 <= q < p ==> dtod_le((#[trigger] oldout[q]).when, x.when),
                p < m ==> dtod_lt(x.when, oldout[p as int].when),
            decreases m - p,
        {
            if p >= m {
                break ;
            }
            if x.when.lt(&out[p].when) {
                break ;
            }
            p = p + 1;
        }
        pos = p;
        proof {
            assert(ev_like(x, events@[i as int]));
        }
        out.insert(pos, x);
        proof {
            assert(forall|q: int| 0 <= q < pos ==> #[trigger] out@[q] == oldout[q]);
            assert(forall|q: int| pos < q < out@.len() ==> #[trigger] out@[q] == oldout[q - 1]);
            assert(out@[pos as int] == x);
            assert forall|pp: int, q: int| 0 <= pp < q < out@.len() implies dtod_le(
                (#[trigger] out@[pp]).when,
                (#[trigger] out@[q]).when,
            ) by {
                if q == pos {
                } else if pp == pos {
                    assert(out@[q] == oldout[q - 1]);
                    if q - 1 == pos {
                        assert(dtod_lt(x.when, oldout[pos as int].when));
                    } else {
                        assert(dtod_lt(x.when, oldout[pos as int].when));
                        assert(dtod_le(oldout[pos as int].when, oldout[q - 1].when));
                    }
                } else if pp < pos && q > pos {
                    if pp == q - 1 {
                        assert(false);
                    }
                    assert(dtod_le(oldout[pp].when, oldout[q - 1].when));
                } else if q < pos {
                } else {
                    assert(out@[pp] == oldout[pp - 1]);
                    assert(out@[q] == oldout[q - 1]);
                }
            }
            assert forall|pp: int| 0 <= pp < out@.len() implies from_events(
                #[trigger] out@[pp],
                events@,
            ) by {
                if pp < pos {
                    assert(out@[pp] == oldout[pp]);
                } else if pp > pos {
                    assert(out@[pp] == oldout[pp - 1]);
                } else {
                    assert(ev_like(out@[pp], events@[i as int]));
                }
            }
            assert forall|j: int| 0 <= j < i + 1 implies event_represented(
                out@,
                #[trigger] events@[j],
            ) by {
                if j == i {
                    assert(ev_like(out@[pos as int], events@[j]));
                } else {
                    assert(event_represented(oldout, events@[j]));
                    let k0 = choose|k0: int|
                        0 <= k0 < oldout.len() && ev_like(#[trigger] oldout[k0], events@[j]);
                    if k0 < pos {
                        assert(ev_like(out@[k0], events@[j]));
                    } else {
                        assert(out@[k0 + 1] == oldout[k0]);
                        assert(ev_like(out@[k0 + 1], events@[j]));
                    }
                }
            }
        }
        i = i + 1;
    }
    proof {
        assert(events_all_represented(out@, events@));
    }
    out
}

} // verus!


