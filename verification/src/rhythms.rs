//! Recurring obligations and their occurrence arithmetic.
//!
//! A rhythm is one of four kinds: daily, monthly on a fixed day of the month,
//! weekly on a fixed weekday, or every N days.  Each kind steps a date to the
//! nearest later (or earlier) date satisfying its recurrence predicate; the
//! monthly and weekly kinds search day by day through the calendar views of
//! `crate::time`.
use vstd::prelude::*;

use crate::id::ID;
use crate::strutil::dec_str;
use crate::time::DAY_MAX;
use crate::time::DAY_MIN;
use crate::time::DateTimeOfDay;
use crate::time::civil_from_day;
use crate::time::dtod_lt;
use crate::time::month_day_of;
use crate::time::weekday_from_day;
use crate::time::weekday_of_day;
use crate::time::wf_dtod;

verus! {

/// Largest day distance a slider may reach in either direction.
pub const SLIDER_MAX: u32 = 366_000;

/// Day numbers handed to the occurrence steppers stay within this bound, so
/// that the bounded searches stay inside the calendar wrappers' range.
pub const STEP_RANGE: i64 = 5_000_000;

/// Spread how far into the past (`before`) or the future (`after`) an
/// occurrence may be moved from its ideal date.
#[derive(Clone, Copy, Debug, PartialEq, Eq, Structural)]
pub struct Slider {
    pub before: u32,
    pub after: u32,
}

/// A slider within the supported reach.
pub open spec fn wf_slider(s: Slider) -> bool {
    s.before <= SLIDER_MAX && s.after <= SLIDER_MAX
}

impl Slider {
    /// The canonical textual form: `before,after` in decimal.
    pub fn repr(&self) -> (r: String)
        ensures
            r@ == dec_str(self.before as int) + seq![','] + dec_str(self.after as int),
    {
        let mut out = String::new();
        crate::strutil::append_u64(&mut out, self.before as u64);
        out.append(",");
        crate::strutil::append_u64(&mut out, self.after as u64);
        proof {
            reveal_strlit(",");
            assert(","@ =~= seq![',']);
            assert(out@ =~= dec_str(self.before as int) + seq![','] + dec_str(self.after as int));
        }
        out
    }
}

impl Default for Slider {
    /// The inflexible slider: no movement in either direction.
    fn default() -> (r: Slider)
        ensures
            r.before == 0 && r.after == 0,
    {
        Slider { before: 0, after: 0 }
    }
}

/// A day of the week.
#[derive(Clone, Copy, Debug, PartialEq, Eq, Structural)]
pub enum Weekday {
    Monday,
    Tuesday,
    Wednesday,
    Thursday,
    Friday,
    Saturday,
    Sunday,
}

/// Days from Monday, matching the calendar wrapper's numbering.
pub open spec fn weekday_rank(w: Weekday) -> int {
    match w {
        Weekday::Monday => 0,
        Weekday::Tuesday => 1,
        Weekday::Wednesday => 2,
        Weekday::Thursday => 3,
        Weekday::Friday => 4,
        Weekday::Saturday => 5,
        Weekday::Sunday => 6,
    }
}

/// The three-letter display form of a weekday.
pub open spec fn weekday_repr_text(w: Weekday) -> Seq<char> {
    match w {
        Weekday::Monday => "Mon"@,
        Weekday::Tuesday => "Tue"@,
        Weekday::Wednesday => "Wed"@,
        Weekday::Thursday => "Thu"@,
        Weekday::Friday => "Fri"@,
        Weekday::Saturday => "Sat"@,
        Weekday::Sunday => "Sun"@,
    }
}

impl Weekday {
    /// Days from Monday.
    pub fn rank(&self) -> (r: u32)
        ensures
            r as int == weekday_rank(*self),
            r < 7,
    {
        match self {
            Weekday::Monday => 0,
            Weekday::Tuesday => 1,
            Weekday::Wednesday => 2,
            Weekday::Thursday => 3,
            Weekday::Friday => 4,
            Weekday::Saturday => 5,
            Weekday::Sunday => 6,
        }
    }

    /// The three-letter display form.
    pub fn repr(&self) -> (r: String)
        ensures
            r@ == weekday_repr_text(*self),
    {
        match self {
            Weekday::Monday => String::from_str("Mon"),
            Weekday::Tuesday => String::from_str("Tue"),
            Weekday::Wednesday => String::from_str("Wed"),
            Weekday::Thursday => String::from_str("Thu"),
            Weekday::Friday => String::from_str("Fri"),
            Weekday::Saturday => String::from_str("Sat"),
            Weekday::Sunday => String::from_str("Sun"),
        }
    }

    /// Accepts the full name or the three-letter abbreviation of a weekday,
    /// ASCII case-insensitively.
    pub fn parse(s: &str) -> (r: Option<Weekday>)
        ensures
            r == spec_weekday_parse(s@),
    {
        let lowered = ascii_lower(s);
        proof {
            assert(lowered@ =~= lower_seq(s@));
        }
        let t = lowered.as_str();
        if crate::strutil::str_eq(t, "mon") || crate::strutil::str_eq(t, "monday") {
            Some(Weekday::Monday)
        } else if crate::strutil::str_eq(t, "tue") || crate::strutil::str_eq(t, "tuesday") {
            Some(Weekday::Tuesday)
        } else if crate::strutil::str_eq(t, "wed") || crate::strutil::str_eq(t, "wednesday") {
            Some(Weekday::Wednesday)
        } else if crate::strutil::str_eq(t, "thu") || crate::strutil::str_eq(t, "thursday") {
            Some(Weekday::Thursday)
        } else if crate::strutil::str_eq(t, "fri") || crate::strutil::str_eq(t, "friday") {
            Some(Weekday::Friday)
        } else if crate::strutil::str_eq(t, "sat") || crate::strutil::str_eq(t, "saturday") {
            Some(Weekday::Saturday)
        } else if crate::strutil::str_eq(t, "sun") || crate::strutil::str_eq(t, "sunday") {
            Some(Weekday::Sunday)
        } else {
            None
        }
    }
}

/// The ASCII lowercase of a character, other characters unchanged.
pub open spec fn ascii_lower_char(c: char) -> char {
    if c == 'A' {
        'a'
    } else if c == 'B' {
        'b'
    } else if c == 'C' {
        'c'
    } else if c == 'D' {
        'd'
    } else if c == 'E' {
        'e'
    } else if c == 'F' {
        'f'
    } else if c == 'G' {
        'g'
    } else if c == 'H' {
        'h'
    } else if c == 'I' {
        'i'
    } else if c == 'J' {
        'j'
    } else if c == 'K' {
        'k'
    } else if c == 'L' {
        'l'
    } else if c == 'M' {
        'm'
    } else if c == 'N' {
        'n'
    } else if c == 'O' {
        'o'
    } else if c == 'P' {
        'p'
    } else if c == 'Q' {
        'q'
    } else if c == 'R' {
        'r'
    } else if c == 'S' {
        's'
    } else if c == 'T' {
        't'
    } else if c == 'U' {
        'u'
    } else if c == 'V' {
        'v'
    } else if c == 'W' {
        'w'
    } else if c == 'X' {
        'x'
    } else if c == 'Y' {
        'y'
    } else if c == 'Z' {
        'z'
    } else {
        c
    }
}

/// The ASCII lowercase of each character of a sequence.
pub open spec fn lower_seq(s: Seq<char>) -> Seq<char> {
    s.map_values(|c: char| ascii_lower_char(c))
}

/// The weekday named by a string: the full name or the three-letter
/// abbreviation, ASCII case-insensitively.
pub open spec fn spec_weekday_parse(s: Seq<char>) -> Option<Weekday> {
    let t = lower_seq(s);
    if t == "mon"@ || t == "monday"@ {
        Some(Weekday::Monday)
    } else if t == "tue"@ || t == "tuesday"@ {
        Some(Weekday::Tuesday)
    } else if t == "wed"@ || t == "wednesday"@ {
        Some(Weekday::Wednesday)
    } else if t == "thu"@ || t == "thursday"@ {
        Some(Weekday::Thursday)
    } else if t == "fri"@ || t == "friday"@ {
        Some(Weekday::Friday)
    } else if t == "sat"@ || t == "saturday"@ {
        Some(Weekday::Saturday)
    } else if t == "sun"@ || t == "sunday"@ {
        Some(Weekday::Sunday)
    } else {
        None
    }
}

fn lower_char(c: char) -> (r: char)
    ensures
        r == ascii_lower_char(c),
{
    match c {
        'A' => 'a',
        'B' => 'b',
        'C' => 'c',
        'D' => 'd',
        'E' => 'e',
        'F' => 'f',
        'G' => 'g',
        'H' => 'h',
        'I' => 'i',
        'J' => 'j',
        'K' => 'k',
        'L' => 'l',
        'M' => 'm',
        'N' => 'n',
        'O' => 'o',
        'P' => 'p',
        'Q' => 'q',
        'R' => 'r',
        'S' => 's',
        'T' => 't',
        'U' => 'u',
        'V' => 'v',
        'W' => 'w',
        'X' => 'x',
        'Y' => 'y',
        'Z' => 'z',
        _ => c,
    }
}

/// Lowercases the ASCII letters of a string.
pub fn ascii_lower(s: &str) -> (r: String)
    ensures
        r@.len() == s@.len(),
        forall|i: int| 0 <= i < s@.len() ==> r@[i] == ascii_lower_char(s@[i]),
{
    let len = s.unicode_len();
    let mut out = String::new();
    let mut i: usize = 0;
    while i < len
        invariant
            0 <= i <= len,
            len == s@.len(),
            out@.len() == i,
            forall|j: int| 0 <= j < i ==> out@[j] == ascii_lower_char(s@[j]),
        decreases len - i,
    {
        let c = s.get_char(i);
        crate::strutil::push_char(&mut out, lower_char(c));
        i = i + 1;
    }
    out
}

/// A process that must be done each day.  Daily processes can only be
/// canceled; they cannot be rescheduled because every other day has a Daily
/// already.
#[derive(Clone, Debug)]
pub struct Daily {
    /// Unique ID for the cycle.  It's expected to have multiple entries with
    /// the same ID in a schedule.
    pub id: ID,
    /// Command-free description of the process.
    pub desc: String,
}

/// A process that must be done once per month, on a particular day of the
/// month.
#[derive(Clone, Debug)]
pub struct Monthly {
    pub id: ID,
    pub desc: String,
    /// Day of the month, 1-indexed.  Days beyond a month's length are never
    /// matched in that month.
    pub dotm: u32,
    pub slider: Slider,
}

/// A process that should be done on a particular day of the week.
#[derive(Clone, Debug)]
pub struct WeekDaily {
    pub id: ID,
    pub desc: String,
    pub dotw: Weekday,
    pub slider: Slider,
}

/// A flexible process that recurs approximately every N days.
#[derive(Clone, Debug)]
pub struct EveryNDays {
    pub id: ID,
    pub desc: String,
    pub n: u32,
    pub slider: Slider,
}

/// A recurring obligation of one of the four kinds.
#[derive(Clone, Debug)]
pub enum Rhythm {
    Daily(Daily),
    Monthly(Monthly),
    WeekDaily(WeekDaily),
    EveryNDays(EveryNDays),
}

/// A rhythm the scheduling engine accepts: its slider stays in range, and an
/// every-N rhythm advances by at least one day.
pub open spec fn wf_rhythm(r: Rhythm) -> bool {
    match r {
        Rhythm::Daily(_) => true,
        Rhythm::Monthly(m) => wf_slider(m.slider),
        Rhythm::WeekDaily(w) => wf_slider(w.slider),
        Rhythm::EveryNDays(e) => e.n >= 1 && wf_slider(e.slider),
    }
}

/// A rhythm whose occurrences outrun its own backward tolerance, so that
/// successive targets strictly advance: an every-N rhythm must step further
/// than its slider reaches back.
pub open spec fn progressive(r: Rhythm) -> bool {
    match r {
        Rhythm::EveryNDays(e) => e.n > e.slider.before,
        _ => true,
    }
}

/// The tolerance of a rhythm; daily rhythms are inflexible.
pub open spec fn spec_slider(r: Rhythm) -> Slider {
    match r {
        Rhythm::Daily(_) => Slider { before: 0, after: 0 },
        Rhythm::Monthly(m) => m.slider,
        Rhythm::WeekDaily(w) => w.slider,
        Rhythm::EveryNDays(e) => e.slider,
    }
}

/// Whether an occurrence falling within the slider of the previous one is
/// skipped when seeding (true for the calendar-anchored kinds).
pub open spec fn spec_skip(r: Rhythm) -> bool {
    match r {
        Rhythm::Daily(_) => false,
        Rhythm::Monthly(_) => true,
        Rhythm::WeekDaily(_) => true,
        Rhythm::EveryNDays(_) => false,
    }
}

/// Whether day `d` satisfies the recurrence predicate of `r`; every day does
/// for the unanchored kinds.
pub open spec fn hits(r: Rhythm, d: int) -> bool {
    match r {
        Rhythm::Daily(_) => true,
        Rhythm::Monthly(m) => month_day_of(d) == m.dotm,
        Rhythm::WeekDaily(w) => weekday_of_day(d) == weekday_rank(w.dotw),
        Rhythm::EveryNDays(_) => true,
    }
}

/// The first day in `(n, n+k]` satisfying the predicate of `r`, if any.
pub open spec fn next_hit_within(r: Rhythm, n: int, k: nat) -> Option<int>
    decreases k,
{
    if k == 0 {
        None
    } else if hits(r, n + 1) {
        Some(n + 1)
    } else {
        next_hit_within(r, n + 1, (k - 1) as nat)
    }
}

/// The last day in `[n-k, n)` satisfying the predicate of `r`, if any.
pub open spec fn prev_hit_within(r: Rhythm, n: int, k: nat) -> Option<int>
    decreases k,
{
    if k == 0 {
        None
    } else if hits(r, n - 1) {
        Some(n - 1)
    } else {
        prev_hit_within(r, n - 1, (k - 1) as nat)
    }
}

/// How far the bounded searches look: any day of the month recurs within 62
/// days, any weekday within 7.
pub open spec fn search_span(r: Rhythm) -> nat {
    match r {
        Rhythm::Daily(_) => 1,
        Rhythm::Monthly(_) => 62,
        Rhythm::WeekDaily(_) => 7,
        Rhythm::EveryNDays(e) => e.n as nat,
    }
}

/// The next occurrence day of `r` strictly after day `n`: the next day for a
/// daily rhythm, `n` plus the period for an every-N rhythm, and the nearest
/// later matching day for the calendar-anchored kinds.  `None` only when a
/// monthly rhythm's day of month does not occur within the search span.
pub open spec fn spec_next_day(r: Rhythm, n: int) -> Option<int> {
    match r {
        Rhythm::Daily(_) => Some(n + 1),
        Rhythm::Monthly(_) => next_hit_within(r, n, 62),
        Rhythm::WeekDaily(_) => next_hit_within(r, n, 7),
        Rhythm::EveryNDays(e) => Some(n + e.n),
    }
}

/// The previous occurrence day of `r`.  An every-N rhythm advances by `n`
/// days here as well; callers rely on that quirk.
pub open spec fn spec_prev_day(r: Rhythm, n: int) -> Option<int> {
    match r {
        Rhythm::Daily(_) => Some(n - 1),
        Rhythm::Monthly(_) => prev_hit_within(r, n, 62),
        Rhythm::WeekDaily(_) => prev_hit_within(r, n, 7),
        Rhythm::EveryNDays(e) => Some(n + e.n),
    }
}

proof fn lemma_next_hit_found(r: Rhythm, n: int, k: nat, i: int)
    requires
        1 <= i <= k,
        hits(r, n + i),
        forall|d: int| n + 1 <= d < n + i ==> !#[trigger] hits(r, d),
    ensures
        next_hit_within(r, n, k) == Some(n + i),
    decreases i,
{
    if i == 1 {
    } else {
        assert(!hits(r, n + 1));
        lemma_next_hit_found(r, n + 1, (k - 1) as nat, i - 1);
    }
}

proof fn lemma_next_hit_none(r: Rhythm, n: int, k: nat)
    requires
        forall|d: int| n + 1 <= d <= n + k ==> !#[trigger] hits(r, d),
    ensures
        next_hit_within(r, n, k) is None,
    decreases k,
{
    if k == 0 {
    } else {
        assert(!hits(r, n + 1));
        lemma_next_hit_none(r, n + 1, (k - 1) as nat);
    }
}

proof fn lemma_prev_hit_found(r: Rhythm, n: int, k: nat, i: int)
    requires
        1 <= i <= k,
        hits(r, n - i),
        forall|d: int| n - i < d <= n - 1 ==> !#[trigger] hits(r, d),
    ensures
        prev_hit_within(r, n, k) == Some(n - i),
    decreases i,
{
    if i == 1 {
    } else {
        assert(!hits(r, n - 1));
        lemma_prev_hit_found(r, n - 1, (k - 1) as nat, i - 1);
    }
}

proof fn lemma_prev_hit_none(r: Rhythm, n: int, k: nat)
    requires
        forall|d: int| n - k <= d <= n - 1 ==> !#[trigger] hits(r, d),
    ensures
        prev_hit_within(r, n, k) is None,
    decreases k,
{
    if k == 0 {
    } else {
        assert(!hits(r, n - 1));
        lemma_prev_hit_none(r, n - 1, (k - 1) as nat);
    }
}

/// The result of the bounded search stays within its span of the start.
pub proof fn lemma_next_hit_bounds(r: Rhythm, n: int, k: nat)
    ensures
        next_hit_within(r, n, k) matches Some(m) ==> n + 1 <= m <= n + k,
    decreases k,
{
    if k == 0 {
    } else if hits(r, n + 1) {
    } else {
        lemma_next_hit_bounds(r, n + 1, (k - 1) as nat);
    }
}

/// A well-formed rhythm's next occurrence lies strictly after the base day
/// and within the search span.
pub proof fn lemma_next_day_bounds(r: Rhythm, n: int)
    requires
        wf_rhythm(r),
    ensures
        spec_next_day(r, n) matches Some(m) ==> n < m <= n + search_span(r),
{
    lemma_next_hit_bounds(r, n, 62);
    lemma_next_hit_bounds(r, n, 7);
}

impl Rhythm {
    /// The identifier of the rhythm.
    pub fn id(&self) -> (r: ID)
        ensures
            r@ == self.spec_id(),
    {
        match self {
            Rhythm::Daily(d) => d.id.dup(),
            Rhythm::Monthly(m) => m.id.dup(),
            Rhythm::WeekDaily(w) => w.id.dup(),
            Rhythm::EveryNDays(e) => e.id.dup(),
        }
    }

    /// The identifier text of the rhythm.
    pub open spec fn spec_id(&self) -> Seq<char> {
        match self {
            Rhythm::Daily(d) => d.id@,
            Rhythm::Monthly(m) => m.id@,
            Rhythm::WeekDaily(w) => w.id@,
            Rhythm::EveryNDays(e) => e.id@,
        }
    }

    /// The tolerance of the rhythm.
    pub fn slider(&self) -> (r: Slider)
        ensures
            r == spec_slider(*self),
    {
        match self {
            Rhythm::Daily(_) => Slider { before: 0, after: 0 },
            Rhythm::Monthly(m) => m.slider,
            Rhythm::WeekDaily(w) => w.slider,
            Rhythm::EveryNDays(e) => e.slider,
        }
    }

    /// Whether seeding skips an occurrence that the slider would have
    /// absorbed into the previous cycle.
    pub fn skip_beat_within_slider(&self) -> (r: bool)
        ensures
            r == spec_skip(*self),
    {
        match self {
            Rhythm::Daily(_) => false,
            Rhythm::Monthly(_) => true,
            Rhythm::WeekDaily(_) => true,
            Rhythm::EveryNDays(_) => false,
        }
    }

    /// The next occurrence day strictly after day `n`; `None` only when a
    /// monthly rhythm's day of month never occurs within the search span.
    pub fn next_naive_beat(&self, n: i64) -> (r: Option<i64>)
        requires
            -STEP_RANGE <= n <= STEP_RANGE,
        ensures
            r matches Some(m) ==> Some(m as int) == spec_next_day(*self, n as int),
            r is None <==> spec_next_day(*self, n as int) is None,
    {
        match self {
            Rhythm::Daily(_) => Some(n + 1),
            Rhythm::Monthly(m) => {
                let found = search_next_dom(n, m.dotm, Ghost(*self));
                proof {
                    lemma_next_hit_bounds(*self, n as int, 62);
                }
                found
            },
            Rhythm::WeekDaily(w) => {
                let found = search_next_dow(n, w.dotw, Ghost(*self));
                proof {
                    lemma_next_hit_bounds(*self, n as int, 7);
                }
                Some(found)
            },
            Rhythm::EveryNDays(e) => Some(n + e.n as i64),
        }
    }

    /// The previous occurrence day of the rhythm; for an every-N rhythm this
    /// advances by `n` days as well, a quirk callers rely on.
    pub fn prev_naive_beat(&self, n: i64) -> (r: Option<i64>)
        requires
            -STEP_RANGE <= n <= STEP_RANGE,
        ensures
            r matches Some(m) ==> Some(m as int) == spec_prev_day(*self, n as int),
            r is None <==> spec_prev_day(*self, n as int) is None,
            !(self is Monthly) ==> r is Some,
    {
        match self {
            Rhythm::Daily(_) => Some(n - 1),
            Rhythm::Monthly(m) => search_prev_dom(n, m.dotm, Ghost(*self)),
            Rhythm::WeekDaily(w) => Some(search_prev_dow(n, w.dotw, Ghost(*self))),
            Rhythm::EveryNDays(e) => Some(n + e.n as i64),
        }
    }
}

/// Scans days `n+1 ..= n+62` for day-of-month `dotm`.
fn search_next_dom(n: i64, dotm: u32, Ghost(r): Ghost<Rhythm>) -> (found: Option<i64>)
    requires
        -STEP_RANGE <= n <= STEP_RANGE,
        r matches Rhythm::Monthly(m) && m.dotm == dotm,
    ensures
        found matches Some(m) ==> Some(m as int) == next_hit_within(r, n as int, 62),
        found is None <==> next_hit_within(r, n as int, 62) is None,
{
    let mut i: i64 = 1;
    while i <= 62
        invariant
            1 <= i <= 63,
            -STEP_RANGE <= n <= STEP_RANGE,
            r matches Rhythm::Monthly(m) && m.dotm == dotm,
            forall|d: int| n + 1 <= d < n + i ==> !#[trigger] hits(r, d),
        decreases 63 - i,
    {
        let civ = civil_from_day(n + i);
        let dom = civ.2;
        if dom == dotm {
            proof {
                lemma_next_hit_found(r, n as int, 62, i as int);
            }
            return Some(n + i);
        }
        i = i + 1;
    }
    proof {
        lemma_next_hit_none(r, n as int, 62);
    }
    None
}

/// Scans days `n-1 ..= n-62` for day-of-month `dotm`.
fn search_prev_dom(n: i64, dotm: u32, Ghost(r): Ghost<Rhythm>) -> (found: Option<i64>)
    requires
        -STEP_RANGE <= n <= STEP_RANGE,
        r matches Rhythm::Monthly(m) && m.dotm == dotm,
    ensures
        found matches Some(m) ==> Some(m as int) == prev_hit_within(r, n as int, 62),
        found is None <==> prev_hit_within(r, n as int, 62) is None,
{
    let mut i: i64 = 1;
    while i <= 62
        invariant
            1 <= i <= 63,
            -STEP_RANGE <= n <= STEP_RANGE,
            r matches Rhythm::Monthly(m) && m.dotm == dotm,
            forall|d: int| n - i < d <= n - 1 ==> !#[trigger] hits(r, d),
        decreases 63 - i,
    {
        let civ = civil_from_day(n - i);
        let dom = civ.2;
        if dom == dotm {
            proof {
                lemma_prev_hit_found(r, n as int, 62, i as int);
            }
            return Some(n - i);
        }
        i = i + 1;
    }
    proof {
        lemma_prev_hit_none(r, n as int, 62);
    }
    None
}

/// Scans days `n+1 ..= n+7` for the weekday `dotw`; one of them always
/// matches, because successive days cycle through all seven weekdays.
fn search_next_dow(n: i64, dotw: Weekday, Ghost(r): Ghost<Rhythm>) -> (found: i64)
    requires
        -STEP_RANGE <= n <= STEP_RANGE,
        r matches Rhythm::WeekDaily(w) && w.dotw == dotw,
    ensures
        Some(found as int) == next_hit_within(r, n as int, 7),
{
    let t = dotw.rank();
    let ghost first = weekday_of_day(n as int + 1);
    let mut i: i64 = 1;
    let mut cur = weekday_from_day(n + 1);
    proof {
        assert(first % 7 == first) by (nonlinear_arith)
            requires
                0 <= first < 7,
        ;
    }
    loop
        invariant
            1 <= i <= 7,
            -STEP_RANGE <= n <= STEP_RANGE,
            r matches Rhythm::WeekDaily(w) && w.dotw == dotw,
            t == weekday_rank(dotw),
            t < 7,
            0 <= first < 7,
            first == weekday_of_day(n as int + 1),
            cur < 7,
            cur as int == weekday_of_day(n as int + i),
            weekday_of_day(n as int + i + 1) == ((cur as int) + 1) % 7,
            forall|d: int|
                n + 1 <= d <= n + i ==> #[trigger] weekday_of_day(d) == (first + d - n - 1) % 7,
            forall|d: int| n + 1 <= d < n + i ==> !#[trigger] hits(r, d),
        decreases 8 - i,
    {
        if cur == t {
            proof {
                lemma_next_hit_found(r, n as int, 7, i as int);
            }
            return n + i;
        }
        proof {
            assert(!hits(r, n as int + i));
            if i == 7 {
                // Days n+1 ..= n+7 run through all seven weekday values, so
                // the target weekday cannot have been missed.
                let jd: int = if t >= first {
                    t - first
                } else {
                    t - first + 7
                };
                assert(0 <= jd < 7);
                assert((first + jd) % 7 == t) by (nonlinear_arith)
                    requires
                        0 <= t < 7,
                        0 <= first < 7,
                        jd == if t >= first {
                            t - first
                        } else {
                            t - first + 7
                        },
                ;
                assert(weekday_of_day(n as int + jd + 1) == (first + jd) % 7);
                assert(hits(r, n as int + jd + 1));
                assert(false);
            }
        }
        i = i + 1;
        cur = weekday_from_day(n + i);
        proof {
            assert(weekday_of_day(n as int + i) == (first + i - 1) % 7) by (nonlinear_arith)
                requires
                    weekday_of_day(n as int + i) == ((first + i - 2) % 7 + 1) % 7,
                    0 <= first < 7,
                    2 <= i <= 7,
            ;
        }
    }
}

/// Scans days `n-1 ..= n-7` for the weekday `dotw`; one of them always
/// matches, because successive days cycle through all seven weekdays.
fn search_prev_dow(n: i64, dotw: Weekday, Ghost(r): Ghost<Rhythm>) -> (found: i64)
    requires
        -STEP_RANGE <= n <= STEP_RANGE,
        r matches Rhythm::WeekDaily(w) && w.dotw == dotw,
    ensures
        Some(found as int) == prev_hit_within(r, n as int, 7),
{
    let t = dotw.rank();
    let ghost first = weekday_of_day(n as int - 1);
    let mut i: i64 = 1;
    let mut cur = weekday_from_day(n - 1);
    proof {
        assert(first % 7 == first) by (nonlinear_arith)
            requires
                0 <= first < 7,
        ;
    }
    loop
        invariant
            1 <= i <= 7,
            -STEP_RANGE <= n <= STEP_RANGE,
            r matches Rhythm::WeekDaily(w) && w.dotw == dotw,
            t == weekday_rank(dotw),
            t < 7,
            0 <= first < 7,
            first == weekday_of_day(n as int - 1),
            cur < 7,
            cur as int == weekday_of_day(n as int - i),
            forall|d: int|
                n - i <= d <= n - 1 ==> #[trigger] weekday_of_day(d) == (first + 6 * (n - 1 - d))
                    % 7,
            forall|d: int| n - i < d <= n - 1 ==> !#[trigger] hits(r, d),
        decreases 8 - i,
    {
        if cur == t {
            proof {
                lemma_prev_hit_found(r, n as int, 7, i as int);
            }
            return n - i;
        }
        proof {
            assert(weekday_of_day(n as int - i) != t);
            if i == 7 {
                // Days n-7 ..= n-1 run through all seven weekday values, so
                // the target weekday cannot have been missed.
                let k: int = if first >= t {
                    first - t
                } else {
                    first - t + 7
                };
                assert(0 <= k < 7);
                assert((first + 6 * k) % 7 == t) by (nonlinear_arith)
                    requires
                        0 <= t < 7,
                        0 <= first < 7,
                        k == if first >= t {
                            first - t
                        } else {
                            first - t + 7
                        },
                ;
                assert(weekday_of_day(n as int - (k + 1)) == (first + 6 * k) % 7);
                assert(hits(r, n as int - (k + 1)));
                assert(false);
            }
        }
        i = i + 1;
        cur = weekday_from_day(n - i);
        proof {
            assert(weekday_of_day(n as int - i + 1) == ((cur as int) + 1) % 7);
            assert(weekday_of_day(n as int - i + 1) == (first + 6 * (i - 2)) % 7);
            assert(cur as int == (first + 6 * (i - 1)) % 7) by (nonlinear_arith)
                requires
                    ((cur as int) + 1) % 7 == (first + 6 * (i - 2)) % 7,
                    0 <= cur < 7,
                    0 <= first < 7,
                    2 <= i <= 7,
            ;
        }
    }
}


/// The next occurrence of `r` after `d`, the time-of-day bucket carried
/// through unchanged.
pub open spec fn spec_next_dtod(r: Rhythm, d: DateTimeOfDay) -> Option<DateTimeOfDay> {
    match spec_next_day(r, d.day as int) {
        Some(m) => Some(DateTimeOfDay { day: m as i64, when: d.when }),
        None => None,
    }
}

/// The previous occurrence of `r` before `d` (for an every-N rhythm, after
/// `d`; see `spec_prev_day`).
pub open spec fn spec_prev_dtod(r: Rhythm, d: DateTimeOfDay) -> Option<DateTimeOfDay> {
    match spec_prev_day(r, d.day as int) {
        Some(m) => Some(DateTimeOfDay { day: m as i64, when: d.when }),
        None => None,
    }
}

/// Advances `b` through the occurrences of `r` until it is no longer below
/// `start`.  `None` if an advance fails or does not move forward.
pub open spec fn spec_advance_until(r: Rhythm, b: DateTimeOfDay, start: DateTimeOfDay) -> Option<
    DateTimeOfDay,
>
    decreases (if start.day + 1 - b.day > 0 {
        start.day + 1 - b.day
    } else {
        0
    }),
{
    if !dtod_lt(b, start) {
        Some(b)
    } else {
        match spec_next_dtod(r, b) {
            None => None,
            Some(nb) => if nb.day <= b.day {
                None
            } else {
                spec_advance_until(r, nb, start)
            },
        }
    }
}

/// The first occurrence of `r` on or after `start`, given the most recent
/// completion `last_seen`: the occurrence after `last_seen`, advanced once
/// more if the rhythm skips occurrences within its backward tolerance, and
/// then advanced until it reaches the window.
pub open spec fn spec_starting(r: Rhythm, start: DateTimeOfDay, last_seen: DateTimeOfDay) -> Option<
    DateTimeOfDay,
> {
    match spec_next_dtod(r, last_seen) {
        None => None,
        Some(b1) => {
            let gap = if b1.day >= last_seen.day {
                b1.day - last_seen.day
            } else {
                last_seen.day - b1.day
            };
            if spec_skip(r) && gap < spec_slider(r).before {
                match spec_next_dtod(r, b1) {
                    None => None,
                    Some(b2) => spec_advance_until(r, b2, start),
                }
            } else {
                spec_advance_until(r, b1, start)
            }
        },
    }
}

impl Rhythm {
    /// The next occurrence after `dtod`; the bucket is carried through.
    pub fn next_beat(&self, dtod: DateTimeOfDay) -> (r: Option<DateTimeOfDay>)
        requires
            -STEP_RANGE <= dtod.day <= STEP_RANGE,
        ensures
            r == spec_next_dtod(*self, dtod),
            r matches Some(v) ==> v.when == dtod.when,
    {
        match self.next_naive_beat(dtod.day) {
            Some(m) => Some(DateTimeOfDay { day: m, when: dtod.when }),
            None => None,
        }
    }

    /// The previous occurrence relative to `dtod`; the bucket is carried
    /// through.
    pub fn prev_beat(&self, dtod: DateTimeOfDay) -> (r: Option<DateTimeOfDay>)
        requires
            -STEP_RANGE <= dtod.day <= STEP_RANGE,
        ensures
            r == spec_prev_dtod(*self, dtod),
            !(self is Monthly) ==> r is Some,
    {
        match self.prev_naive_beat(dtod.day) {
            Some(m) => Some(DateTimeOfDay { day: m, when: dtod.when }),
            None => None,
        }
    }

    /// The first occurrence that should appear in a window starting at
    /// `start`, computed from the most recent completion `last_seen`.
    pub fn starting_beat(&self, start: DateTimeOfDay, last_seen: DateTimeOfDay) -> (r: Option<
        DateTimeOfDay,
    >)
        requires
            wf_rhythm(*self),
            wf_dtod(start),
            wf_dtod(last_seen),
        ensures
            r == spec_starting(*self, start, last_seen),
    {
        let first = match self.next_beat(last_seen) {
            Some(b) => b,
            None => {
                return None;
            },
        };
        proof {
            lemma_next_day_bounds(*self, last_seen.day as int);
        }
        let mut beat = first;
        if self.skip_beat_within_slider() && last_seen.days_apart(first) < self.slider().before
            as u64 {
            proof {
                assert(search_span(*self) <= 62);
            }
            beat = match self.next_beat(first) {
                Some(b) => b,
                None => {
                    return None;
                },
            };
            proof {
                lemma_next_day_bounds(*self, first.day as int);
            }
        }
        let ghost goal = spec_starting(*self, start, last_seen);
        proof {
            assert(goal == spec_advance_until(*self, beat, start));
        }
        while beat.lt(&start)
            invariant
                wf_rhythm(*self),
                wf_dtod(start),
                spec_advance_until(*self, beat, start) == goal,
                goal == spec_starting(*self, start, last_seen),
                dtod_lt(beat, start) ==> -STEP_RANGE <= beat.day <= STEP_RANGE,
            decreases (if start.day + 1 - beat.day > 0 {
                start.day + 1 - beat.day
            } else {
                0
            }),
        {
            let ghost pre = beat;
            let nb = match self.next_beat(beat) {
                Some(b) => b,
                None => {
                    proof {
                        assert(spec_advance_until(*self, pre, start) is None);
                    }
                    return None;
                },
            };
            proof {
                lemma_next_day_bounds(*self, beat.day as int);
                assert(spec_advance_until(*self, pre, start) == spec_advance_until(
                    *self,
                    nb,
                    start,
                ));
            }
            beat = nb;
        }
        Some(beat)
    }
}


impl Daily {
    /// An owned copy of the rhythm.
    pub fn dup(&self) -> (r: Daily)
        ensures
            r == *self,
    {
        Daily { id: self.id.dup(), desc: self.desc.clone() }
    }
}

impl Monthly {
    /// An owned copy of the rhythm.
    pub fn dup(&self) -> (r: Monthly)
        ensures
            r == *self,
    {
        Monthly { id: self.id.dup(), desc: self.desc.clone(), dotm: self.dotm, slider: self.slider }
    }
}

impl WeekDaily {
    /// An owned copy of the rhythm.
    pub fn dup(&self) -> (r: WeekDaily)
        ensures
            r == *self,
    {
        WeekDaily {
            id: self.id.dup(),
            desc: self.desc.clone(),
            dotw: self.dotw,
            slider: self.slider,
        }
    }
}

impl EveryNDays {
    /// An owned copy of the rhythm.
    pub fn dup(&self) -> (r: EveryNDays)
        ensures
            r == *self,
    {
        EveryNDays {
            id: self.id.dup(),
            desc: self.desc.clone(),
            n: self.n,
            slider: self.slider,
        }
    }
}

impl Rhythm {
    /// An owned copy of the rhythm.
    pub fn dup(&self) -> (r: Rhythm)
        ensures
            r == *self,
    {
        match self {
            Rhythm::Daily(d) => Rhythm::Daily(d.dup()),
            Rhythm::Monthly(m) => Rhythm::Monthly(m.dup()),
            Rhythm::WeekDaily(w) => Rhythm::WeekDaily(w.dup()),
            Rhythm::EveryNDays(e) => Rhythm::EveryNDays(e.dup()),
        }
    }
}


/// Parses a canonical line, falling back to a marked error line when the
/// text does not parse.
pub fn unwrap_line_item(id: &ID, line_item: String) -> (r: crate::line_item::LineItem)
    ensures
        r.wf(),
{
    match crate::line_item::LineItem::new(line_item.as_str()) {
        Some(lr) => lr,
        None => error_line_item(id),
    }
}

/// The marked error line for a rhythm whose own line does not parse.
fn error_line_item(id: &ID) -> (r: crate::line_item::LineItem)
    ensures
        r.wf(),
{
    proof {
        reveal_strlit("id:");
        reveal_strlit("type:");
        reveal_strlit("status:");
        reveal_strlit("invalid line represntation");
    }
    let mut cmdw = crate::line_item::CommandWords::new();
    cmdw.insert("id:", id.text());
    cmdw.insert("type:", "error");
    cmdw.insert("status:", "invalid");
    let desc = match crate::line_item::Description::new(
        String::from_str("invalid line represntation"),
    ) {
        Some(d) => d,
        None => vstd::pervasive::unreached(),
    };
    crate::line_item::LineItem::from_parts(desc, cmdw)
}

/// The human-readable line of a rhythm: its description and its cadence in
/// words.
pub open spec fn human_line_text(r: Rhythm) -> Seq<char> {
    match r {
        Rhythm::Daily(d) => d.desc@ + " every day"@,
        Rhythm::Monthly(m) => m.desc@ + " every "@ + crate::strutil::dec_str(m.dotm as int)
            + " day of the month"@,
        Rhythm::WeekDaily(w) => w.desc@ + " every "@ + weekday_repr_text(w.dotw),
        Rhythm::EveryNDays(e) => e.desc@ + " every "@ + crate::strutil::dec_str(e.n as int)
            + " days"@,
    }
}

/// The binding a rhythm's stored line gives to each command key: its
/// identifier, its type name, its type-specific field and its slider, and
/// nothing else.
pub open spec fn line_item_binding(r: Rhythm, k: Seq<char>) -> Option<Seq<char>> {
    if k == "id:"@ {
        Some(r.spec_id())
    } else if k == "type:"@ {
        match r {
            Rhythm::Daily(_) => Some("daily"@),
            Rhythm::Monthly(_) => Some("monthly"@),
            Rhythm::WeekDaily(_) => Some("week-daily"@),
            Rhythm::EveryNDays(_) => Some("every-n-days"@),
        }
    } else if k == "dotm:"@ {
        match r {
            Rhythm::Monthly(m) => Some(dec_str(m.dotm as int)),
            _ => None,
        }
    } else if k == "dotw:"@ {
        match r {
            Rhythm::WeekDaily(w) => Some(weekday_repr_text(w.dotw)),
            _ => None,
        }
    } else if k == "n:"@ {
        match r {
            Rhythm::EveryNDays(e) => Some(dec_str(e.n as int)),
            _ => None,
        }
    } else if k == "slider:"@ {
        match r {
            Rhythm::Daily(_) => None,
            Rhythm::Monthly(m) => Some(slider_text(m.slider)),
            Rhythm::WeekDaily(w) => Some(slider_text(w.slider)),
            Rhythm::EveryNDays(e) => Some(slider_text(e.slider)),
        }
    } else {
        None
    }
}

/// The stored text of a slider.
pub open spec fn slider_text(s: Slider) -> Seq<char> {
    dec_str(s.before as int) + seq![','] + dec_str(s.after as int)
}

/// The description a rhythm carries.
pub open spec fn rhythm_desc(r: Rhythm) -> Seq<char> {
    match r {
        Rhythm::Daily(d) => d.desc@,
        Rhythm::Monthly(m) => m.desc@,
        Rhythm::WeekDaily(w) => w.desc@,
        Rhythm::EveryNDays(e) => e.desc@,
    }
}

impl Rhythm {
    /// The canonical stored line of the rhythm: its description, identifier,
    /// type, and type-specific fields, and nothing else.  A description that
    /// could not stand in a line is replaced by a marked error line.
    pub fn line_item(&self) -> (r: crate::line_item::LineItem)
        ensures
            r.wf(),
            r.spec_lookup("id:"@) == Some(self.spec_id()),
            crate::line_item::wf_desc(rhythm_desc(*self)) ==> {
                &&& r.spec_desc() == rhythm_desc(*self)
                &&& forall|k: Seq<char>| #[trigger] r.spec_lookup(k) == line_item_binding(*self, k)
            },
    {
        proof {
            reveal_strlit("id:");
            reveal_strlit("type:");
            reveal_strlit("dotm:");
            reveal_strlit("dotw:");
            reveal_strlit("n:");
            reveal_strlit("slider:");
            reveal_strlit("status:");
            reveal_strlit("invalid line represntation");
        }
        let mut cmdw = crate::line_item::CommandWords::new();
        let desc_text: String;
        match self {
            Rhythm::Daily(d) => {
                cmdw.insert("type:", "daily");
                cmdw.insert("id:", d.id.text());
                desc_text = d.desc.clone();
            },
            Rhythm::Monthly(m) => {
                cmdw.insert("type:", "monthly");
                cmdw.insert("id:", m.id.text());
                let mut dotm_text = String::new();
                crate::strutil::append_u64(&mut dotm_text, m.dotm as u64);
                cmdw.insert("dotm:", dotm_text.as_str());
                let slider_text = m.slider.repr();
                cmdw.insert("slider:", slider_text.as_str());
                desc_text = m.desc.clone();
            },
            Rhythm::WeekDaily(w) => {
                cmdw.insert("type:", "week-daily");
                cmdw.insert("id:", w.id.text());
                let dotw_text = w.dotw.repr();
                cmdw.insert("dotw:", dotw_text.as_str());
                let slider_text = w.slider.repr();
                cmdw.insert("slider:", slider_text.as_str());
                desc_text = w.desc.clone();
            },
            Rhythm::EveryNDays(e) => {
                cmdw.insert("type:", "every-n-days");
                cmdw.insert("id:", e.id.text());
                let mut n_text = String::new();
                crate::strutil::append_u64(&mut n_text, e.n as u64);
                cmdw.insert("n:", n_text.as_str());
                let slider_text = e.slider.repr();
                cmdw.insert("slider:", slider_text.as_str());
                desc_text = e.desc.clone();
            },
        }
        match crate::line_item::Description::new(desc_text) {
            Some(desc) => {
                let r = crate::line_item::LineItem::from_parts(desc, cmdw);
                proof {
                    assert("id:"@.len() == 3);
                    assert("type:"@.len() == 5);
                    assert("dotm:"@.len() == 5);
                    assert("dotw:"@.len() == 5);
                    assert("n:"@.len() == 2);
                    assert("slider:"@.len() == 7);
                    assert("type:"@[0] == 't');
                    assert("dotm:"@[0] == 'd');
                    assert("dotw:"@[3] == 'w');
                    assert("dotm:"@[3] == 'm');
                    if crate::line_item::wf_desc(rhythm_desc(*self)) {
                        assert forall|k: Seq<char>| true implies #[trigger] r.spec_lookup(k)
                            == line_item_binding(*self, k) by {}
                    }
                }
                r
            },
            None => {
                let fallback = error_line_item(&self.id());
                let mut item = fallback;
                item.insert("id:", self.id().text());
                item
            },
        }
    }

    /// The human-readable line of the rhythm.
    pub fn human_line(&self) -> (r: String)
        ensures
            r@ == human_line_text(*self),
    {
        proof {
            reveal_strlit(" every day");
            reveal_strlit(" every ");
            reveal_strlit(" day of the month");
            reveal_strlit(" days");
        }
        match self {
            Rhythm::Daily(d) => {
                let mut out = d.desc.clone();
                out.append(" every day");
                proof {
                    assert(out@ =~= d.desc@ + " every day"@);
                }
                out
            },
            Rhythm::Monthly(m) => {
                let mut out = m.desc.clone();
                out.append(" every ");
                crate::strutil::append_u64(&mut out, m.dotm as u64);
                out.append(" day of the month");
                proof {
                    assert(out@ =~= m.desc@ + " every "@ + crate::strutil::dec_str(m.dotm as int)
                        + " day of the month"@);
                }
                out
            },
            Rhythm::WeekDaily(w) => {
                let mut out = w.desc.clone();
                out.append(" every ");
                let dow = w.dotw.repr();
                out.append(dow.as_str());
                proof {
                    assert(out@ =~= w.desc@ + " every "@ + weekday_repr_text(w.dotw));
                }
                out
            },
            Rhythm::EveryNDays(e) => {
                let mut out = e.desc.clone();
                out.append(" every ");
                crate::strutil::append_u64(&mut out, e.n as u64);
                out.append(" days");
                proof {
                    assert(out@ =~= e.desc@ + " every "@ + crate::strutil::dec_str(e.n as int)
                        + " days"@);
                }
                out
            },
        }
    }
}


/// An every-N rhythm with a one-day period and the default slider steps,
/// tolerates, and seeds exactly as a daily rhythm does: the occurrence
/// stepping, the tolerance, the skip behaviour, and the starting occurrence
/// all coincide.
pub proof fn lemma_every_one_day_like_daily(
    e: EveryNDays,
    d: Daily,
    x: DateTimeOfDay,
    start: DateTimeOfDay,
    last_seen: DateTimeOfDay,
)
    requires
        e.n == 1,
        e.slider == (Slider { before: 0, after: 0 }),
    ensures
        spec_next_day(Rhythm::EveryNDays(e), x.day as int) == spec_next_day(
            Rhythm::Daily(d),
            x.day as int,
        ),
        spec_next_dtod(Rhythm::EveryNDays(e), x) == spec_next_dtod(Rhythm::Daily(d), x),
        spec_slider(Rhythm::EveryNDays(e)) == spec_slider(Rhythm::Daily(d)),
        spec_skip(Rhythm::EveryNDays(e)) == spec_skip(Rhythm::Daily(d)),
        spec_starting(Rhythm::EveryNDays(e), start, last_seen) == spec_starting(
            Rhythm::Daily(d),
            start,
            last_seen,
        ),
{
    lemma_advance_agrees(e, d, start, last_seen);
    match spec_next_dtod(Rhythm::EveryNDays(e), last_seen) {
        None => {},
        Some(b1) => {
            lemma_advance_agrees(e, d, start, b1);
        },
    }
}

proof fn lemma_advance_agrees(
    e: EveryNDays,
    d: Daily,
    start: DateTimeOfDay,
    b: DateTimeOfDay,
)
    requires
        e.n == 1,
        e.slider == (Slider { before: 0, after: 0 }),
    ensures
        spec_advance_until(Rhythm::EveryNDays(e), b, start) == spec_advance_until(
            Rhythm::Daily(d),
            b,
            start,
        ),
    decreases (if start.day + 1 - b.day > 0 {
        start.day + 1 - b.day
    } else {
        0
    }),
{
    if !dtod_lt(b, start) {
    } else {
        match spec_next_dtod(Rhythm::EveryNDays(e), b) {
            None => {},
            Some(nb) => {
                if nb.day <= b.day {
                } else {
                    lemma_advance_agrees(e, d, start, nb);
                }
            },
        }
    }
}

} // verus!




