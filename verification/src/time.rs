//! Dates and coarse times of day.
//!
//! A date is held as its day number in the proleptic Gregorian calendar, with
//! January 1 of year 1 being day 1.  All stepping and distance arithmetic is
//! plain integer arithmetic on that number; only the two civil views of a day
//! number (its year/month/day fields and its weekday) come from the `chrono`
//! crate, behind trusted wrappers.
use vstd::prelude::*;

use chrono::Datelike;

verus! {

/// Smallest day number a `DateTimeOfDay` may hold (January 1 of year 1).
pub const DAY_MIN: i64 = 1;
/// Largest day number a `DateTimeOfDay` may hold (December 31 of year 9999
/// lies below this).
pub const DAY_MAX: i64 = 3_660_000;
/// Day numbers within this bound (well inside chrono's supported range) may
/// be handed to the civil-view wrappers.
pub const CIVIL_RANGE: i64 = 10_000_000;

/// The year/month/day fields of a day number, per the proleptic Gregorian
/// calendar as `chrono` computes them.
pub uninterp spec fn civil_of_day(n: int) -> (int, int, int);

/// The weekday of a day number, as days from Monday (0 = Monday .. 6 =
/// Sunday), as `chrono` computes it.
pub uninterp spec fn weekday_of_day(n: int) -> int;

/// The day number of a year/month/day triple, per the proleptic Gregorian
/// calendar as `chrono` computes it.
pub uninterp spec fn day_of_civil(y: int, m: int, d: int) -> int;

/// Whether a year/month/day triple names a proleptic-Gregorian calendar
/// date, as `chrono::NaiveDate::from_ymd_opt` accepts it.
pub uninterp spec fn valid_civil(y: int, m: int, d: int) -> bool;

/// The day-of-month field of a day number.
pub open spec fn month_day_of(n: int) -> int {
    civil_of_day(n).2
}

/// Relies on `chrono::NaiveDate::from_num_days_from_ce_opt` (day 1 is
/// January 1 of year 1; in-range day numbers yield a date) and the `Datelike`
/// accessors `year`, `month` and `day`.
#[verifier::external_body]
pub fn civil_from_day(n: i64) -> (r: (i32, u32, u32))
    requires
        -CIVIL_RANGE <= n <= CIVIL_RANGE,
    ensures
        (r.0 as int, r.1 as int, r.2 as int) == civil_of_day(n as int),
        -262_144 <= r.0 <= 262_143,
        1 <= r.1 <= 12,
        1 <= r.2 <= 31,
        valid_civil(r.0 as int, r.1 as int, r.2 as int),
        day_of_civil(r.0 as int, r.1 as int, r.2 as int) == n as int,
{
    match chrono::NaiveDate::from_num_days_from_ce_opt(n as i32) {
        Some(date) => (date.year(), date.month(), date.day()),
        None => (0, 1, 1),
    }
}

/// Relies on `chrono::NaiveDate::from_num_days_from_ce_opt` and
/// `chrono::Weekday::num_days_from_monday`; successive days advance the
/// weekday cyclically.
#[verifier::external_body]
pub fn weekday_from_day(n: i64) -> (r: u32)
    requires
        -CIVIL_RANGE <= n <= CIVIL_RANGE,
    ensures
        r as int == weekday_of_day(n as int),
        r < 7,
        weekday_of_day(n as int + 1) == ((r as int) + 1) % 7,
{
    match chrono::NaiveDate::from_num_days_from_ce_opt(n as i32) {
        Some(date) => date.weekday().num_days_from_monday(),
        None => 0,
    }
}

/// Relies on `chrono::NaiveDate::from_ymd_opt` (`Some` exactly on a valid
/// calendar date) and `Datelike::num_days_from_ce`; the fields of the built
/// date are the fields given, a year-1..9999 date has a day number in
/// `[1, 3_660_000]` (at most 366 days per year).
#[verifier::external_body]
pub fn day_from_civil(y: i32, m: u32, d: u32) -> (r: Option<i64>)
    ensures
        r is Some <==> valid_civil(y as int, m as int, d as int),
        r matches Some(k) ==> {
            &&& k as int == day_of_civil(y as int, m as int, d as int)
            &&& civil_of_day(k as int) == (y as int, m as int, d as int)
            &&& (1 <= y ==> DAY_MIN <= k)
            &&& (y <= 9999 ==> k <= DAY_MAX)
        },
{
    match chrono::NaiveDate::from_ymd_opt(y, m, d) {
        Some(date) => Some(date.num_days_from_ce() as i64),
        None => None,
    }
}

/// TimeOfDay bucketizes the times of the day.
#[derive(Clone, Copy, Debug, PartialEq, Eq, Structural)]
pub enum TimeOfDay {
    NoPreference,
    Morning,
    Afternoon,
    Evening,
}

/// Rank of a bucket in the total order of the buckets.
pub open spec fn tod_rank(t: TimeOfDay) -> int {
    match t {
        TimeOfDay::NoPreference => 0,
        TimeOfDay::Morning => 1,
        TimeOfDay::Afternoon => 2,
        TimeOfDay::Evening => 3,
    }
}

impl TimeOfDay {
    /// The textual names accepted for each bucket.
    pub fn parse(s: &str) -> (r: Option<TimeOfDay>)
        ensures
            r == Some(TimeOfDay::NoPreference) <==> s@ == "nopref"@,
            r == Some(TimeOfDay::Morning) <==> s@ == "morning"@,
            r == Some(TimeOfDay::Afternoon) <==> s@ == "afternoon"@,
            r == Some(TimeOfDay::Evening) <==> s@ == "evening"@,
            r is None <==> (s@ != "nopref"@ && s@ != "morning"@ && s@ != "afternoon"@
                && s@ != "evening"@),
    {
        proof {
            reveal_strlit("nopref");
            reveal_strlit("morning");
            reveal_strlit("afternoon");
            reveal_strlit("evening");
            assert("nopref"@.len() == 6);
            assert("morning"@.len() == 7);
            assert("afternoon"@.len() == 9);
            assert("evening"@.len() == 7);
            assert("morning"@[0] == 'm');
            assert("evening"@[0] == 'e');
        }
        if crate::strutil::str_eq(s, "nopref") {
            Some(TimeOfDay::NoPreference)
        } else if crate::strutil::str_eq(s, "morning") {
            Some(TimeOfDay::Morning)
        } else if crate::strutil::str_eq(s, "afternoon") {
            Some(TimeOfDay::Afternoon)
        } else if crate::strutil::str_eq(s, "evening") {
            Some(TimeOfDay::Evening)
        } else {
            None
        }
    }

    /// Rank of this bucket, for ordering.
    pub fn rank(&self) -> (r: u8)
        ensures
            r as int == tod_rank(*self),
    {
        match self {
            TimeOfDay::NoPreference => 0,
            TimeOfDay::Morning => 1,
            TimeOfDay::Afternoon => 2,
            TimeOfDay::Evening => 3,
        }
    }

    /// The short display form of the bucket.
    pub fn repr(&self) -> (r: String)
        ensures
            self is NoPreference ==> r@ == "NP"@,
            self is Morning ==> r@ == "M"@,
            self is Afternoon ==> r@ == "A"@,
            self is Evening ==> r@ == "E"@,
    {
        match self {
            TimeOfDay::NoPreference => String::from_str("NP"),
            TimeOfDay::Morning => String::from_str("M"),
            TimeOfDay::Afternoon => String::from_str("A"),
            TimeOfDay::Evening => String::from_str("E"),
        }
    }

    /// The bucket of a wall-clock hour: before noon is morning, before five
    /// in the afternoon is afternoon, anything later is evening.
    pub fn of_hour(hour: u32) -> (r: TimeOfDay)
        ensures
            r == bucket_of_hour(hour as int),
    {
        if hour < 12 {
            TimeOfDay::Morning
        } else if hour < 17 {
            TimeOfDay::Afternoon
        } else {
            TimeOfDay::Evening
        }
    }
}

/// The time-of-day bucket a wall-clock hour falls in.
pub open spec fn bucket_of_hour(hour: int) -> TimeOfDay {
    if hour < 12 {
        TimeOfDay::Morning
    } else if hour < 17 {
        TimeOfDay::Afternoon
    } else {
        TimeOfDay::Evening
    }
}

impl Default for TimeOfDay {
    fn default() -> (r: TimeOfDay)
        ensures
            r == TimeOfDay::NoPreference,
    {
        TimeOfDay::NoPreference
    }
}

/// DateTimeOfDay represents the morning, afternoon, and evening on a
/// particular date, the date being held as a day number.
#[derive(Clone, Copy, Debug, PartialEq, Eq, Structural)]
pub struct DateTimeOfDay {
    pub day: i64,
    pub when: TimeOfDay,
}

/// The lexicographic order on (date, time-of-day bucket).
pub open spec fn dtod_lt(a: DateTimeOfDay, b: DateTimeOfDay) -> bool {
    a.day < b.day || (a.day == b.day && tod_rank(a.when) < tod_rank(b.when))
}

/// Non-strict form of `dtod_lt`.
pub open spec fn dtod_le(a: DateTimeOfDay, b: DateTimeOfDay) -> bool {
    dtod_lt(a, b) || a == b
}

/// A `DateTimeOfDay` whose day number lies in the supported range
/// (years 1 through 9999 lie within it).
pub open spec fn wf_dtod(d: DateTimeOfDay) -> bool {
    DAY_MIN <= d.day <= DAY_MAX
}

impl DateTimeOfDay {
    /// Build a value from civil fields; `None` exactly when the host calendar
    /// rejects the triple as an invalid date.
    pub fn from_ymd(year: i32, month: u32, day: u32, tod: TimeOfDay) -> (r: Option<DateTimeOfDay>)
        ensures
            r is Some <==> valid_civil(year as int, month as int, day as int),
            r matches Some(dt) ==> {
                &&& dt.day as int == day_of_civil(year as int, month as int, day as int)
                &&& civil_of_day(dt.day as int) == (year as int, month as int, day as int)
                &&& dt.when == tod
                &&& (1 <= year && year <= 9999 ==> wf_dtod(dt))
            },
    {
        match day_from_civil(year, month, day) {
            Some(n) => Some(DateTimeOfDay { day: n, when: tod }),
            None => None,
        }
    }

    /// The day-of-month field of the date.
    pub fn day(&self) -> (r: u32)
        requires
            -CIVIL_RANGE <= self.day <= CIVIL_RANGE,
        ensures
            r as int == month_day_of(self.day as int),
    {
        let (_, _, d) = civil_from_day(self.day);
        d
    }

    /// The same date with a different time-of-day bucket.
    pub fn with_different_time_of_day(&self, when: TimeOfDay) -> (r: DateTimeOfDay)
        ensures
            r.day == self.day,
            r.when == when,
    {
        DateTimeOfDay { day: self.day, when }
    }

    /// A different date with the same time-of-day bucket.
    pub fn with_different_date(&self, day: i64) -> (r: DateTimeOfDay)
        ensures
            r.day == day,
            r.when == self.when,
    {
        DateTimeOfDay { day, when: self.when }
    }

    /// Number of days between the two dates, ignoring the buckets.
    pub fn days_apart(&self, other: Self) -> (r: u64)
        requires
            -4_611_686_018_427_387_000 <= self.day <= 4_611_686_018_427_387_000,
            -4_611_686_018_427_387_000 <= other.day <= 4_611_686_018_427_387_000,
        ensures
            r as int == if self.day >= other.day {
                self.day - other.day
            } else {
                other.day - self.day
            },
    {
        let diff: i64 = self.day - other.day;
        if diff >= 0 {
            diff as u64
        } else {
            (-diff) as u64
        }
    }

    /// The previous day.
    pub fn prev_date(&self) -> (r: Self)
        requires
            self.day > i64::MIN,
        ensures
            r.day == self.day - 1,
            r.when == self.when,
    {
        DateTimeOfDay { day: self.day - 1, when: self.when }
    }

    /// The next day.
    pub fn succ_date(&self) -> (r: Self)
        requires
            self.day < i64::MAX,
        ensures
            r.day == self.day + 1,
            r.when == self.when,
    {
        DateTimeOfDay { day: self.day + 1, when: self.when }
    }

    /// The next bucket of the same day, rolling into the next day's
    /// no-preference bucket after the evening.
    pub fn succ_time_of_day(&self) -> (r: Self)
        requires
            self.day < i64::MAX,
        ensures
            self.when is Evening ==> r.day == self.day + 1 && r.when == TimeOfDay::NoPreference,
            !(self.when is Evening) ==> r.day == self.day && tod_rank(r.when) == tod_rank(
                self.when,
            ) + 1,
    {
        match self.when {
            TimeOfDay::Evening => DateTimeOfDay {
                day: self.day + 1,
                when: TimeOfDay::NoPreference,
            },
            TimeOfDay::NoPreference => DateTimeOfDay { day: self.day, when: TimeOfDay::Morning },
            TimeOfDay::Morning => DateTimeOfDay { day: self.day, when: TimeOfDay::Afternoon },
            TimeOfDay::Afternoon => DateTimeOfDay { day: self.day, when: TimeOfDay::Evening },
        }
    }

    /// Strict comparison in the (date, bucket) order.
    pub fn lt(&self, other: &Self) -> (r: bool)
        ensures
            r == dtod_lt(*self, *other),
    {
        self.day < other.day || (self.day == other.day && self.when.rank() < other.when.rank())
    }

    /// Non-strict comparison in the (date, bucket) order.
    pub fn le(&self, other: &Self) -> (r: bool)
        ensures
            r == dtod_le(*self, *other),
    {
        self.day < other.day || (self.day == other.day && self.when.rank() <= other.when.rank())
    }
}

/// The default date: the second of February of 2020 (or the calendar
/// origin, should the host calendar ever refuse that date).
pub open spec fn spec_default_dtod() -> DateTimeOfDay {
    DateTimeOfDay {
        day: (if valid_civil(2020, 2, 2) {
            day_of_civil(2020, 2, 2)
        } else {
            DAY_MIN as int
        }) as i64,
        when: TimeOfDay::NoPreference,
    }
}

impl Default for DateTimeOfDay {
    fn default() -> (r: Self)
        ensures
            wf_dtod(r),
            r == spec_default_dtod(),
    {
        match DateTimeOfDay::from_ymd(2020, 2, 2, TimeOfDay::NoPreference) {
            Some(dt) => dt,
            None => DateTimeOfDay { day: DAY_MIN, when: TimeOfDay::NoPreference },
        }
    }
}


/// The canonical text of a date: the year to at least four digits (a minus
/// sign first for years before 1), then zero-padded month and day.
pub open spec fn date_repr(n: int) -> Seq<char> {
    let y = civil_of_day(n).0;
    let m = civil_of_day(n).1;
    let d = civil_of_day(n).2;
    let ypart = if y < 0 {
        seq!['-'] + crate::strutil::dec_str_pad(-y, 4)
    } else {
        crate::strutil::dec_str_pad(y, 4)
    };
    ypart + seq!['-'] + crate::strutil::dec_str_pad(m, 2) + seq!['-'] + crate::strutil::dec_str_pad(
        d,
        2,
    )
}

/// The short code of a time-of-day bucket.
pub open spec fn tod_repr(t: TimeOfDay) -> Seq<char> {
    match t {
        TimeOfDay::NoPreference => seq!['N', 'P'],
        TimeOfDay::Morning => seq!['M'],
        TimeOfDay::Afternoon => seq!['A'],
        TimeOfDay::Evening => seq!['E'],
    }
}

/// The canonical text of a date and bucket, `date:bucket`.
pub open spec fn dtod_repr(d: DateTimeOfDay) -> Seq<char> {
    date_repr(d.day as int) + seq![':'] + tod_repr(d.when)
}

impl DateTimeOfDay {
    /// The canonical text of this value.  For a date in years 1 through
    /// 9999 the text has the parseable `YYYY-MM-DD:` shape and reads back as
    /// the same date (with no time-of-day preference, since the short
    /// bucket codes are not in the parser's vocabulary).
    pub fn repr(&self) -> (r: String)
        requires
            -CIVIL_RANGE <= self.day <= CIVIL_RANGE,
        ensures
            r@ == dtod_repr(*self),
            1 <= civil_of_day(self.day as int).0 <= 9999 ==> {
                &&& r@.len() >= 11
                &&& parse_ymd_shape(r@)
                &&& parse_year(r@) == civil_of_day(self.day as int).0
                &&& parse_month(r@) == civil_of_day(self.day as int).1
                &&& parse_dom(r@) == civil_of_day(self.day as int).2
                &&& valid_civil(
                    civil_of_day(self.day as int).0,
                    civil_of_day(self.day as int).1,
                    civil_of_day(self.day as int).2,
                )
                &&& day_of_civil(
                    civil_of_day(self.day as int).0,
                    civil_of_day(self.day as int).1,
                    civil_of_day(self.day as int).2,
                ) == self.day as int
                &&& parse_tod(r@) == TimeOfDay::NoPreference
            },
    {
        let (y, m, d) = civil_from_day(self.day);
        let mut out = String::new();
        if y < 0 {
            out.append("-");
            proof {
                reveal_strlit("-");
                assert(out@ =~= seq!['-']);
            }
            crate::strutil::append_u64_pad(&mut out, (-(y as i64)) as u64, 4);
        } else {
            crate::strutil::append_u64_pad(&mut out, y as u64, 4);
        }
        out.append("-");
        crate::strutil::append_u64_pad(&mut out, m as u64, 2);
        out.append("-");
        crate::strutil::append_u64_pad(&mut out, d as u64, 2);
        out.append(":");
        let t = self.when.repr();
        out.append(t.as_str());
        proof {
            reveal_strlit("-");
            reveal_strlit(":");
            reveal_strlit("NP");
            reveal_strlit("M");
            reveal_strlit("A");
            reveal_strlit("E");
            assert(t@ == tod_repr(self.when));
            assert(out@ =~= dtod_repr(*self));
            if 1 <= civil_of_day(self.day as int).0 <= 9999 {
                let yv = civil_of_day(self.day as int).0;
                let mv = civil_of_day(self.day as int).1;
                let dv = civil_of_day(self.day as int).2;
                crate::util::lemma_dec_str_pad_value(yv, 4);
                crate::util::lemma_dec_str_pad_value(mv, 2);
                crate::util::lemma_dec_str_pad_value(dv, 2);
                let ypart = crate::strutil::dec_str_pad(yv, 4);
                let mpart = crate::strutil::dec_str_pad(mv, 2);
                let dpart = crate::strutil::dec_str_pad(dv, 2);
                assert(out@ =~= ypart + seq!['-'] + mpart + seq!['-'] + dpart + seq![':']
                    + tod_repr(self.when));
                assert(out@.len() == 11 + tod_repr(self.when).len());
                assert(forall|j: int| 0 <= j < 4 ==> out@[j] == ypart[j]);
                assert(out@[4] == '-');
                assert(forall|j: int| 5 <= j < 7 ==> out@[j] == mpart[j - 5]);
                assert(out@[7] == '-');
                assert(forall|j: int| 8 <= j < 10 ==> out@[j] == dpart[j - 8]);
                assert(out@[10] == ':');
                assert(out@.subrange(0, 4) =~= ypart);
                assert(out@.subrange(5, 7) =~= mpart);
                assert(out@.subrange(8, 10) =~= dpart);
                assert(parse_year(out@) == yv);
                assert(parse_month(out@) == mv);
                assert(parse_dom(out@) == dv);
                assert(parse_ymd_shape(out@));
                let rest = out@.skip(11);
                assert(rest =~= tod_repr(self.when));
                reveal_strlit("morning");
                reveal_strlit("afternoon");
                reveal_strlit("evening");
                assert("morning"@.len() == 7);
                assert("afternoon"@.len() == 9);
                assert("evening"@.len() == 7);
                assert(rest.len() <= 2);
                assert(parse_tod(out@) == TimeOfDay::NoPreference);
            }
        }
        out
    }

    /// Parses `YYYY-MM-DD:` followed by an optional bucket name; an
    /// unrecognized or missing bucket name means no preference.  The date
    /// must be a valid calendar date.
    pub fn parse(from: &str) -> (r: Result<DateTimeOfDay, String>)
        ensures
            r is Ok <==> (from@.len() >= 11 && parse_ymd_shape(from@) && valid_civil(
                parse_year(from@),
                parse_month(from@),
                parse_dom(from@),
            )),
            r matches Ok(dt) ==> {
                &&& dt.day as int == day_of_civil(
                    parse_year(from@),
                    parse_month(from@),
                    parse_dom(from@),
                )
                &&& civil_of_day(dt.day as int) == (parse_year(from@), parse_month(from@), parse_dom(from@))
                &&& dt.when == parse_tod(from@)
            },
    {
        let len = from.unicode_len();
        if len < 11 {
            return Err(String::from_str("expected a date of the form YYYY-MM-DD:"));
        }
        let mut ok = true;
        let mut year: u64 = 0;
        let mut month: u64 = 0;
        let mut dom: u64 = 0;
        let mut i: usize = 0;
        while i < 4
            invariant
                0 <= i <= 4,
                len == from@.len(),
                len >= 11,
                ok ==> forall|j: int| 0 <= j < i ==> crate::util::is_digit(from@[j]),
                ok ==> year == crate::util::digits_value(from@.subrange(0, i as int)),
                ok ==> year < (if i == 0 {
                    1int
                } else if i == 1 {
                    10
                } else if i == 2 {
                    100
                } else if i == 3 {
                    1000
                } else {
                    10000
                }),
                !ok ==> !parse_ymd_shape(from@),
            decreases 4 - i,
        {
            let c = from.get_char(i);
            if '0' <= c && c <= '9' {
                if ok {
                    proof {
                        assert(from@.subrange(0, i as int + 1).drop_last() =~= from@.subrange(
                            0,
                            i as int,
                        ));
                        assert(from@.subrange(0, i as int + 1).last() == from@[i as int]);
                    }
                    year = year * 10 + ((c as u32 - 48) as u64);
                }
            } else {
                proof {
                    assert(!crate::util::is_digit(from@[i as int]));
                }
                ok = false;
            }
            i = i + 1;
        }
        let mut i: usize = 5;
        while i < 7
            invariant
                5 <= i <= 7,
                len == from@.len(),
                len >= 11,
                ok ==> forall|j: int| 0 <= j < 4 ==> crate::util::is_digit(from@[j]),
                ok ==> year == crate::util::digits_value(from@.subrange(0, 4)),
                ok ==> year < 10000,
                ok ==> forall|j: int| 5 <= j < i ==> crate::util::is_digit(from@[j]),
                ok ==> month == crate::util::digits_value(from@.subrange(5, i as int)),
                ok ==> month < (if i == 5 {
                    1int
                } else if i == 6 {
                    10
                } else {
                    100
                }),
                !ok ==> !parse_ymd_shape(from@),
            decreases 7 - i,
        {
            let c = from.get_char(i);
            if '0' <= c && c <= '9' {
                if ok {
                    proof {
                        assert(from@.subrange(5, i as int + 1).drop_last() =~= from@.subrange(
                            5,
                            i as int,
                        ));
                        assert(from@.subrange(5, i as int + 1).last() == from@[i as int]);
                    }
                    month = month * 10 + ((c as u32 - 48) as u64);
                }
            } else {
                proof {
                    assert(!crate::util::is_digit(from@[i as int]));
                }
                ok = false;
            }
            i = i + 1;
        }
        let mut i: usize = 8;
        while i < 10
            invariant
                8 <= i <= 10,
                len == from@.len(),
                len >= 11,
                ok ==> forall|j: int| 0 <= j < 4 ==> crate::util::is_digit(from@[j]),
                ok ==> year == crate::util::digits_value(from@.subrange(0, 4)),
                ok ==> year < 10000,
                ok ==> forall|j: int| 5 <= j < 7 ==> crate::util::is_digit(from@[j]),
                ok ==> month == crate::util::digits_value(from@.subrange(5, 7)),
                ok ==> month < 100,
                ok ==> forall|j: int| 8 <= j < i ==> crate::util::is_digit(from@[j]),
                ok ==> dom == crate::util::digits_value(from@.subrange(8, i as int)),
                ok ==> dom < (if i == 8 {
                    1int
                } else if i == 9 {
                    10
                } else {
                    100
                }),
                !ok ==> !parse_ymd_shape(from@),
            decreases 10 - i,
        {
            let c = from.get_char(i);
            if '0' <= c && c <= '9' {
                if ok {
                    proof {
                        assert(from@.subrange(8, i as int + 1).drop_last() =~= from@.subrange(
                            8,
                            i as int,
                        ));
                        assert(from@.subrange(8, i as int + 1).last() == from@[i as int]);
                    }
                    dom = dom * 10 + ((c as u32 - 48) as u64);
                }
            } else {
                proof {
                    assert(!crate::util::is_digit(from@[i as int]));
                }
                ok = false;
            }
            i = i + 1;
        }
        if !ok || from.get_char(4) != '-' || from.get_char(7) != '-' || from.get_char(10) != ':' {
            return Err(String::from_str("expected a date of the form YYYY-MM-DD:"));
        }
        let rest = from.substring_char(11, len);
        let when = match TimeOfDay::parse(rest) {
            Some(x) => x,
            None => TimeOfDay::NoPreference,
        };
        proof {
            assert(from@.subrange(0, 4) =~= from@.take(4));
            assert(from@.subrange(5, 7) =~= from@.subrange(5, 7));
            assert(rest@ =~= from@.skip(11));
            assert(parse_ymd_shape(from@));
        }
        match day_from_civil(year as i32, month as u32, dom as u32) {
            Some(n) => Ok(DateTimeOfDay { day: n, when }),
            None => Err(String::from_str("no such calendar date")),
        }
    }
}

/// Whether the first eleven characters have the shape `YYYY-MM-DD:`.
pub open spec fn parse_ymd_shape(s: Seq<char>) -> bool {
    &&& s.len() >= 11
    &&& forall|j: int| 0 <= j < 4 ==> crate::util::is_digit(s[j])
    &&& s[4] == '-'
    &&& forall|j: int| 5 <= j < 7 ==> crate::util::is_digit(s[j])
    &&& s[7] == '-'
    &&& forall|j: int| 8 <= j < 10 ==> crate::util::is_digit(s[j])
    &&& s[10] == ':'
}

/// The year field of a `YYYY-MM-DD:` prefix.
pub open spec fn parse_year(s: Seq<char>) -> int {
    crate::util::digits_value(s.subrange(0, 4))
}

/// The month field of a `YYYY-MM-DD:` prefix.
pub open spec fn parse_month(s: Seq<char>) -> int {
    crate::util::digits_value(s.subrange(5, 7))
}

/// The day-of-month field of a `YYYY-MM-DD:` prefix.
pub open spec fn parse_dom(s: Seq<char>) -> int {
    crate::util::digits_value(s.subrange(8, 10))
}

/// The bucket named after the colon; anything unrecognized means no
/// preference.
pub open spec fn parse_tod(s: Seq<char>) -> TimeOfDay {
    if s.skip(11) == "morning"@ {
        TimeOfDay::Morning
    } else if s.skip(11) == "afternoon"@ {
        TimeOfDay::Afternoon
    } else if s.skip(11) == "evening"@ {
        TimeOfDay::Evening
    } else {
        TimeOfDay::NoPreference
    }
}

} // verus!

