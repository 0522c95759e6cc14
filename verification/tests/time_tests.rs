use cadence::DateTimeOfDay;
use cadence::TimeOfDay;

#[test]
fn parse_round_trip() {
    let dt = DateTimeOfDay::parse("2021-08-24:morning").unwrap();
    assert_eq!(dt.repr(), "2021-08-24:M");
    let np = DateTimeOfDay::parse("2021-08-24:").unwrap();
    assert_eq!(np.repr(), "2021-08-24:NP");
}

#[test]
fn parse_rejects_bad_shapes() {
    assert!(DateTimeOfDay::parse("2021/08/24:").is_err());
    assert!(DateTimeOfDay::parse("2021-13-24:").is_err());
    assert!(DateTimeOfDay::parse("2021-02-30:").is_err());
    assert!(DateTimeOfDay::parse("21-08-24:XX").is_err());
}

#[test]
fn from_ymd_matches_calendar() {
    // a leap day exists in 2020 but not in 2021
    assert!(DateTimeOfDay::from_ymd(2020, 2, 29, TimeOfDay::NoPreference).is_some());
    assert!(DateTimeOfDay::from_ymd(2021, 2, 29, TimeOfDay::NoPreference).is_none());
}

#[test]
fn date_ordering() {
    let a = DateTimeOfDay::from_ymd(2021, 8, 24, TimeOfDay::Morning).unwrap();
    let b = DateTimeOfDay::from_ymd(2021, 8, 24, TimeOfDay::Evening).unwrap();
    let c = DateTimeOfDay::from_ymd(2021, 8, 25, TimeOfDay::NoPreference).unwrap();
    assert!(a.lt(&b));
    assert!(b.lt(&c));
    assert!(!c.lt(&a));
}

#[test]
fn day_stepping() {
    let a = DateTimeOfDay::from_ymd(2021, 8, 31, TimeOfDay::NoPreference).unwrap();
    let b = DateTimeOfDay::from_ymd(2021, 9, 1, TimeOfDay::NoPreference).unwrap();
    assert_eq!(a.succ_date(), b);
    assert_eq!(b.prev_date(), a);
    assert_eq!(a.days_apart(b), 1);
    assert_eq!(a.day(), 31);
}

#[test]
fn succ_time_of_day_rolls_over() {
    let e = DateTimeOfDay::from_ymd(2021, 8, 24, TimeOfDay::Evening).unwrap();
    let next = e.succ_time_of_day();
    assert_eq!(next.when, TimeOfDay::NoPreference);
    assert_eq!(next.day, e.day + 1);
    let m = DateTimeOfDay::from_ymd(2021, 8, 24, TimeOfDay::Morning).unwrap();
    assert_eq!(m.succ_time_of_day().when, TimeOfDay::Afternoon);
}

#[test]
fn tod_parse_names() {
    assert_eq!(TimeOfDay::parse("nopref"), Some(TimeOfDay::NoPreference));
    assert_eq!(TimeOfDay::parse("morning"), Some(TimeOfDay::Morning));
    assert_eq!(TimeOfDay::parse("afternoon"), Some(TimeOfDay::Afternoon));
    assert_eq!(TimeOfDay::parse("evening"), Some(TimeOfDay::Evening));
    assert_eq!(TimeOfDay::parse("noon"), None);
}

#[test]
fn repr_then_parse_recovers_date() {
    let d = DateTimeOfDay::from_ymd(2021, 8, 24, TimeOfDay::Evening).unwrap();
    let back = DateTimeOfDay::parse(&d.repr()).unwrap();
    assert_eq!(back.day, d.day);
    // the short bucket codes are not in the parser's vocabulary
    assert_eq!(back.when, TimeOfDay::NoPreference);
}
