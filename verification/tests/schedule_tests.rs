use cadence::Cadence;
use cadence::DateTimeOfDay;
use cadence::Events;
use cadence::Rhythms;
use cadence::TimeOfDay;
use cadence::line_item::LineItem;
use cadence::reporting::smooth_schedule::Schedule;

fn date(y: i32, m: u32, d: u32) -> DateTimeOfDay {
    DateTimeOfDay::from_ymd(y, m, d, TimeOfDay::NoPreference).unwrap()
}

fn cadence_of(lines: &[&str]) -> Cadence {
    let mut rhythms = Rhythms::new();
    for line in lines {
        rhythms.add_line_item(&LineItem::new(line).unwrap()).unwrap();
    }
    Cadence::new(rhythms, Events::new())
}

#[test]
fn one_daily_three_days() {
    // one inflexible daily over a three-day window: one assignment per day,
    // in date order
    let cadence = cadence_of(&["type:daily id:abcd1234 wash dishes"]);
    let start = date(2021, 9, 10);
    let limit = date(2021, 9, 14);
    let sched = Schedule::new(&cadence, start, limit).unwrap();
    let events = sched.plumbing();
    assert_eq!(events.len(), 3);
    assert_eq!(events[0].when, date(2021, 9, 11));
    assert_eq!(events[1].when, date(2021, 9, 12));
    assert_eq!(events[2].when, date(2021, 9, 13));
}

#[test]
fn three_monthlies_displace() {
    // three monthlies contending for the 18th under the default capacity of
    // one: the 18th holds one, the others land on the 17th and the 16th
    let cadence = cadence_of(&[
        "type:monthly id:aaaa1111 dotm:18 slider:2,1 first",
        "type:monthly id:bbbb2222 dotm:18 slider:2,1 second",
        "type:monthly id:cccc3333 dotm:18 slider:2,1 third",
    ]);
    let start = date(2021, 9, 10);
    let limit = date(2021, 9, 25);
    let sched = Schedule::new(&cadence, start, limit).unwrap();
    let events = sched.plumbing();
    assert_eq!(events.len(), 3);
    assert_eq!(events[0].when, date(2021, 9, 16));
    assert_eq!(events[1].when, date(2021, 9, 17));
    assert_eq!(events[2].when, date(2021, 9, 18));
}

#[test]
fn every_one_day_matches_daily() {
    // an every-1-days rhythm with the default slider fills a window exactly
    // as a daily does
    let daily = cadence_of(&["type:daily id:abcd1234 wash dishes"]);
    let every = cadence_of(&["type:every-n-days id:abcd1234 n:1 wash dishes"]);
    let start = date(2021, 9, 10);
    let limit = date(2021, 9, 17);
    let daily_sched = Schedule::new(&daily, start, limit).unwrap().plumbing();
    let every_sched = Schedule::new(&every, start, limit).unwrap().plumbing();
    assert_eq!(daily_sched.len(), every_sched.len());
    for k in 0..daily_sched.len() {
        assert_eq!(daily_sched[k].when, every_sched[k].when);
    }
}

#[test]
fn empty_window_is_invalid() {
    let cadence = cadence_of(&["type:daily id:abcd1234 wash dishes"]);
    let start = date(2021, 9, 10);
    let got = Schedule::new(&cadence, start, start);
    assert!(matches!(got, Err(cadence::Error::InvalidWindow)));
    let backwards = Schedule::new(&cadence, date(2021, 9, 11), start);
    assert!(matches!(backwards, Err(cadence::Error::InvalidWindow)));
}

#[test]
fn identical_runs_agree() {
    // two allocation runs over identical inputs produce identical
    // structured output
    let lines = [
        "type:daily id:abcd1234 wash dishes",
        "type:monthly id:aaaa1111 dotm:12 slider:2,1 pay rent",
        "type:week-daily id:bbbb2222 dotw:mon slider:1,1 take out trash",
        "type:every-n-days id:cccc3333 n:3 slider:1,2 water plants",
    ];
    let one = Schedule::new(&cadence_of(&lines), date(2021, 9, 10), date(2021, 9, 24)).unwrap();
    let two = Schedule::new(&cadence_of(&lines), date(2021, 9, 10), date(2021, 9, 24)).unwrap();
    let a = one.plumbing();
    let b = two.plumbing();
    assert_eq!(a.len(), b.len());
    for k in 0..a.len() {
        assert_eq!(a[k].when, b[k].when);
        assert_eq!(a[k].item.repr(), b[k].item.repr());
    }
}

#[test]
fn weekday_rhythm_lands_on_weekday() {
    // September 16, 2021 is a Thursday
    let cadence = cadence_of(&["type:week-daily id:abcd1234 dotw:thu laundry"]);
    let start = date(2021, 9, 10);
    let limit = date(2021, 9, 20);
    let events = Schedule::new(&cadence, start, limit).unwrap().plumbing();
    assert_eq!(events.len(), 1);
    assert_eq!(events[0].when, date(2021, 9, 16));
}

#[test]
fn history_advances_start() {
    // a completion on the 12th pushes the next every-3-days occurrence to
    // the 15th
    let mut rhythms = Rhythms::new();
    rhythms
        .add_line_item(&LineItem::new("type:every-n-days id:abcd1234 n:3 water plants").unwrap())
        .unwrap();
    let mut events = Events::new();
    events
        .add_line_item(&LineItem::new("id:abcd1234 when:2021-09-12:NP water plants").unwrap())
        .unwrap();
    let cadence = Cadence::new(rhythms, events);
    let sched = Schedule::new(&cadence, date(2021, 9, 10), date(2021, 9, 17)).unwrap();
    let got = sched.plumbing();
    assert_eq!(got.len(), 1);
    assert_eq!(got[0].when, date(2021, 9, 15));
}

#[test]
fn porcelain_mentions_dates() {
    let cadence = cadence_of(&["type:daily id:abcd1234 wash dishes"]);
    let sched = Schedule::new(&cadence, date(2021, 9, 10), date(2021, 9, 13)).unwrap();
    let lines = sched.porcelain();
    assert_eq!(lines.len(), 2);
    assert_eq!(lines[0], "wash dishes every day @ 2021-09-11:NP");
    assert_eq!(lines[1], "wash dishes every day @ 2021-09-12:NP");
}

#[test]
fn plumbing_records_when() {
    let cadence = cadence_of(&["type:daily id:abcd1234 wash dishes"]);
    let sched = Schedule::new(&cadence, date(2021, 9, 10), date(2021, 9, 13)).unwrap();
    let events = sched.plumbing();
    assert_eq!(events[0].item.lookup("when:"), Some("2021-09-11:NP"));
    assert_eq!(events[0].item.lookup("type:"), Some("daily"));
    assert_eq!(events[0].id.repr(), "id:abcd1234");
}

#[test]
fn relaxation_fits_two_dailies() {
    // two inflexible dailies contend for every day; the capacity table is
    // raised once and both fit on each day
    let cadence = cadence_of(&[
        "type:daily id:abcd1234 wash dishes",
        "type:daily id:efgh5678 feed cat",
    ]);
    let sched = Schedule::new(&cadence, date(2021, 9, 10), date(2021, 9, 13)).unwrap();
    let events = sched.plumbing();
    assert_eq!(events.len(), 4);
    assert_eq!(events[0].when, date(2021, 9, 11));
    assert_eq!(events[1].when, date(2021, 9, 11));
    assert_eq!(events[2].when, date(2021, 9, 12));
    assert_eq!(events[3].when, date(2021, 9, 12));
}

#[test]
fn monthly_skips_within_tolerance() {
    // a monthly completed early (on the 16th for the 18th) does not get the
    // same occurrence offered again: the gap from the completion to the
    // next 18th is below the backward tolerance, so it advances a month
    let mut rhythms = Rhythms::new();
    rhythms
        .add_line_item(
            &LineItem::new("type:monthly id:abcd1234 dotm:18 slider:2,1 pay rent").unwrap(),
        )
        .unwrap();
    let mut events = Events::new();
    events
        .add_line_item(&LineItem::new("id:abcd1234 when:2021-09-17:NP pay rent").unwrap())
        .unwrap();
    let cadence = Cadence::new(rhythms, events);
    let sched = Schedule::new(&cadence, date(2021, 9, 10), date(2021, 10, 25)).unwrap();
    let events = sched.plumbing();
    assert_eq!(events.len(), 1);
    assert_eq!(events[0].when, date(2021, 10, 18));
}

#[test]
fn every_seeded_rule_is_scheduled() {
    // no in-window rule is dropped: each of the four kinds appears in the
    // structured readout
    let lines = [
        "type:daily id:abcd1234 wash dishes",
        "type:monthly id:aaaa1111 dotm:12 slider:2,1 pay rent",
        "type:week-daily id:bbbb2222 dotw:mon slider:1,1 take out trash",
        "type:every-n-days id:cccc3333 n:3 slider:1,2 water plants",
    ];
    let sched = Schedule::new(&cadence_of(&lines), date(2021, 9, 10), date(2021, 9, 24)).unwrap();
    let events = sched.plumbing();
    for id in ["id:abcd1234", "id:aaaa1111", "id:bbbb2222", "id:cccc3333"] {
        assert!(events.iter().any(|e| e.id.repr() == id));
    }
}

#[test]
fn rules_checker_matches_engine_domain() {
    let mut rhythms = Rhythms::new();
    rhythms
        .add_line_item(&LineItem::new("type:every-n-days id:abcd1234 n:1 water plants").unwrap())
        .unwrap();
    assert!(cadence::reporting::smooth_schedule::rules_ok(&rhythms));
    let mut bad = Rhythms::new();
    // a period that does not outrun its own backward tolerance
    bad.add_line_item(
        &LineItem::new("type:every-n-days id:abcd1234 n:1 slider:5,0 water plants").unwrap(),
    )
    .unwrap();
    assert!(!cadence::reporting::smooth_schedule::rules_ok(&bad));
}
