use cadence::Cadence;
use cadence::DateTimeOfDay;
use cadence::Events;
use cadence::Rhythms;
use cadence::TimeOfDay;
use cadence::line_item::LineItem;
use cadence::reporting::FileSchedule;
use cadence::reporting::basic_schedule;
use cadence::reporting::health_check::health_check;
use cadence::reporting::schedule_convergence::convergence;

fn date(y: i32, m: u32, d: u32) -> DateTimeOfDay {
    DateTimeOfDay::from_ymd(y, m, d, TimeOfDay::NoPreference).unwrap()
}

#[test]
fn basic_schedule_lists_every_occurrence() {
    let mut rhythms = Rhythms::new();
    rhythms.add_line_item(&LineItem::new("type:daily id:abcd1234 wash dishes").unwrap()).unwrap();
    rhythms.add_line_item(&LineItem::new("type:daily id:efgh5678 feed cat").unwrap()).unwrap();
    let cadence = Cadence::new(rhythms, Events::new());
    let sched = basic_schedule::Schedule::new(&cadence, date(2021, 9, 10), date(2021, 9, 14)).unwrap();
    let events = sched.plumbing();
    assert_eq!(events.len(), 6);
    assert_eq!(events[0].when, date(2021, 9, 11));
    assert_eq!(events[5].when, date(2021, 9, 13));
    let lines = sched.porcelain();
    assert_eq!(lines.len(), 6);
}

#[test]
fn basic_schedule_rejects_empty_window() {
    let cadence = Cadence::new(Rhythms::new(), Events::new());
    let got = basic_schedule::Schedule::new(&cadence, date(2021, 9, 10), date(2021, 9, 10));
    assert!(matches!(got, Err(cadence::Error::InvalidWindow)));
}

#[test]
fn file_schedule_sorts_by_when() {
    let mut events = Events::new();
    events.add_line_item(&LineItem::new("id:abcd1234 when:2021-08-24:morning walk dog").unwrap()).unwrap();
    events.add_line_item(&LineItem::new("id:efgh5678 when:2021-08-20:evening feed cat").unwrap()).unwrap();
    let fs = FileSchedule::new(events.iter());
    let sorted = fs.plumbing();
    assert_eq!(sorted.len(), 2);
    assert!(sorted[0].when.le(&sorted[1].when));
    let lines = fs.porcelain();
    assert_eq!(lines[0], "id:efgh5678 when:2021-08-20:E feed cat");
}

#[test]
fn health_check_counts_delay_and_never() {
    let mut rhythms = Rhythms::new();
    rhythms.add_line_item(&LineItem::new("type:daily id:abcd1234 wash dishes").unwrap()).unwrap();
    rhythms.add_line_item(&LineItem::new("type:daily id:efgh5678 feed cat").unwrap()).unwrap();
    let mut events = Events::new();
    events
        .add_line_item(&LineItem::new("id:abcd1234 when:2021-09-10:NP wash dishes").unwrap())
        .unwrap();
    let cadence = Cadence::new(rhythms, events);
    let score = health_check(&cadence, date(2021, 9, 14));
    // the daily was last done on the 10th; its next occurrence on the 11th
    // trails the boundary by three days
    assert_eq!(score.value, 3);
    assert_eq!(score.never, 1);
    assert_eq!(score.repr(), "delay: 3, never done: 1");
}

#[test]
fn convergence_tracks_new_rhythms() {
    let mut rhythms = Rhythms::new();
    rhythms.add_line_item(&LineItem::new("type:daily id:abcd1234 wash dishes").unwrap()).unwrap();
    let cadence = Cadence::new(rhythms, Events::new());
    let sched = cadence::reporting::smooth_schedule::Schedule::new(
        &cadence,
        date(2021, 9, 10),
        date(2021, 9, 13),
    )
    .unwrap()
    .plumbing();
    let horizon = convergence(&cadence, &sched, date(2021, 9, 12));
    // the first scheduled occurrence of the never-done daily sets the horizon
    assert_eq!(horizon, date(2021, 9, 11));
}
