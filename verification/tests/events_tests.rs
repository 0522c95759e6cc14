use cadence::DateTimeOfDay;
use cadence::Events;
use cadence::TimeOfDay;
use cadence::line_item::LineItem;

fn ev_line(text: &str) -> LineItem {
    LineItem::new(text).unwrap()
}

#[test]
fn core_bad_id() {
    let mut events = Events::new();
    let got = events.add_line_item(&ev_line("id:X when:2021-08-24:morning too short"));
    assert!(got.is_err());
    assert_eq!(events.len(), 0);
}

#[test]
fn core_missing_id() {
    let mut events = Events::new();
    let got = events.add_line_item(&ev_line("when:2021-08-24:morning no id here"));
    assert!(got.is_err());
    assert_eq!(events.len(), 0);
}

#[test]
fn bad_when() {
    let mut events = Events::new();
    let got = events.add_line_item(&ev_line("id:abcd1234 when:notadate walk dog"));
    assert!(got.is_err());
    assert_eq!(events.len(), 0);
}

#[test]
fn missing_when() {
    let mut events = Events::new();
    let got = events.add_line_item(&ev_line("id:abcd1234 walk dog"));
    assert!(got.is_err());
    assert_eq!(events.len(), 0);
}

#[test]
fn earliest_event_overall() {
    let mut events = Events::new();
    events.add_line_item(&ev_line("id:abcd1234 when:2021-08-24:morning walk dog")).unwrap();
    events.add_line_item(&ev_line("id:efgh5678 when:2021-08-20:evening feed cat")).unwrap();
    let earliest = events.earliest_event_overall().unwrap();
    let exp = DateTimeOfDay::from_ymd(2021, 8, 20, TimeOfDay::Evening).unwrap();
    assert_eq!(earliest.when, exp);
}

#[test]
fn earliest_event_overall_empty() {
    let events = Events::new();
    assert!(events.earliest_event_overall().is_none());
}

#[test]
fn latest_event_overall() {
    let mut events = Events::new();
    events.add_line_item(&ev_line("id:abcd1234 when:2021-08-24:morning walk dog")).unwrap();
    events.add_line_item(&ev_line("id:efgh5678 when:2021-08-20:evening feed cat")).unwrap();
    let latest = events.latest_event_overall().unwrap();
    let exp = DateTimeOfDay::from_ymd(2021, 8, 24, TimeOfDay::Morning).unwrap();
    assert_eq!(latest.when, exp);
}

#[test]
fn latest_event_overall_empty() {
    let events = Events::new();
    assert!(events.latest_event_overall().is_none());
}

#[test]
fn latest_event_by_id() {
    let mut events = Events::new();
    events.add_line_item(&ev_line("id:abcd1234 when:2021-08-24:morning walk dog")).unwrap();
    events.add_line_item(&ev_line("id:abcd1234 when:2021-08-26:morning walk dog")).unwrap();
    events.add_line_item(&ev_line("id:efgh5678 when:2021-08-30:evening feed cat")).unwrap();
    let id = cadence::ID::new("abcd1234".to_string()).unwrap();
    let latest = events.latest_event(id).unwrap();
    let exp = DateTimeOfDay::from_ymd(2021, 8, 26, TimeOfDay::Morning).unwrap();
    assert_eq!(latest.when, exp);
}

#[test]
fn latest_event_before_boundary() {
    let mut events = Events::new();
    events.add_line_item(&ev_line("id:abcd1234 when:2021-08-24:morning walk dog")).unwrap();
    events.add_line_item(&ev_line("id:abcd1234 when:2021-08-26:morning walk dog")).unwrap();
    let id = cadence::ID::new("abcd1234".to_string()).unwrap();
    let boundary = DateTimeOfDay::from_ymd(2021, 8, 25, TimeOfDay::NoPreference).unwrap();
    let latest = events.latest_event_before(id, boundary).unwrap();
    let exp = DateTimeOfDay::from_ymd(2021, 8, 24, TimeOfDay::Morning).unwrap();
    assert_eq!(latest.when, exp);
}

#[test]
fn event_display() {
    let item = LineItem::new("id:foo when:bar x:y description here").unwrap();
    assert_eq!(item.repr(), "description here id:foo when:bar x:y");
    let id = cadence::ID::new("123456".to_string()).unwrap();
    let when = DateTimeOfDay::from_ymd(2021, 8, 24, TimeOfDay::Morning).unwrap();
    let event = cadence::Event { id, when, item };
    assert_eq!(event.repr(), "id:123456 when:2021-08-24:M description here x:y");
}

#[test]
fn event_display_no_id_display() {
    let item = LineItem::new("x:y description here").unwrap();
    assert_eq!(item.repr(), "description here x:y");
    let id = cadence::ID::new("123456".to_string()).unwrap();
    let when = DateTimeOfDay::from_ymd(2021, 8, 24, TimeOfDay::Morning).unwrap();
    let event = cadence::Event { id, when, item };
    assert_eq!(event.repr(), "id:123456 when:2021-08-24:M description here x:y");
}
