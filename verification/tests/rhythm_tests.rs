use cadence::Rhythms;
use cadence::line_item::LineItem;
use cadence::rhythms::Slider;

#[test]
fn defaults_to_0_0() {
    let exp = Slider { before: 0, after: 0 };
    let got = Slider::default();
    assert_eq!(exp, got);
}

#[test]
fn can_read_0_0() {
    let mut rhythms = Rhythms::new();
    let item = LineItem::new("slider=0,0 type:monthly id:9fuEEECe dotm:18 do it").unwrap();
    rhythms.add_line_item(&item).unwrap();
    let exp = Slider { before: 0, after: 0 };
    let monthlies = rhythms.monthlies();
    assert_eq!(monthlies.len(), 1);
    let got = monthlies[0].slider;
    assert_eq!(exp, got);
}

#[test]
fn can_be_2_1() {
    let mut rhythms = Rhythms::new();
    let item = LineItem::new("slider:2,1 type:monthly id:9fuEEECe dotm:18 do it").unwrap();
    rhythms.add_line_item(&item).unwrap();
    let exp = Slider { before: 2, after: 1 };
    let monthlies = rhythms.monthlies();
    assert_eq!(monthlies.len(), 1);
    let got = monthlies[0].slider;
    assert_eq!(exp, got);
}

#[test]
fn bad_id() {
    let mut rhythms = Rhythms::new();
    let item = LineItem::new("type:daily id:X bad_id").unwrap();
    let got = rhythms.add_line_item(&item);
    assert!(got.is_err());
    assert!(rhythms.is_empty());
}

#[test]
fn missing_id() {
    let mut rhythms = Rhythms::new();
    let item = LineItem::new("type:daily missing_id").unwrap();
    let got = rhythms.add_line_item(&item);
    assert!(got.is_err());
    assert!(rhythms.is_empty());
}

#[test]
fn reads_week_daily() {
    let mut rhythms = Rhythms::new();
    let item = LineItem::new("type:week-daily id:abcd1234 dotw:thu slider:1,1 take out trash").unwrap();
    rhythms.add_line_item(&item).unwrap();
    let weeklies = rhythms.week_dailies();
    assert_eq!(weeklies.len(), 1);
    assert_eq!(weeklies[0].dotw, cadence::rhythms::Weekday::Thursday);
    assert_eq!(weeklies[0].desc, "take out trash");
}

#[test]
fn reads_every_n_days() {
    let mut rhythms = Rhythms::new();
    let item = LineItem::new("type:every-n-days id:abcd1234 n:5 water plants").unwrap();
    rhythms.add_line_item(&item).unwrap();
    let every_n = rhythms.every_n_dailies();
    assert_eq!(every_n.len(), 1);
    assert_eq!(every_n[0].n, 5);
}

#[test]
fn line_item_round_trip() {
    let mut rhythms = Rhythms::new();
    let item = LineItem::new("slider:2,1 type:monthly id:9fuEEECe dotm:18 do it").unwrap();
    rhythms.add_line_item(&item).unwrap();
    let monthlies = rhythms.monthlies();
    let line = cadence::rhythms::Rhythm::Monthly(monthlies[0].clone()).line_item();
    assert_eq!(line.repr(), "do it dotm:18 id:9fuEEECe slider:2,1 type:monthly");
    assert_eq!(line.lookup("type:"), Some("monthly"));
    assert_eq!(line.lookup("dotm:"), Some("18"));
}

#[test]
fn human_lines() {
    let mut rhythms = Rhythms::new();
    rhythms.add_line_item(&LineItem::new("type:daily id:abcd wash dishes").unwrap()).unwrap();
    rhythms.add_line_item(&LineItem::new("type:monthly id:efgh dotm:3 pay rent").unwrap()).unwrap();
    let dailies = rhythms.dailies();
    let monthlies = rhythms.monthlies();
    let daily_line = cadence::rhythms::Rhythm::Daily(dailies[0].clone()).human_line();
    let monthly_line = cadence::rhythms::Rhythm::Monthly(monthlies[0].clone()).human_line();
    assert_eq!(daily_line, "wash dishes every day");
    assert_eq!(monthly_line, "pay rent every 3 day of the month");
}
