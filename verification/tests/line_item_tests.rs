use cadence::line_item::CommandWords;
use cadence::line_item::Description;
use cadence::line_item::LineItem;

#[test]
fn success() {
    let desc = Description::new("this is a valid description".to_string());
    assert!(desc.is_some());
    assert_eq!(desc.unwrap().text(), "this is a valid description");
}

#[test]
fn failure() {
    let desc = Description::new("this is an in:valid description".to_string());
    assert!(desc.is_none());
}

#[test]
fn from() {
    let mut cmd_words = CommandWords::new();
    cmd_words.insert("id:", "rescrv");
    let mut again = CommandWords::new();
    again.insert("id:", "rescrv");
    assert_eq!(cmd_words, again);
}

#[test]
fn lookup() {
    let mut cmd_words = CommandWords::new();
    cmd_words.insert("id:", "rescrv");
    let exp = cmd_words.lookup("id:").unwrap();
    let got = "rescrv";
    assert_eq!(exp, got);
}

#[test]
fn remove() {
    let mut cmd_words = CommandWords::new();
    cmd_words.insert("id:", "rescrv");
    cmd_words.remove("id:");
    let exp = cmd_words.lookup("id:");
    let got = None;
    assert_eq!(exp, got);
}

#[test]
fn empty_input() {
    let got = LineItem::new("").unwrap();
    assert_eq!(got.desc(), "");
    assert_eq!(got.repr(), "");
}

fn cmd_word_exp() -> LineItem {
    let mut li = LineItem::new("this is a test").unwrap();
    li.insert("id:", "rescrv");
    li
}

#[test]
fn cmd_word_first() {
    let exp = cmd_word_exp();
    let got = LineItem::new("id:rescrv this is a test").unwrap();
    assert_eq!(exp, got);
}

#[test]
fn cmd_word_last() {
    let exp = cmd_word_exp();
    let got = LineItem::new("this is a test id:rescrv").unwrap();
    assert_eq!(exp, got);
}

#[test]
fn cmd_word_middle() {
    let exp = cmd_word_exp();
    let got = LineItem::new("this is id:rescrv a test").unwrap();
    assert_eq!(exp, got);
}

#[test]
fn repr_no_commands() {
    let li = LineItem::new("this is a test").unwrap();
    let got = li.repr();
    let exp = "this is a test";
    assert_eq!(exp, got);
}

#[test]
fn repr_with_commands() {
    let li = LineItem::new("this is id:rescrv a test").unwrap();
    let got = li.repr();
    let exp = "this is a test id:rescrv";
    assert_eq!(exp, got);
}

#[test]
fn repr_orders_keys() {
    let li = LineItem::new("z:1 a:2 middle words m:3").unwrap();
    assert_eq!(li.repr(), "middle words a:2 m:3 z:1");
}

#[test]
fn last_binding_wins() {
    let li = LineItem::new("id:one words id:two").unwrap();
    assert_eq!(li.lookup("id:"), Some("two"));
}
