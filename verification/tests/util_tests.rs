use cadence::util::parse_slider;
use cadence::util::parse_u32 as parseu32;

#[test]
fn zero() {
    assert_eq!(0, parseu32("0").unwrap());
}

#[test]
fn one() {
    assert_eq!(1, parseu32("1").unwrap());
}

#[test]
fn many() {
    assert_eq!(4294967295, parseu32("4294967295").unwrap());
}

#[test]
fn too_many() {
    match parseu32("4294967296") {
        Ok(_) => panic!("OK when it shouldn't be"),
        Err(_) => {},
    }
}

#[test]
fn plus_prefix() {
    assert_eq!(17, parseu32("+17").unwrap());
    assert!(parseu32("+").is_err());
    assert!(parseu32("").is_err());
    assert!(parseu32("1a").is_err());
}

#[test]
fn slider_both_sides() {
    let s = parse_slider("2,1").unwrap();
    assert_eq!(s.before, 2);
    assert_eq!(s.after, 1);
}

#[test]
fn slider_needs_comma() {
    assert!(parse_slider("21").is_err());
    assert!(parse_slider("a,1").is_err());
    assert!(parse_slider("1,b").is_err());
    assert!(parse_slider("1,2,3").is_err());
}
