use cadence::ID;

#[test]
fn with_id() {
    let id = ID::new("id:m5QVZdcb".to_string());
    let exp = ID::new("m5QVZdcb".to_string());
    assert!(id.is_some());
    assert_eq!(exp.unwrap(), id.unwrap());
}

#[test]
fn without_id() {
    let id = ID::new("m5QVZdcb".to_string());
    assert!(id.is_some());
    assert_eq!(id.unwrap().repr(), "id:m5QVZdcb");
}

#[test]
fn over_length() {
    let id = ID::new("m5QVZdcbL".to_string());
    assert!(id.is_none());
    let id = ID::new("id:m5QVZdcbL".to_string());
    assert!(id.is_none());
}

#[test]
fn under_length() {
    let id = ID::new("Zdc".to_string());
    assert!(id.is_none());
    let id = ID::new("id:Zdc".to_string());
    assert!(id.is_none());
}

#[test]
fn rand_is_well_formed() {
    for _ in 0..32 {
        let id = ID::rand();
        let text = id.repr();
        let bare = &text[3..];
        assert_eq!(bare.len(), 6);
        assert!(bare.chars().all(|c| c.is_ascii_alphanumeric()));
        assert!(ID::new(bare.to_string()).is_some());
    }
}

#[test]
fn from_bytes_maps_alphabet() {
    let bytes = vec![0u8, 1, 2, 26, 52, 61];
    let id = ID::from_bytes(&bytes);
    assert_eq!(id.repr(), "id:abcA09");
    let wrapped = vec![62u8, 63, 124, 200, 255, 0];
    let id = ID::from_bytes(&wrapped);
    // each byte picks its character by remainder below sixty-two
    assert_eq!(id.repr(), "id:abaoha");
}
