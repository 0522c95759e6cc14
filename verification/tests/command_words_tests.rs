use cadence::command_words::command_words;

#[test]
fn colons() {
    for word in command_words() {
        assert!(word.ends_with(":"));
    }
}
