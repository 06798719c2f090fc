use spell_check::request::lookup_word;

#[test]
fn lookup_takes_the_word_after_the_prefix() {
    assert_eq!(lookup_word("spell cat"), Some("cat".to_string()));
    assert_eq!(lookup_word("spell   CaT \t"), Some("cat".to_string()));
    assert_eq!(lookup_word("spell x"), Some("x".to_string()));
}

#[test]
fn other_requests_are_not_lookups() {
    assert_eq!(lookup_word("spell "), None);
    assert_eq!(lookup_word("spell    "), None);
    assert_eq!(lookup_word("spell two words"), None);
    assert_eq!(lookup_word("spel cat"), None);
    assert_eq!(lookup_word("spellcat"), None);
    assert_eq!(lookup_word("spell"), None);
    assert_eq!(lookup_word(""), None);
}
