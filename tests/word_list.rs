use spell_check::word_list::{manifest, parse_list, parse_lists, HeaderScanner, LoadError, WordList};

fn chunks(parts: &[&[u8]]) -> Vec<Vec<u8>> {
    parts.iter().map(|p| p.to_vec()).collect()
}

fn words(l: &WordList) -> Vec<String> {
    l.iter().clone()
}

#[test]
fn loads_lower_case_words_in_order() {
    let c = chunks(&[b"My list\n---\nApple\n\nBANANA\r\ncherry\n\n\n"]);
    let l = parse_list("fruit".to_string(), &c).unwrap();
    assert_eq!(words(&l), vec!["apple", "banana", "cherry"]);
    assert_eq!(l.len(), 3);
    assert_eq!(l.name(), "fruit");
}

#[test]
fn last_line_without_line_feed() {
    let c = chunks(&[b"---\none\ntwo"]);
    let l = parse_list("n".to_string(), &c).unwrap();
    assert_eq!(words(&l), vec!["one", "two"]);
}

#[test]
fn delimiter_across_chunks() {
    let c = chunks(&[b"head -", b"-", b"-", b"\nx\ny\n"]);
    let l = parse_list("n".to_string(), &c).unwrap();
    assert_eq!(words(&l), vec!["x", "y"]);
    let c = chunks(&[b"head --", b"-\nz"]);
    assert_eq!(words(&parse_list("n".to_string(), &c).unwrap()), vec!["z"]);
}

#[test]
fn body_after_first_delimiter_only() {
    let c = chunks(&[b"a\n---\nb\n---\nc\n"]);
    let l = parse_list("n".to_string(), &c).unwrap();
    assert_eq!(words(&l), vec!["b", "---", "c"]);
}

#[test]
fn four_dashes_close_the_header() {
    let c = chunks(&[b"----\nw\n"]);
    assert_eq!(words(&parse_list("n".to_string(), &c).unwrap()), vec!["w"]);
}

#[test]
fn broken_delimiter_is_a_format_error() {
    let c = chunks(&[b"-- -\nw\n--\n"]);
    match parse_list("bad".to_string(), &c) {
        Err(LoadError::Format { name }) => assert_eq!(name, "bad"),
        other => panic!("unexpected: {:?}", other),
    }
    match parse_list("empty".to_string(), &Vec::new()) {
        Err(LoadError::Format { name }) => assert_eq!(name, "empty"),
        other => panic!("unexpected: {:?}", other),
    }
}

#[test]
fn invalid_body_is_an_encoding_error() {
    let c = chunks(&[b"---\nok\n\xff\xfe\n"]);
    match parse_list("enc".to_string(), &c) {
        Err(LoadError::Encoding { name }) => assert_eq!(name, "enc"),
        other => panic!("unexpected: {:?}", other),
    }
}

#[test]
fn scenario_one_bad_list_fails_the_whole_load() {
    let sources = vec![
        ("good".to_string(), chunks(&[b"h\n---\ncat\n"])),
        ("bad".to_string(), chunks(&[b"no header here\ncat\n"])),
    ];
    match parse_lists(&sources) {
        Err(LoadError::Format { name }) => assert_eq!(name, "bad"),
        other => panic!("unexpected: {:?}", other),
    }
}

#[test]
fn all_good_lists_load_in_order() {
    let sources = vec![
        ("first".to_string(), chunks(&[b"h\n---\ncat\ndog\n"])),
        ("second".to_string(), chunks(&[b"h\n---\nGato\n"])),
    ];
    let lists = parse_lists(&sources).unwrap();
    assert_eq!(lists.len(), 2);
    assert_eq!(lists[0].name(), "first");
    assert_eq!(words(&lists[1]), vec!["gato"]);
    assert_eq!(manifest(&lists), "- first (2 words)\n- second (1 words)");
    assert_eq!(manifest(&Vec::new()), "");
}

#[test]
fn scanner_reports_position_in_chunk() {
    let mut s = HeaderScanner::new();
    assert_eq!(s.feed(b"ab--"), None);
    assert_eq!(s.feed(b"-\nrest"), Some(1));
    let mut s = HeaderScanner::new();
    assert_eq!(s.feed(b"--x-\n---\n"), Some(8));
}

#[test]
fn unicode_words_are_lower_cased() {
    let c = chunks(&["---\nÉCOLE\nStraße\n".as_bytes()]);
    let l = parse_list("fr".to_string(), &c).unwrap();
    assert_eq!(words(&l), vec!["école", "straße"]);
}
