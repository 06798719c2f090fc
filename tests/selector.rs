use spell_check::comparison::{compare, WordScore};
use spell_check::selector::{select, top_matches, WordData};
use spell_check::word_list::{parse_list, WordList};

fn list(name: &str, text: &str) -> WordList {
    let chunks = vec![text.as_bytes().to_vec()];
    match parse_list(name.to_string(), &chunks) {
        Ok(l) => l,
        Err(e) => panic!("list did not load: {:?}", e),
    }
}

fn cand(word: &str, score: usize, list_index: usize) -> WordData {
    WordData { word: word.to_string(), score: WordScore(score), list_index }
}

fn summary(r: &[WordData]) -> Vec<(String, usize, usize)> {
    r.iter().map(|d| (d.word.clone(), d.score.value(), d.list_index)).collect()
}

#[test]
fn scenario_nearest_two_of_one_list() {
    let lists = vec![list("en", "words\n---\ncat\nbat\ncut\ndog\n")];
    let r = top_matches(&lists, "cat", 2);
    assert_eq!(summary(&r), vec![("cat".to_string(), 0, 0), ("bat".to_string(), 1, 0)]);
}

#[test]
fn scenario_exact_match_wins_across_lists() {
    let first = list("one", "h\n---\nflail\nfloat\n");
    let second = list("two", "h\n---\nflair\nchair\n");
    let r = top_matches(&vec![first, second], "flair", 1);
    assert_eq!(summary(&r), vec![("flair".to_string(), 0, 1)]);
    let first = list("one", "h\n---\nflail\nfloat\n");
    let second = list("two", "h\n---\nflair\nchair\n");
    let r = top_matches(&vec![second, first], "flair", 1);
    assert_eq!(summary(&r), vec![("flair".to_string(), 0, 0)]);
}

#[test]
fn scenario_fewer_words_than_capacity() {
    let lists = vec![list("en", "h\n---\ndog\ncat\n")];
    let r = top_matches(&lists, "cat", 5);
    assert_eq!(summary(&r), vec![("cat".to_string(), 0, 0), ("dog".to_string(), 3, 0)]);
}

#[test]
fn empty_stream_gives_nothing() {
    assert!(select(&Vec::new(), 4).is_empty());
    let lists = vec![list("en", "h\n---\n")];
    assert!(top_matches(&lists, "cat", 4).is_empty());
}

#[test]
fn zero_capacity_keeps_nothing() {
    let c = vec![cand("a", 0, 0), cand("b", 1, 0)];
    assert!(select(&c, 0).is_empty());
}

#[test]
fn length_is_capacity_or_distinct_words() {
    let c = vec![cand("a", 3, 0), cand("a", 3, 1), cand("b", 2, 0), cand("a", 1, 1)];
    assert_eq!(select(&c, 3).len(), 2);
    assert_eq!(select(&c, 1).len(), 1);
    let c = vec![cand("a", 3, 0), cand("b", 2, 0), cand("c", 1, 0), cand("d", 0, 0)];
    assert_eq!(select(&c, 3).len(), 3);
}

#[test]
fn output_ascends_by_score() {
    let c = vec![cand("e", 5, 0), cand("d", 4, 0), cand("c", 3, 0), cand("b", 2, 0), cand("a", 1, 0), cand("f", 6, 0)];
    let r = select(&c, 4);
    let scores: Vec<usize> = r.iter().map(|d| d.score.value()).collect();
    assert_eq!(scores, vec![1, 2, 3, 4]);
}

#[test]
fn first_seen_word_blocks_later_duplicates() {
    let c = vec![cand("x", 2, 0), cand("y", 3, 0), cand("x", 0, 1), cand("z", 1, 1)];
    let r = select(&c, 2);
    assert_eq!(summary(&r), vec![("z".to_string(), 1, 1), ("x".to_string(), 2, 0)]);
}

#[test]
fn ties_keep_stream_order() {
    let c = vec![cand("a", 1, 0), cand("b", 1, 0), cand("c", 1, 0), cand("d", 0, 0)];
    let r = select(&c, 3);
    assert_eq!(
        summary(&r),
        vec![("d".to_string(), 0, 0), ("a".to_string(), 1, 0), ("b".to_string(), 1, 0)]
    );
}

#[test]
fn selection_is_deterministic() {
    let c = vec![cand("q", 2, 0), cand("r", 2, 1), cand("s", 1, 0), cand("t", 2, 1), cand("u", 0, 0)];
    assert_eq!(summary(&select(&c, 3)), summary(&select(&c, 3)));
    let lists = vec![list("a", "h\n---\nbat\ncut\n"), list("b", "h\n---\nhat\nrat\n")];
    assert_eq!(summary(&top_matches(&lists, "cat", 3)), summary(&top_matches(&lists, "cat", 3)));
}

#[test]
fn distance_values() {
    assert_eq!(compare("hannah", "hannha").value(), 1);
    assert_eq!(compare("abc", "abd").value(), 1);
    assert_eq!(compare("flair", "flail").value(), 1);
    assert_eq!(compare("", "foo").value(), 3);
    assert_eq!(compare("bar", "").value(), 3);
    assert_eq!(compare("dog", "cat").value(), 3);
}

#[test]
fn score_text() {
    assert_eq!(WordScore(12).to_text(), "Δ = 12");
    assert_eq!(WordScore(0).to_text(), "Δ = 0");
}

#[test]
fn result_line() {
    let lists = vec![list("U.S. English", "h\n---\ncat\n")];
    let (name, description) = cand("cat", 3, 0).send(&lists);
    assert_eq!(name, "cat");
    assert_eq!(description, "Δ = 3   •   U.S. English");
}
