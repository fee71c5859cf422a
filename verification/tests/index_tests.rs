use pattern_query::index::build_index;
use pattern_query::index::resolve;
use pattern_query::index::LengthMismatch;
use pattern_query::parse::filter_wordlist;
use pattern_query::parse::parse_query_line;
use pattern_query::signature::calculate_pattern;
use pattern_query::states::PatternState;

fn bytes(s: &str) -> Vec<u8> {
    s.as_bytes().to_vec()
}

fn words(list: &[&str]) -> Vec<Vec<u8>> {
    list.iter().map(|w| bytes(w)).collect()
}

#[test]
fn all_green_query_resolves_to_the_solution_alone() {
    let index = build_index(&words(&["apple", "angle", "ample"]), &bytes("apple"));
    let query = parse_query_line(&bytes("GGGGG")).unwrap();
    let solutions = resolve(&query, &index).unwrap();
    assert_eq!(solutions, vec![bytes("apple")]);
}

#[test]
fn all_grey_query_can_resolve_to_nothing() {
    // "angle" shares 'a', 'l' and 'e' with "apple", so no word produces
    // the all-absent signature.
    let index = build_index(&words(&["apple", "angle"]), &bytes("apple"));
    let query = parse_query_line(&bytes("XXXXX")).unwrap();
    let solutions = resolve(&query, &index).unwrap();
    assert_eq!(solutions, Vec::<Vec<u8>>::new());
}

#[test]
fn lookup_preserves_insertion_order_within_a_bucket() {
    // "angle" and "aggle" share the signature green-grey-grey-green-green
    // against "apple".
    let index = build_index(&words(&["angle", "apple", "aggle"]), &bytes("apple"));
    let key = calculate_pattern(&bytes("angle"), &bytes("apple"));
    assert_eq!(
        key,
        vec![
            PatternState::Green,
            PatternState::Grey,
            PatternState::Grey,
            PatternState::Green,
            PatternState::Green,
        ]
    );
    assert_eq!(index.lookup(&key), vec![bytes("angle"), bytes("aggle")]);
}

#[test]
fn lookup_of_unproduced_signature_is_empty() {
    let index = build_index(&words(&["apple"]), &bytes("apple"));
    let key = vec![PatternState::Grey; 5];
    assert_eq!(index.lookup(&key), Vec::<Vec<u8>>::new());
}

#[test]
fn wildcard_query_collects_every_candidate() {
    let index = build_index(&words(&["apple", "angle", "ample"]), &bytes("apple"));
    let query = parse_query_line(&bytes("*****")).unwrap();
    let solutions = resolve(&query, &index).unwrap();
    assert_eq!(solutions.len(), 3);
    assert!(solutions.contains(&bytes("apple")));
    assert!(solutions.contains(&bytes("angle")));
    assert!(solutions.contains(&bytes("ample")));
}

#[test]
fn mismatched_query_length_is_rejected() {
    let index = build_index(&words(&["apple"]), &bytes("apple"));
    let query = parse_query_line(&bytes("GGG")).unwrap();
    assert_eq!(
        resolve(&query, &index),
        Err(LengthMismatch { expected: 5, actual: 3 })
    );
}

#[test]
fn wrong_length_source_words_never_reach_any_result() {
    // The filtering stage drops words of the wrong length, so no query
    // pattern, however broad, can ever surface them.
    let content = bytes("apple\nbananas\nangle\nhi\n");
    let solution = bytes("apple");
    let filtered = filter_wordlist(&content, solution.len());
    assert_eq!(filtered, vec![bytes("apple"), bytes("angle")]);
    let index = build_index(&filtered, &solution);
    let query = parse_query_line(&bytes("*****")).unwrap();
    let solutions = resolve(&query, &index).unwrap();
    assert!(!solutions.contains(&bytes("bananas")));
    assert!(!solutions.contains(&bytes("hi")));
    assert_eq!(solutions.len(), 2);
}

#[test]
fn any_of_correct_query_excludes_absent_positions() {
    // "?????" admits only signatures with no grey position: of the three
    // candidates only "apple" itself (all green) qualifies.
    let index = build_index(&words(&["apple", "angle", "ample"]), &bytes("apple"));
    let query = parse_query_line(&bytes("?????")).unwrap();
    let solutions = resolve(&query, &index).unwrap();
    assert_eq!(solutions, vec![bytes("apple")]);
}
