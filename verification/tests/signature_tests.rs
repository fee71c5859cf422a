use pattern_query::signature::calculate_pattern;
use pattern_query::states::PatternState;

fn bytes(s: &str) -> Vec<u8> {
    s.as_bytes().to_vec()
}

#[test]
fn reflexive_signature_is_all_green() {
    let word = bytes("apple");
    let sig = calculate_pattern(&word, &word);
    assert_eq!(sig, vec![PatternState::Green; 5]);
}

#[test]
fn duplicate_letters_respect_solution_budget() {
    // Solution "sassy" holds three 's'; two are matched exactly, so only
    // one more guess 's' can turn yellow.
    let guess = bytes("assss");
    let solution = bytes("sassy");
    let sig = calculate_pattern(&guess, &solution);
    assert_eq!(
        sig,
        vec![
            PatternState::Yellow,
            PatternState::Yellow,
            PatternState::Green,
            PatternState::Green,
            PatternState::Grey,
        ]
    );
    let marked = sig
        .iter()
        .zip(guess.iter())
        .filter(|(p, b)| **b == b's' && **p != PatternState::Grey)
        .count();
    let budget = solution.iter().filter(|b| **b == b's').count();
    assert!(marked <= budget);
}

#[test]
fn present_letter_marked_yellow_once() {
    // One 'e' in the solution: the first non-green 'e' of the guess is
    // yellow, the second grey.
    let sig = calculate_pattern(&bytes("eerie"), &bytes("olden"));
    assert_eq!(
        sig,
        vec![
            PatternState::Yellow,
            PatternState::Grey,
            PatternState::Grey,
            PatternState::Grey,
            PatternState::Grey,
        ]
    );
}

#[test]
fn disjoint_words_are_all_grey() {
    let sig = calculate_pattern(&bytes("crumb"), &bytes("stove"));
    assert_eq!(sig, vec![PatternState::Grey; 5]);
}

#[test]
fn exact_match_consumes_before_present() {
    // Guess "abbey" against "babes": greens at the middle 'b' and at
    // 'e'; the leading 'a' and the other 'b' go yellow, 'y' grey.
    let sig = calculate_pattern(&bytes("abbey"), &bytes("babes"));
    assert_eq!(
        sig,
        vec![
            PatternState::Yellow,
            PatternState::Yellow,
            PatternState::Green,
            PatternState::Green,
            PatternState::Grey,
        ]
    );
}

#[test]
fn empty_words_give_empty_signature() {
    let sig = calculate_pattern(&bytes(""), &bytes(""));
    assert_eq!(sig, Vec::<PatternState>::new());
}
