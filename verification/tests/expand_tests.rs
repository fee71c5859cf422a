use pattern_query::expand::expand_query_pattern;
use pattern_query::states::PatternState;
use pattern_query::states::QueryPatternState;

#[test]
fn possible_states_enumerate_admissible_values() {
    let base = QueryPatternState::Base(PatternState::Yellow);
    assert_eq!(base.possible_states(), vec![PatternState::Yellow]);
    assert_eq!(
        QueryPatternState::AnyValid.possible_states(),
        vec![PatternState::Green, PatternState::Yellow]
    );
    assert_eq!(
        QueryPatternState::Any.possible_states(),
        vec![PatternState::Green, PatternState::Yellow, PatternState::Grey]
    );
}

#[test]
fn all_wildcards_expand_to_three_to_the_length() {
    let pattern = vec![QueryPatternState::Any; 5];
    let expanded = expand_query_pattern(&pattern);
    assert_eq!(expanded.len(), 243);
    for sig in &expanded {
        assert_eq!(sig.len(), 5);
    }
    for a in 0..expanded.len() {
        for b in (a + 1)..expanded.len() {
            assert_ne!(expanded[a], expanded[b]);
        }
    }
}

#[test]
fn base_only_pattern_expands_to_single_literal_signature() {
    let pattern = vec![
        QueryPatternState::Base(PatternState::Green),
        QueryPatternState::Base(PatternState::Yellow),
        QueryPatternState::Base(PatternState::Grey),
        QueryPatternState::Base(PatternState::Green),
        QueryPatternState::Base(PatternState::Grey),
    ];
    let expanded = expand_query_pattern(&pattern);
    assert_eq!(
        expanded,
        vec![vec![
            PatternState::Green,
            PatternState::Yellow,
            PatternState::Grey,
            PatternState::Green,
            PatternState::Grey,
        ]]
    );
}

#[test]
fn any_of_correct_doubles_the_expansion() {
    let pattern = vec![
        QueryPatternState::AnyValid,
        QueryPatternState::Base(PatternState::Grey),
        QueryPatternState::AnyValid,
    ];
    let expanded = expand_query_pattern(&pattern);
    assert_eq!(expanded.len(), 4);
    for sig in &expanded {
        assert_eq!(sig[1], PatternState::Grey);
        assert_ne!(sig[0], PatternState::Grey);
        assert_ne!(sig[2], PatternState::Grey);
    }
}

#[test]
fn empty_pattern_expands_to_one_empty_signature() {
    let expanded = expand_query_pattern(&Vec::new());
    assert_eq!(expanded, vec![Vec::<PatternState>::new()]);
}

#[test]
fn expansion_order_is_stable() {
    let pattern = vec![QueryPatternState::Any];
    let expanded = expand_query_pattern(&pattern);
    assert_eq!(
        expanded,
        vec![
            vec![PatternState::Green],
            vec![PatternState::Yellow],
            vec![PatternState::Grey],
        ]
    );
}
