use pattern_query::parse::filter_wordlist;
use pattern_query::parse::parse_query_line;
use pattern_query::parse::parse_query_pattern;
use pattern_query::parse::query_pattern_to_string;
use pattern_query::parse::signature_to_bytes;
use pattern_query::parse::InvalidSymbol;
use pattern_query::states::PatternState;
use pattern_query::states::QueryPatternState;

fn bytes(s: &str) -> Vec<u8> {
    s.as_bytes().to_vec()
}

#[test]
fn parses_every_symbol_case_insensitively() {
    let parsed = parse_query_line(&bytes("GyX?*g")).unwrap();
    assert_eq!(
        parsed,
        vec![
            QueryPatternState::Base(PatternState::Green),
            QueryPatternState::Base(PatternState::Yellow),
            QueryPatternState::Base(PatternState::Grey),
            QueryPatternState::AnyValid,
            QueryPatternState::Any,
            QueryPatternState::Base(PatternState::Green),
        ]
    );
}

#[test]
fn rejects_first_invalid_byte() {
    let err = parse_query_line(&bytes("GZGGQ")).unwrap_err();
    assert_eq!(err, InvalidSymbol { index: 1, byte: b'Z' });
}

#[test]
fn malformed_line_leaves_other_lines_untouched() {
    let results = parse_query_pattern(&bytes("GGGGG\nGZGGG\nYYYYY"));
    assert_eq!(results.len(), 3);
    assert_eq!(
        results[0],
        Ok(vec![QueryPatternState::Base(PatternState::Green); 5])
    );
    assert_eq!(results[1], Err(InvalidSymbol { index: 1, byte: b'Z' }));
    assert_eq!(
        results[2],
        Ok(vec![QueryPatternState::Base(PatternState::Yellow); 5])
    );
}

#[test]
fn skips_blank_lines_and_trims_whitespace() {
    let results = parse_query_pattern(&bytes("\n   \n  ??*?? \r\n\nGGGGG\n"));
    assert_eq!(results.len(), 2);
    assert_eq!(
        results[0],
        Ok(vec![
            QueryPatternState::AnyValid,
            QueryPatternState::AnyValid,
            QueryPatternState::Any,
            QueryPatternState::AnyValid,
            QueryPatternState::AnyValid,
        ])
    );
    assert_eq!(
        results[1],
        Ok(vec![QueryPatternState::Base(PatternState::Green); 5])
    );
}

#[test]
fn empty_block_parses_to_nothing() {
    assert_eq!(parse_query_pattern(&bytes("")).len(), 0);
}

#[test]
fn renders_patterns_canonically() {
    let parsed = parse_query_line(&bytes("gyx?*")).unwrap();
    assert_eq!(query_pattern_to_string(&parsed), "GYX?*");
}

#[test]
fn signature_renders_and_reparses_to_itself() {
    let sig = vec![
        PatternState::Green,
        PatternState::Yellow,
        PatternState::Grey,
        PatternState::Green,
        PatternState::Yellow,
    ];
    let rendered = signature_to_bytes(&sig);
    assert_eq!(rendered, bytes("GYXGY"));
    let reparsed = parse_query_line(&rendered).unwrap();
    let expanded = pattern_query::expand::expand_query_pattern(&reparsed);
    assert_eq!(expanded, vec![sig]);
}

#[test]
fn filters_wordlist_by_length_and_alphabet() {
    let content = bytes("apple\nbanana\n  ANGLE  \nhi\napp1e\nample\n");
    let words = filter_wordlist(&content, 5);
    assert_eq!(words, vec![bytes("apple"), bytes("angle"), bytes("ample")]);
}

#[test]
fn empty_wordlist_filters_to_nothing() {
    assert_eq!(filter_wordlist(&bytes("\n\n"), 5), Vec::<Vec<u8>>::new());
    assert_eq!(filter_wordlist(&bytes(""), 5), Vec::<Vec<u8>>::new());
}
