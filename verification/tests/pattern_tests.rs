use minipat::Match;
use minipat::Pattern;
use minipat::PatternCreationError;

fn groups(strs: &[&str]) -> Vec<String> {
    strs.iter().map(|s| s.to_string()).collect()
}

#[test]
fn nothing_captured() {
    let pattern = Pattern::new("a*b*c").unwrap();
    assert_eq!(
        pattern.first_match("blahabcdef"),
        Some(Match {
            beginning_byte_index: 2,
            end_byte_index: 6,
            groups: groups(&["ha", ""]),
        })
    );
}

#[test]
fn parenthesis() {
    let pattern = Pattern::new("(*)").unwrap();
    assert_eq!(
        pattern.first_match("(print ())"),
        Some(Match {
            beginning_byte_index: 7,
            end_byte_index: 8,
            groups: groups(&[""]),
        })
    );
}

#[test]
fn adjacent_any_sequences_rejected() {
    assert!(matches!(
        Pattern::new("a**b"),
        Err(PatternCreationError::TwoAdjacentAnySequences)
    ));
    assert!(matches!(
        Pattern::new("**"),
        Err(PatternCreationError::TwoAdjacentAnySequences)
    ));
    assert!(matches!(
        Pattern::new("x**"),
        Err(PatternCreationError::TwoAdjacentAnySequences)
    ));
    assert!(matches!(
        Pattern::new("**y"),
        Err(PatternCreationError::TwoAdjacentAnySequences)
    ));
    assert!(matches!(
        Pattern::new("a***b"),
        Err(PatternCreationError::TwoAdjacentAnySequences)
    ));
}

#[test]
fn separated_any_sequences_accepted() {
    assert!(Pattern::new("*x*").is_ok());
    assert!(Pattern::new("a*b*c").is_ok());
}

#[test]
fn escaped_star_between_wildcards_accepted() {
    let pattern = Pattern::new("a*\\*b").unwrap();
    assert_eq!(
        pattern.first_match("aXX*b"),
        Some(Match {
            beginning_byte_index: 0,
            end_byte_index: 4,
            groups: groups(&["XX"]),
        })
    );
}

#[test]
fn literal_only_found() {
    let pattern = Pattern::new("abc").unwrap();
    assert_eq!(
        pattern.first_match("xxabcyy"),
        Some(Match {
            beginning_byte_index: 2,
            end_byte_index: 4,
            groups: groups(&[]),
        })
    );
}

#[test]
fn literal_only_absent() {
    let pattern = Pattern::new("abc").unwrap();
    assert_eq!(pattern.first_match("xyz"), None);
    assert_eq!(pattern.first_match("ab"), None);
    assert_eq!(pattern.first_match(""), None);
}

#[test]
fn any_character_captures_one() {
    let pattern = Pattern::new("a.c").unwrap();
    assert_eq!(
        pattern.first_match("xaQc"),
        Some(Match {
            beginning_byte_index: 1,
            end_byte_index: 3,
            groups: groups(&["Q"]),
        })
    );
}

#[test]
fn any_character_may_cross_delimiter() {
    let pattern = Pattern::new("a.c").unwrap();
    assert_eq!(
        pattern.first_match("a;c"),
        Some(Match {
            beginning_byte_index: 0,
            end_byte_index: 2,
            groups: groups(&[";"]),
        })
    );
}

#[test]
fn any_sequence_captures_run() {
    let pattern = Pattern::new("a*c").unwrap();
    assert_eq!(
        pattern.first_match("a123c"),
        Some(Match {
            beginning_byte_index: 0,
            end_byte_index: 4,
            groups: groups(&["123"]),
        })
    );
}

#[test]
fn any_sequence_never_crosses_delimiter() {
    let pattern = Pattern::new("a*c").unwrap();
    assert_eq!(pattern.first_match("a(1)c"), None);
}

#[test]
fn any_sequence_captures_nothing() {
    let pattern = Pattern::new("a*c").unwrap();
    assert_eq!(
        pattern.first_match("ac"),
        Some(Match {
            beginning_byte_index: 0,
            end_byte_index: 1,
            groups: groups(&[""]),
        })
    );
}

#[test]
fn any_sequence_is_greedy() {
    let pattern = Pattern::new("a*").unwrap();
    assert_eq!(
        pattern.first_match("abc"),
        Some(Match {
            beginning_byte_index: 0,
            end_byte_index: 2,
            groups: groups(&["bc"]),
        })
    );
}

#[test]
fn escaped_star_matches_literally() {
    let pattern = Pattern::new("a\\*c").unwrap();
    assert_eq!(
        pattern.first_match("xa*cy"),
        Some(Match {
            beginning_byte_index: 1,
            end_byte_index: 3,
            groups: groups(&[]),
        })
    );
    assert_eq!(pattern.first_match("aXc"), None);
}

#[test]
fn stray_backslash_stays_literal() {
    let pattern = Pattern::new("\\x").unwrap();
    assert_eq!(
        pattern.first_match("a\\xb"),
        Some(Match {
            beginning_byte_index: 1,
            end_byte_index: 2,
            groups: groups(&[]),
        })
    );
}

#[test]
fn trailing_backslash_stays_literal() {
    let pattern = Pattern::new("\\").unwrap();
    assert_eq!(
        pattern.first_match("a\\b"),
        Some(Match {
            beginning_byte_index: 1,
            end_byte_index: 1,
            groups: groups(&[]),
        })
    );
}

#[test]
fn leftmost_occurrence_wins() {
    let pattern = Pattern::new("ab").unwrap();
    assert_eq!(
        pattern.first_match("xxabyyab"),
        Some(Match {
            beginning_byte_index: 2,
            end_byte_index: 3,
            groups: groups(&[]),
        })
    );
}

#[test]
fn one_group_per_wildcard() {
    let pattern = Pattern::new("a*b.c").unwrap();
    assert_eq!(
        pattern.first_match("aXbYc"),
        Some(Match {
            beginning_byte_index: 0,
            end_byte_index: 4,
            groups: groups(&["X", "Y"]),
        })
    );
}

#[test]
fn byte_indices_with_multibyte_characters() {
    let pattern = Pattern::new("w*d").unwrap();
    assert_eq!(
        pattern.first_match("héllo wörld"),
        Some(Match {
            beginning_byte_index: 7,
            end_byte_index: 12,
            groups: groups(&["örl"]),
        })
    );
}

#[test]
fn empty_pattern_matches_empty_span() {
    let pattern = Pattern::new("").unwrap();
    assert_eq!(
        pattern.first_match("xyz"),
        Some(Match {
            beginning_byte_index: 0,
            end_byte_index: 0,
            groups: groups(&[]),
        })
    );
}

#[test]
fn any_character_needs_a_character() {
    let pattern = Pattern::new(".").unwrap();
    assert_eq!(pattern.first_match(""), None);
}

#[test]
fn bare_any_sequence_takes_whole_free_run() {
    let pattern = Pattern::new("*").unwrap();
    assert_eq!(
        pattern.first_match("abc"),
        Some(Match {
            beginning_byte_index: 0,
            end_byte_index: 2,
            groups: groups(&["abc"]),
        })
    );
}

#[test]
fn three_wildcards_three_groups() {
    let pattern = Pattern::new(".*b.").unwrap();
    assert_eq!(
        pattern.first_match("xaYYbz"),
        Some(Match {
            beginning_byte_index: 0,
            end_byte_index: 5,
            groups: groups(&["x", "aYY", "z"]),
        })
    );
}

#[test]
fn empty_span_match() {
    let pattern = Pattern::new("*").unwrap();
    assert_eq!(
        pattern.first_match(""),
        Some(Match {
            beginning_byte_index: 0,
            end_byte_index: 0,
            groups: groups(&[""]),
        })
    );
    assert_eq!(
        pattern.first_match("(x)"),
        Some(Match {
            beginning_byte_index: 0,
            end_byte_index: 0,
            groups: groups(&[""]),
        })
    );
}
