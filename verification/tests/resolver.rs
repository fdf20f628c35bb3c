use glaza::title::{ResolveError, ValidatedTitle};

fn titles(v: &[&str]) -> Vec<String> {
    v.iter().map(|s| s.to_string()).collect()
}

#[test]
fn exact_match_wins_over_near_matches() {
    // "foo" is stored exactly, so other candidates containing it don't matter.
    let t = ValidatedTitle::from_pattern(&titles(&["foobar", "foo", "Foo"]), "foo").unwrap();
    assert_eq!(t.as_str(), "foo");
}

#[test]
fn resolves_tiebreak_survivor() {
    // "Foo" equals the pattern once lowercased, so the exact
    // case-insensitive rule settles this before any substring search runs.
    let t = ValidatedTitle::from_pattern(&titles(&["Foo", "foo2"]), "foo").unwrap();
    assert_eq!(t.as_str(), "Foo");
}

#[test]
fn tiebreak_keeps_the_case_sensitive_survivor() {
    // Both candidates contain "foo" case-insensitively and neither equals it,
    // so the case-sensitive tie-break runs and only "foo2" survives it.
    let t = ValidatedTitle::from_pattern(&titles(&["Foo1", "foo2"]), "foo").unwrap();
    assert_eq!(t.as_str(), "foo2");
}

#[test]
fn exact_beats_case_variant() {
    let t = ValidatedTitle::from_pattern(&titles(&["Foo", "foo"]), "foo").unwrap();
    assert_eq!(t.as_str(), "foo");
}

#[test]
fn case_insensitive_exact_returns_original_casing() {
    let t = ValidatedTitle::from_pattern(&titles(&["Breaking Bad"]), "breaking bad").unwrap();
    assert_eq!(t.as_str(), "Breaking Bad");
}

#[test]
fn substring_match_single_candidate() {
    let t = ValidatedTitle::from_pattern(&titles(&["Breaking Bad", "Mad Men"]), "king").unwrap();
    assert_eq!(t.as_str(), "Breaking Bad");
}

#[test]
fn no_match_reported() {
    let e = ValidatedTitle::from_pattern(&titles(&["Breaking Bad"]), "zzz").unwrap_err();
    assert!(matches!(e, ResolveError::NoMatch));
}

#[test]
fn ambiguous_lists_all_candidates() {
    let e = ValidatedTitle::from_pattern(&titles(&["foo1", "foo2"]), "foo").unwrap_err();
    match e {
        ResolveError::Ambiguous {
            insensitive,
            sensitive,
        } => {
            assert_eq!(insensitive, vec!["foo1".to_string(), "foo2".to_string()]);
            assert_eq!(sensitive, vec!["foo1".to_string(), "foo2".to_string()]);
        }
        _ => panic!("expected an ambiguity"),
    }
}

#[test]
fn tiebreak_that_eliminates_everything_is_ambiguous() {
    // Both contain "foo" case-insensitively, neither contains "FOO" as-is.
    let e = ValidatedTitle::from_pattern(&titles(&["foo1", "foo2"]), "FOO").unwrap_err();
    match e {
        ResolveError::Ambiguous {
            insensitive,
            sensitive,
        } => {
            assert_eq!(insensitive, vec!["foo1".to_string(), "foo2".to_string()]);
            assert!(sensitive.is_empty());
        }
        _ => panic!("expected an ambiguity"),
    }
}

#[test]
fn empty_pattern_matches_single_candidate() {
    let t = ValidatedTitle::from_pattern(&titles(&["Only Show"]), "").unwrap();
    assert_eq!(t.as_str(), "Only Show");
}

#[test]
fn empty_pattern_with_two_candidates_is_ambiguous() {
    let e = ValidatedTitle::from_pattern(&titles(&["a", "b"]), "").unwrap_err();
    assert!(matches!(e, ResolveError::Ambiguous { .. }));
}

#[test]
fn empty_candidate_set_is_no_match() {
    let e = ValidatedTitle::from_pattern(&titles(&[]), "x").unwrap_err();
    assert!(matches!(e, ResolveError::NoMatch));
}
