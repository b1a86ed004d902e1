use declutter::states::ascii_ci_eq;
use declutter::states::normalize_us_state_index;

#[test]
fn full_names_and_abbreviations_resolve() {
    assert_eq!(normalize_us_state_index("Alabama"), Some(0));
    assert_eq!(normalize_us_state_index("AL"), Some(0));
    assert_eq!(normalize_us_state_index("california"), Some(4));
    assert_eq!(normalize_us_state_index("ca"), Some(4));
    assert_eq!(normalize_us_state_index("WYOMING"), Some(49));
}

#[test]
fn surrounding_whitespace_is_ignored() {
    assert_eq!(normalize_us_state_index("  New York  "), Some(31));
    assert_eq!(normalize_us_state_index("\tny\n"), Some(31));
}

#[test]
fn unknown_and_empty_inputs_resolve_to_nothing() {
    assert_eq!(normalize_us_state_index(""), None);
    assert_eq!(normalize_us_state_index("   "), None);
    assert_eq!(normalize_us_state_index("Atlantis"), None);
    assert_eq!(normalize_us_state_index("New"), None);
}

#[test]
fn ascii_comparison_folds_only_ascii_letters() {
    assert!(ascii_ci_eq("TeXaS", "texas"));
    assert!(!ascii_ci_eq("texas", "texas "));
    assert!(!ascii_ci_eq("a", "b"));
    assert!(ascii_ci_eq("", ""));
}
