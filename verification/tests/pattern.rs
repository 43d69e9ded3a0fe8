use rust_grapher::pattern::{matches_any_pattern, matches_pattern};

#[test]
fn empty_matches_empty() {
    assert!(matches_pattern("", ""));
    assert!(!matches_pattern("a", ""));
}

#[test]
fn lone_star_matches_anything() {
    assert!(matches_pattern("foo", "*"));
    assert!(matches_pattern("", "*"));
    assert!(matches_pattern("anything-else.1", "*"));
}

#[test]
fn single_star_prefix_suffix() {
    assert!(matches_pattern("foobar", "foo*bar"));
    assert!(!matches_pattern("foobr", "foo*bar"));
    assert!(matches_pattern("fooXYZbar", "foo*bar"));
}

#[test]
fn single_star_no_overlap() {
    // prefix plus suffix exceeds the name's length
    assert!(!matches_pattern("a", "a*a"));
    assert!(matches_pattern("aa", "a*a"));
}

#[test]
fn two_stars_in_order() {
    assert!(matches_pattern("aXbYc", "a*b*c"));
    assert!(!matches_pattern("cab", "a*b*c"));
    assert!(matches_pattern("abc", "a*b*c"));
}

#[test]
fn multi_star_must_end_exactly() {
    // the greedy scan consumes the first `a` after `a`, leaving `a`
    // unconsumed at the end
    assert!(!matches_pattern("aabaa", "a*a*a"));
    assert!(matches_pattern("aaa", "a*a*a"));
}

#[test]
fn multi_star_trailing_star_frees_the_end() {
    assert!(matches_pattern("aXbYcZZZ", "a*b*c*"));
    assert!(matches_pattern("tauri-plugin-store", "*tauri*"));
    assert!(!matches_pattern("plugin-store", "*tauri*"));
}

#[test]
fn no_star_means_equality() {
    assert!(matches_pattern("serde", "serde"));
    assert!(!matches_pattern("serde", "serd"));
    assert!(!matches_pattern("serd", "serde"));
}

#[test]
fn first_fragment_anchored_at_start() {
    assert!(!matches_pattern("Xa-b-c", "a*b*c"));
}

#[test]
fn any_pattern_scans_the_list() {
    let pats = vec![String::from("a*"), String::from("b")];
    assert!(matches_any_pattern("abc", &pats));
    assert!(matches_any_pattern("b", &pats));
    assert!(!matches_any_pattern("c", &pats));
    let none: Vec<String> = Vec::new();
    assert!(!matches_any_pattern("x", &none));
}
