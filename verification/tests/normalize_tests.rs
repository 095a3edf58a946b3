use normalize_country::normalize_name;

#[test]
fn deterministic_on_same_input() {
    let a = normalize_name("  United  Kingdom ");
    let b = normalize_name("  United  Kingdom ");
    assert_eq!(a, b);
    assert_eq!(a, "united kingdom");
}

#[test]
fn total_on_arbitrary_unicode() {
    // Never panics, whatever scalar values come in.
    assert_eq!(normalize_name(""), "");
    let _ = normalize_name("\u{1F1FA}\u{1F1F8} caf\u{e9} \u{3000}\t\n");
    let _ = normalize_name("\u{0130}stanbul \u{03A3}");
    let _ = normalize_name("~!?,&(){}[]");
}

#[test]
fn case_folding() {
    assert_eq!(normalize_name("USA"), "usa");
    assert_eq!(normalize_name("uSa"), "usa");
    assert_eq!(normalize_name("GERMANY"), normalize_name("germany"));
}

#[test]
fn abbreviation_expansion_equivalence() {
    // "U.S.A." expands to the same key as the spelled-out official name with
    // its leading stop word dropped.
    assert_eq!(normalize_name("U.S.A."), "united states of america");
    assert_eq!(
        normalize_name("U.S.A."),
        normalize_name("the United States of America")
    );
    assert_eq!(normalize_name("U.S."), "united states");
}

#[test]
fn saint_rewrite() {
    assert_eq!(normalize_name("St. Lucia"), normalize_name("Saint Lucia"));
    assert_eq!(normalize_name("St. Lucia"), "saint lucia");
}

#[test]
fn stop_words_dropped() {
    assert_eq!(normalize_name("the Gambia"), "gambia");
    assert_eq!(normalize_name("Islas Malvinas"), "malvinas");
    assert_eq!(
        normalize_name("United States Minor Outlying Islands"),
        "united states outlying islands"
    );
}

#[test]
fn ampersand_becomes_and() {
    assert_eq!(normalize_name("&"), "and");
    assert_eq!(normalize_name("Bosnia & Herzegovina"), "bosnia and herzegovina");
    assert_eq!(normalize_name("Bosnia&Herzegovina"), "bosnia and herzegovina");
}

#[test]
fn punctuation_set_splits_tokens() {
    // Characters of the bracket set form their own tokens and are dropped.
    assert_eq!(normalize_name("Congo (Kinshasa)"), "congo kinshasa");
    assert_eq!(normalize_name("Korea, South"), "korea south");
    assert_eq!(normalize_name("[Venezuela]"), "venezuela");
    assert_eq!(normalize_name("Iran {Islamic Republic}"), "iran islamic republic");
    assert_eq!(normalize_name("really?~!"), "really");
}

#[test]
fn single_punctuation_dropped() {
    assert_eq!(normalize_name("."), "");
    assert_eq!(normalize_name("? ! ~"), "");
    assert_eq!(normalize_name("a . b"), "a b");
}

#[test]
fn empty_and_whitespace_inputs() {
    assert_eq!(normalize_name(""), "");
    assert_eq!(normalize_name("   "), "");
    assert_eq!(normalize_name("\t\n\u{a0}\u{3000}"), "");
}

#[test]
fn dots_stay_inside_words() {
    // Dots are not separators, so unknown dotted words pass through verbatim.
    assert_eq!(normalize_name("u.k."), "u.k.");
    assert_eq!(normalize_name("  A.B.  "), "a.b.");
}

#[test]
fn expansion_inside_longer_names() {
    assert_eq!(normalize_name("U.S. Virgin Islands"), "united states virgin islands");
    assert_eq!(normalize_name("St. Kitts & Nevis"), "saint kitts and nevis");
}

#[test]
fn single_characters_kept() {
    assert_eq!(normalize_name("a"), "a");
    assert_eq!(normalize_name("7"), "7");
    assert_eq!(normalize_name("x y z"), "x y z");
}
