
fn score(query: &str, text: &str) -> Option<i32> {
    wt::fuzzy::matches(query, text).map(|m| m.score)
}

#[test]
fn matches_a_subsequence_anywhere() {
    assert!(score("acme", "tenant acme (prod)").is_some());
    assert!(score("tnt", "tenant").is_some());
    assert!(score("zz", "tenant acme").is_none());
    // Order matters: the letters must appear in the typed order.
    assert!(score("emca", "acme").is_none());
}

#[test]
fn ignores_case_and_accents_length() {
    assert!(score("SOCI", "société acme").is_some());
    let m = wt::fuzzy::matches("soci", "Société").unwrap();
    assert_eq!(m.positions, vec![0, 1, 2, 3]);
}

#[test]
fn a_run_beats_scattered_letters() {
    assert!(score("abc", "abcdef") > score("abc", "axbxcx"));
}

#[test]
fn a_word_start_beats_the_middle_of_a_word() {
    assert!(score("acme", "prod-acme") > score("acme", "prodacme"));
    assert!(score("bar", "foo bar") > score("bar", "foobar"));
}

#[test]
fn an_equally_good_match_scores_the_same() {
    assert_eq!(score("acme", "acme-prod"), score("acme", "prod-acme"));
    assert_eq!(wt::fuzzy::matches("acme", "acme-prod").unwrap().positions[0], 0);
    assert_eq!(wt::fuzzy::matches("acme", "prod-acme").unwrap().positions[0], 5);
}

#[test]
fn every_space_separated_term_must_match() {
    assert!(score("acme prod", "prod · tenant acme").is_some());
    assert!(score("acme staging", "prod · tenant acme").is_none());
}

#[test]
fn positions_point_at_the_matched_characters() {
    let m = wt::fuzzy::matches("ac", "tenant acme").unwrap();
    assert_eq!(m.positions, vec![7, 8]);
    // Two terms: the union of both, sorted.
    let m = wt::fuzzy::matches("me te", "tenant acme").unwrap();
    assert_eq!(m.positions, vec![0, 1, 9, 10]);
}

#[test]
fn an_empty_query_matches_everything() {
    let m = wt::fuzzy::matches("   ", "anything").unwrap();
    assert_eq!(m.score, 0);
    assert!(m.positions.is_empty());
}

#[test]
fn camel_and_digits_are_boundaries() {
    assert!(score("prod", "acmeProd") > score("prod", "acmeprod"));
    assert!(score("2", "acme2") > score("2", "12"));
}

#[test]
fn a_query_matches_exactly_when_each_term_is_a_subsequence() {
    // Every letter of every term, in order, somewhere in the text.
    assert!(score("tn ac", "tenant acme").is_some());
    assert!(score("tn ca", "tenant acme").is_none());
    assert_eq!(score("", "").unwrap(), 0);
}

#[test]
fn an_exact_word_start_scores_sixteen_a_letter_plus_bonuses() {
    // One letter at the start of the text: a match (16), a word start (8) counted
    // double as the first letter of the query.
    assert_eq!(score("a", "a"), Some(16 + 8 * 2));
}

#[test]
fn highlighted_positions_fall_on_query_letters_inside_the_text() {
    let text = "Fix-Auth service";
    let m = wt::fuzzy::matches("fa SV", text).unwrap();
    let chars: Vec<char> = text.chars().collect();
    assert!(!m.positions.is_empty());
    for p in &m.positions {
        assert!(*p < chars.len());
        let c = chars[*p].to_lowercase().next().unwrap();
        assert!("fasv".contains(c));
    }
    assert!(m.positions.windows(2).all(|w| w[0] < w[1]));
}
