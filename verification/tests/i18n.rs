use wt::i18n::{detect, language};

fn some(s: &str) -> Option<String> {
    Some(s.to_string())
}

#[test]
fn the_language_part_of_a_locale() {
    assert_eq!(language("fr_BE.UTF-8"), "fr");
    assert_eq!(language("FR"), "fr");
    assert_eq!(language("de@euro"), "de");
}

#[test]
fn the_most_explicit_variable_naming_an_available_language_wins() {
    let available = vec!["en".to_string(), "fr".to_string()];
    assert_eq!(detect(&vec![None, some("fr_BE.UTF-8"), None, some("en_US")], &available), "fr");
    assert_eq!(detect(&vec![some("de"), None, None, some("fr")], &available), "fr");
    assert_eq!(detect(&vec![some("C"), some("POSIX"), None, None], &available), "en");
    assert_eq!(detect(&vec![None, None, None, None], &available), "en");
}

#[test]
fn the_first_available_language_is_picked_from_lowered_values() {
    let available = vec!["en".to_string(), "fr".to_string()];
    let l = |s: &str| Some(s.to_string());
    assert_eq!(wt::i18n::pick_language(&vec![None, l("de"), l("fr"), l("en")], &available), "fr");
    assert_eq!(wt::i18n::pick_language(&vec![l("c"), l("posix"), l(""), None], &available), "en");
    assert_eq!(wt::i18n::pick_language(&Vec::new(), &available), "en");
}
