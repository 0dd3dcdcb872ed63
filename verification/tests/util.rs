use wt::util::{file_name, join, normalize};

#[test]
fn normalises_parent_segments() {
    assert_eq!(
        normalize("/home/x/project/../project-wt/demo"),
        "/home/x/project-wt/demo"
    );
}

#[test]
fn normalising_drops_dots_and_keeps_relative_paths_relative() {
    assert_eq!(normalize("/a/./b//c/"), "/a/b/c");
    assert_eq!(normalize("a/../../b"), "b");
    assert_eq!(normalize("/../x"), "/x");
}

#[test]
fn joining_follows_path_rules() {
    assert_eq!(join("/w", "demo"), "/w/demo");
    assert_eq!(join("/w/", "demo"), "/w/demo");
    assert_eq!(join("/w", "/abs"), "/abs");
}

#[test]
fn the_last_name_of_a_path() {
    assert_eq!(file_name("/w/acme").unwrap(), "acme");
    assert_eq!(file_name("/w/acme/").unwrap(), "acme");
    assert!(file_name("/").is_none());
    assert!(file_name("/w/..").is_none());
}
