use wt::dict::Dict;
use wt::tmpl::{expand, render, Vars};

fn vars(pairs: &[(&str, &str)]) -> Vars {
    let mut d = Dict::new();
    for (k, v) in pairs {
        d.insert(k.to_string(), v.to_string());
    }
    d
}

#[test]
fn replaces_known_keys() {
    let v = vars(&[("slug", "demo"), ("port.vite", "5200")]);
    assert_eq!(
        render("http://{{slug}}:{{ port.vite }}", &v),
        "http://demo:5200"
    );
}

#[test]
fn leaves_unknown_keys_alone() {
    let v = vars(&[]);
    assert_eq!(render("a {{nope}} b", &v), "a {{nope}} b");
}

#[test]
fn preserves_shell_braces() {
    let v = vars(&[]);
    assert_eq!(render("awk '{print $1}'", &v), "awk '{print $1}'");
}

#[test]
fn resolves_chained_vars() {
    let base = vars(&[("slug", "demo")]);
    let user = vars(&[
        ("host", "{{slug}}.wt.localhost"),
        ("url", "http://{{host}}"),
    ]);
    let out = expand(&base, &user);
    assert_eq!(out.get("url").unwrap(), "http://demo.wt.localhost");
}

#[test]
fn does_not_loop_on_a_cycle() {
    let user = vars(&[("a", "{{b}}"), ("b", "{{a}}")]);
    let out = expand(&Vars::new(), &user);
    assert!(out.contains_key("a"));
}

#[test]
fn text_without_placeholders_comes_back_unchanged() {
    let v = vars(&[("slug", "demo")]);
    assert_eq!(render("plain text, no braces", &v), "plain text, no braces");
    assert_eq!(render("", &v), "");
}

#[test]
fn an_unclosed_placeholder_stays_as_written() {
    let v = vars(&[("slug", "demo")]);
    assert_eq!(render("x {{slug", &v), "x {{slug");
    assert_eq!(render("{{slug}}{{slug}}", &v), "demodemo");
}

#[test]
fn expanding_keeps_every_computed_value_and_adds_every_name() {
    let base = vars(&[("slug", "demo"), ("root", "/w")]);
    let user = vars(&[("path", "{{root}}/{{slug}}")]);
    let out = expand(&base, &user);
    // A computed variable the project does not redefine comes out as it went in.
    assert_eq!(out.get("slug").unwrap(), "demo");
    assert_eq!(out.get("root").unwrap(), "/w");
    assert_eq!(out.get("path").unwrap(), "/w/demo");
    assert_eq!(out.len(), 3);
}

#[test]
fn the_project_may_redefine_a_computed_variable() {
    let base = vars(&[("slug", "demo")]);
    let user = vars(&[("slug", "other"), ("host", "{{slug}}.localhost")]);
    let out = expand(&base, &user);
    assert_eq!(out.get("slug").unwrap(), "other");
    assert_eq!(out.get("host").unwrap(), "other.localhost");
}

#[test]
fn unknown_keys_stay_even_beside_known_ones() {
    let v = vars(&[("slug", "demo")]);
    assert_eq!(render("echo {{nope}} {a} {{ slug }} {{", &v), "echo {{nope}} {a} demo {{");
    assert_eq!(render("awk '{print $1}' {{port.web}}", &v), "awk '{print $1}' {{port.web}}");
}
