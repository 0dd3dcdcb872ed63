use wt::config::{Config, Project};
use wt::dict::Dict;
use wt::state::{state_path, vars, WtState};

fn project() -> Project {
    Project {
        main: "/w/acme".to_string(),
        config_path: "/w/acme/wt.toml".to_string(),
        config: Config::empty(),
        source: "up = \"run {{opt.tenants}}\"".to_string(),
    }
}

#[test]
fn the_hooks_environment_names_every_variable_in_capitals() {
    let mut st = WtState::new();
    st.ports.insert("vite".to_string(), 5200);
    st.opts.insert("queue-mode".to_string(), "1".to_string());
    let v = vars(&project(), "/w/acme-wt", "demo", &st);
    let e = wt::state::env(&v);
    assert_eq!(e.get("WT_SLUG").map(|s| s.as_str()), Some("demo"));
    assert_eq!(e.get("WT_PORT_VITE").map(|s| s.as_str()), Some("5200"));
    assert_eq!(e.get("WT_OPT_QUEUE_MODE").map(|s| s.as_str()), Some("1"));
    assert_eq!(e.get("WT_PATH").map(|s| s.as_str()), Some("/w/acme-wt/demo"));
    assert_eq!(e.get("WT_REPO").map(|s| s.as_str()), Some("acme"));
}

#[test]
fn an_option_never_given_is_blank_rather_than_a_placeholder() {
    let v = vars(&project(), "/w/acme-wt", "demo", &WtState::new());
    assert_eq!(v.get("opt.tenants").map(|s| s.as_str()), Some(""));
    assert!(v.get("opt.other").is_none());
}

#[test]
fn state_lives_next_to_the_worktrees() {
    assert_eq!(state_path("/w/acme-wt", "demo"), "/w/acme-wt/.wt/demo.toml");
}

#[test]
fn an_empty_dictionary_holds_nothing() {
    let d: Dict<String> = Dict::new();
    assert!(d.is_empty());
    assert_eq!(d.len(), 0);
}
