use wt::config::{Config, Project};
use wt::dict::Dict;
use wt::keys::{row_at, shown_lines};
use wt::ops::App;
use wt::programs::window_candidates;
use wt::show::{ls_row, port_summary, worktree_detail};

fn app(config: Config) -> App {
    App::new(Project {
        main: "/w/acme".to_string(),
        config_path: "/w/acme/wt.toml".to_string(),
        config,
        source: String::new(),
    })
    .unwrap()
}

#[test]
fn ports_are_listed_by_name() {
    let mut ports = Dict::new();
    ports.insert("web".to_string(), 8001);
    ports.insert("db".to_string(), 5433);
    assert_eq!(port_summary(&ports), "db:5433 web:8001");
    assert_eq!(port_summary(&Dict::new()), "");
}

#[test]
fn ls_columns_line_up_and_empty_ones_vanish() {
    assert_eq!(ls_row("SLUG", "BRANCH", None, None), format!("{:<20} {}", "SLUG", "BRANCH"));
    assert_eq!(
        ls_row("demo", "wt/demo", Some("started"), Some("web:8001")),
        format!("{:<20} {:<28} {:<10} {}", "demo", "wt/demo", "started", "web:8001")
    );
    assert_eq!(ls_row("demo", "main", Some("stopped"), None), format!("{:<20} {:<28} stopped", "demo", "main"));
}

#[test]
fn a_menu_detail_adds_state_and_ports_to_the_branch() {
    assert_eq!(worktree_detail("main", None, ""), "main");
    assert_eq!(worktree_detail("main", Some("started"), ""), "main  ·  started");
    assert_eq!(worktree_detail("main", None, "web:8001"), "main  ·  web:8001");
    assert_eq!(worktree_detail("main", Some("stopped"), "web:8001"), "main  ·  stopped  ·  web:8001");
}

#[test]
fn editors_named_come_first_once_each() {
    let mut c = Config::empty();
    c.editor.command = Some("code".to_string());
    let list = app(c).editor_candidates(Some("zed".to_string()), Some(String::new()));
    assert_eq!(&list[..4], &["zed", "code", "phpstorm", "pstorm"]);
    assert_eq!(list.iter().filter(|e| *e == "code").count(), 1);
    assert_eq!(list.iter().filter(|e| *e == "zed").count(), 1);
    assert_eq!(list.len(), 10);
}

#[test]
fn a_blank_window_name_means_this_terminal() {
    let a = app(Config::empty());
    assert_eq!(a.named_window(None), None);
    assert_eq!(a.named_window(Some("  ".to_string())), Some(None));
    assert_eq!(a.named_window(Some("kitty".to_string())), Some(Some("kitty".to_string())));
    let mut c = Config::empty();
    c.editor.terminal_window = Some("foot".to_string());
    assert_eq!(app(c).named_window(None), Some(Some("foot".to_string())));
}

#[test]
fn windows_terminal_is_tried_first_under_wsl() {
    let wsl = window_candidates(true, false);
    assert_eq!(wsl[0], "wt.exe");
    assert_eq!(wsl.last().unwrap(), "xterm");
    let mac = window_candidates(false, true);
    assert!(!mac.iter().any(|b| b == "wt.exe"));
    assert_eq!(mac[mac.len() - 3], "osascript");
    assert_eq!(window_candidates(false, false).len(), 10);
}

#[test]
fn the_output_panel_follows_the_tail_unless_scrolled() {
    assert_eq!(shown_lines(100, 0, 10), (90, 100));
    assert_eq!(shown_lines(100, 5, 10), (85, 95));
    assert_eq!(shown_lines(5, 0, 10), (0, 5));
    assert_eq!(shown_lines(5, 9, 10), (0, 0));
}

#[test]
fn a_click_finds_its_row_inside_the_borders() {
    assert_eq!(row_at(2, 10, 0, 2), None);
    assert_eq!(row_at(2, 10, 0, 3), Some(0));
    assert_eq!(row_at(2, 10, 4, 5), Some(6));
    assert_eq!(row_at(2, 10, 0, 10), Some(7));
    assert_eq!(row_at(2, 10, 0, 11), None);
}
