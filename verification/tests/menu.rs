use wt::menu::{action_label, MenuItem};

#[test]
fn choice_keeps_display_and_return_value_separate() {
    let choice = MenuItem::new("machine-value", "Visible label", "detail");
    assert!(choice.text().contains("Visible label"));
    assert!(choice.text().contains("detail"));
    assert_eq!(choice.output(), "machine-value");
}

#[test]
fn skim_actions_do_not_advertise_ratatui_shortcuts() {
    assert_eq!(action_label("n · create a worktree"), "create a worktree");
    assert_eq!(action_label("plain label"), "plain label");
}

#[test]
fn a_detail_sits_in_a_second_column() {
    let item = MenuItem::new("k", "demo", "wt/demo");
    assert_eq!(item.text(), format!("{:<30} {}", "demo", "wt/demo"));
    assert_eq!(MenuItem::new("k", "demo", "").text(), "demo");
    let long = "x".repeat(35);
    assert_eq!(MenuItem::new("k", &long, "d").text(), format!("{long} d"));
}
