use wt::config::{Ask, Config, Project, Prompt, PromptKind, PromptOption};
use wt::flow::{base_rows, branch_rows, prompt_rows, submit, suggested_slug, Deferred, Next, Pending, PickKind};
use wt::git::BranchInfo;
use wt::ops::App;
use wt::picker::{Choice, Picker};

fn app() -> App {
    App::new(Project {
        main: "/w/acme".to_string(),
        config_path: "/w/acme/wt.toml".to_string(),
        config: Config::empty(),
        source: String::new(),
    })
    .unwrap()
}

fn row(key: &str, disabled: bool, checked: bool) -> Choice {
    Choice { key: key.to_string(), label: key.to_string(), detail: String::new(), disabled, checked }
}

fn branch(name: &str, used: bool) -> BranchInfo {
    BranchInfo {
        name: name.to_string(),
        date: "2 days ago".to_string(),
        subject: "fix".to_string(),
        used_by: if used { Some("/w/other".to_string()) } else { None },
    }
}

fn question(kind: PromptKind, default: Option<&str>) -> Prompt {
    Prompt {
        name: "tenants".to_string(),
        question: String::new(),
        kind,
        ask: Ask::Up,
        options: Vec::new(),
        source: None,
        default: default.map(str::to_string),
        separator: ",".to_string(),
        when: None,
        always: false,
    }
}

fn option(value: &str, label: &str) -> PromptOption {
    PromptOption { value: value.to_string(), label: label.to_string(), detail: String::new() }
}

#[test]
fn a_new_branch_asks_where_it_starts_and_an_existing_one_asks_the_slug() {
    let a = app();
    let mut p = Picker::new("branch".to_string(), vec![row("__new__", false, false), row("feat", false, false)], PickKind::Branch, false);
    assert!(matches!(submit(&a, &p, None), Next::AskBase));
    p.move_by(1);
    match submit(&a, &p, None) {
        Next::AskSlug { branch, from } => {
            assert_eq!(branch.as_deref(), Some("feat"));
            assert!(from.is_none());
        }
        other => panic!("unexpected {other:?}"),
    }
}

#[test]
fn a_branch_checked_out_elsewhere_is_refused() {
    let p = Picker::new("branch".to_string(), vec![row("main", true, false)], PickKind::Branch, false);
    assert!(matches!(submit(&app(), &p, None), Next::Taken));
}

#[test]
fn a_start_point_asks_the_slug_of_a_new_branch() {
    let p = Picker::new("base".to_string(), vec![row("dev", false, false)], PickKind::BranchBase, false);
    match submit(&app(), &p, None) {
        Next::AskSlug { branch, from } => {
            assert!(branch.is_none());
            assert_eq!(from.as_deref(), Some("dev"));
        }
        other => panic!("unexpected {other:?}"),
    }
}

#[test]
fn ticked_answers_are_joined_even_under_a_filter_that_hides_them() {
    let kind = PickKind::Prompt { name: "tenants".to_string(), separator: ",".to_string() };
    let mut p = Picker::new("q".to_string(), vec![row("acme", false, true), row("globex", false, false), row("initech", false, true)], kind, true);
    assert!(p.can_filter("zzz"));
    p.set_filter("zzz".to_string());
    match submit(&app(), &p, None) {
        Next::Answer { name, value } => {
            assert_eq!(name, "tenants");
            assert_eq!(value, "acme,initech");
        }
        other => panic!("unexpected {other:?}"),
    }
}

#[test]
fn enter_with_nothing_under_the_cursor_keeps_the_picker() {
    let kind = PickKind::Prompt { name: "db".to_string(), separator: ",".to_string() };
    let mut p = Picker::new("q".to_string(), vec![row("shared", false, false)], kind, false);
    p.set_filter("zzz".to_string());
    assert!(matches!(submit(&app(), &p, None), Next::Stay));
    let mut t = Picker::new("task".to_string(), vec![row("test", false, false)], PickKind::Task, false);
    t.set_filter("zzz".to_string());
    assert!(matches!(submit(&app(), &t, Some("demo")), Next::Stay));
}

#[test]
fn worktree_actions_need_a_selected_worktree() {
    let p = Picker::new("task".to_string(), vec![row("test", false, false)], PickKind::Task, false);
    assert!(matches!(submit(&app(), &p, None), Next::Nothing));
    match submit(&app(), &p, Some("demo")) {
        Next::RunTask { task, slug, interactive } => {
            assert_eq!(task, "test");
            assert_eq!(slug, "demo");
            assert!(!interactive);
        }
        other => panic!("unexpected {other:?}"),
    }
    let e = Picker::new("editor".to_string(), vec![row("code", false, false), row("nvim", false, false)], PickKind::Editor, false);
    assert!(matches!(submit(&app(), &e, Some("demo")), Next::Editor { offer_terminal: true, .. }));
    let mut e = e;
    e.move_by(1);
    assert!(matches!(submit(&app(), &e, Some("demo")), Next::Editor { offer_terminal: false, .. }));
}

#[test]
fn a_question_offers_its_options_with_the_default_ticked_or_under_the_cursor() {
    let options = vec![option("a", "Alpha"), option("b", ""), option("c", "Gamma")];
    let (rows, sel) = prompt_rows(&question(PromptKind::Multi, Some("c, a")), options);
    let labels: Vec<&str> = rows.iter().map(|c| c.label.as_str()).collect();
    assert_eq!(labels, vec!["Alpha", "b", "Gamma"]);
    let ticked: Vec<bool> = rows.iter().map(|c| c.checked).collect();
    assert_eq!(ticked, vec![true, false, true]);
    assert!(sel.is_none());

    let options = vec![option("a", "Alpha"), option("b", ""), option("c", "Gamma")];
    let (rows, sel) = prompt_rows(&question(PromptKind::Choice, Some("b")), options);
    assert!(rows.iter().all(|c| !c.checked));
    assert_eq!(sel, Some(1));
}

#[test]
fn branches_are_offered_after_a_new_one_and_taken_ones_are_greyed() {
    let rows = branch_rows(&vec![branch("main", true), branch("feat", false)], "new branch", "hint", "taken", "  ");
    assert_eq!(rows.len(), 3);
    assert_eq!(rows[0].key, "__new__");
    assert_eq!(rows[1].label, "⊘ main");
    assert_eq!(rows[1].detail, "taken");
    assert!(rows[1].disabled);
    assert_eq!(rows[2].label, "  feat");
    assert_eq!(rows[2].detail, "2 days ago · fix");
    assert!(!rows[2].disabled);
    let plain = branch_rows(&vec![branch("feat", false)], "new branch", "hint", "taken", "");
    assert_eq!(plain[1].label, "feat");
}

#[test]
fn the_main_repository_head_is_marked_and_found() {
    let (rows, at) = base_rows(&vec![branch("feat", true), branch("main", false)], "main", "HEAD here", "  ");
    assert_eq!(at, Some(1));
    assert_eq!(rows[1].label, "● main");
    assert_eq!(rows[1].detail, "HEAD here · 2 days ago · fix");
    assert_eq!(rows[0].label, "  feat");
    assert!(!rows[0].disabled);
    let (_, none) = base_rows(&vec![branch("feat", false)], "main", "HEAD here", "");
    assert!(none.is_none());
}

#[test]
fn a_remote_branch_suggests_its_short_name_as_slug() {
    assert_eq!(suggested_slug("origin/Feature_X"), "feature-x");
    assert_eq!(suggested_slug("origin/origin/fix"), "fix");
    assert_eq!(suggested_slug("wt/demo"), "wt-demo");
}

#[test]
fn questions_already_answered_are_not_asked_again() {
    let mut c = Config::empty();
    c.prompts.push(question(PromptKind::Multi, None));
    let mut db = question(PromptKind::Choice, Some("shared"));
    db.name = "db".to_string();
    c.prompts.push(db);
    let a = App::new(Project {
        main: "/w/acme".to_string(),
        config_path: "/w/acme/wt.toml".to_string(),
        config: c,
        source: String::new(),
    })
    .unwrap();
    let mut known = wt::dict::Dict::new();
    known.insert("tenants".to_string(), "acme".to_string());
    let mut p = Pending::new(&a, Deferred::Up, "demo".to_string(), known);
    assert_eq!(p.phase(), Ask::Up);
    let q = p.next_question().unwrap();
    assert_eq!(q.name, "db");
    assert!(p.next_question().is_none());
    p.answer("db".to_string(), "isolated".to_string());
    assert_eq!(p.sets(), vec!["db=isolated", "tenants=acme"]);
}
