use wt::config::{Ask, Config, Project, Prompt, PromptKind, PromptOption};
use wt::dict::Dict;
use wt::error::Error;
use wt::ops::{
    alloc_port, current_shell_name, ide_path, is_terminal_editor, is_windows_exe, is_yes,
    parse_sets, quote, shell_quote, slugify, split_values, terminal_app_argv, validate_slug,
    which_answer, window_argv, App, Link,
};
use wt::state::{Worktree, WtState};

fn demo_env() -> Dict<String> {
    let mut d = Dict::new();
    d.insert("WT_SLUG".to_string(), "demo".to_string());
    d
}

fn project(config: Config) -> Project {
    Project {
        main: "/w/acme".to_string(),
        config_path: "/w/acme/wt.toml".to_string(),
        config,
        source: String::new(),
    }
}

fn app(config: Config) -> App {
    App::new(project(config)).unwrap()
}

fn prompt(name: &str, kind: PromptKind) -> Prompt {
    Prompt {
        name: name.to_string(),
        question: String::new(),
        kind,
        ask: Ask::Up,
        options: Vec::new(),
        source: None,
        default: None,
        separator: ",".to_string(),
        when: None,
        always: false,
    }
}

#[test]
fn validates_slugs() {
    assert!(validate_slug("refonte-devis").is_ok());
    assert!(validate_slug("Refonte").is_err());
    assert!(validate_slug("-x").is_err());
    assert!(validate_slug("").is_err());
}

#[test]
fn slugifies_branches() {
    assert_eq!(slugify("feature/Refonte_Devis"), "feature-refonte-devis");
    assert_eq!(slugify("origin/fix--pdf"), "origin-fix-pdf");
}

#[test]
fn parses_set_options() {
    let m = parse_sets(&["tenants=a,b".into(), "queue=1".into()]).unwrap();
    assert_eq!(m.get("tenants").unwrap(), "a,b");
    assert_eq!(m.get("queue").unwrap(), "1");
    assert!(parse_sets(&["oups".into()]).is_err());
}

#[test]
fn a_terminal_window_opens_on_the_worktree() {
    let dir = "/w/demo";
    let env = demo_env();

    // Under WSL the emulator is a Windows process: the Linux path and the variables
    // are wsl.exe's business.
    assert_eq!(
        window_argv("wt.exe", dir, "fish", &env),
        [
            "new-tab",
            "wsl.exe",
            "--cd",
            "/w/demo",
            "-e",
            "env",
            "WT_SLUG=demo",
            "fish"
        ]
    );
    assert_eq!(
        window_argv("/usr/bin/kitty", dir, "fish", &env),
        ["--directory", "/w/demo", "env", "WT_SLUG=demo", "fish"]
    );
    assert_eq!(
        window_argv("gnome-terminal", dir, "bash", &env),
        [
            "--working-directory=/w/demo",
            "--",
            "env",
            "WT_SLUG=demo",
            "bash"
        ]
    );
    // Unknown — xterm, or a command named in the wt.toml: the `-e` convention, the
    // directory coming from the cwd the emulator is started in.
    assert_eq!(
        window_argv("xterm", dir, "sh", &env),
        ["-e", "env", "WT_SLUG=demo", "sh"]
    );
}

#[test]
fn terminal_app_is_told_in_its_own_language() {
    let mut env = Dict::new();
    env.insert("WT_PATH".to_string(), "/w/a b".to_string());
    let argv = terminal_app_argv("/w/a b", "zsh", &env);
    assert_eq!(argv[0], "-e");
    assert!(argv[1].contains(r"cd '/w/a b' && exec env WT_PATH='/w/a b' zsh"));
    assert!(argv[1].starts_with("tell application \"Terminal\""));
}

#[test]
fn every_slug_error_names_the_slug() {
    match validate_slug("Bad") {
        Err(Error::InvalidSlug(s)) => assert_eq!(s, "Bad"),
        other => panic!("unexpected {other:?}"),
    }
    assert!(validate_slug("a-").is_err());
    assert!(validate_slug("a1-b2").is_ok());
}

#[test]
fn a_slugified_branch_is_a_valid_slug() {
    for b in ["feature/Refonte_Devis", "origin/fix--pdf", "WIP: a b c", "x"] {
        let s = slugify(b);
        assert!(validate_slug(&s).is_ok(), "{b} -> {s}");
    }
    // Forty characters at most.
    assert_eq!(slugify(&"a".repeat(60)).len(), 40);
}

#[test]
fn a_set_without_equals_is_named() {
    match parse_sets(&["a=1".into(), "oups".into(), "b".into()]) {
        Err(Error::BadSet(v)) => assert_eq!(v, "oups"),
        other => panic!("unexpected {:?}", other.map(|d| d.len())),
    }
    // The key is trimmed, the value kept as written; a later value wins.
    let m = parse_sets(&[" k =v ".into(), "k=w=x".into()]).unwrap();
    assert_eq!(m.get("k").unwrap(), "w=x");
    assert_eq!(m.len(), 1);
}

#[test]
fn quoting_survives_single_quotes() {
    assert_eq!(quote("it's"), r"'it'\''s'");
    assert_eq!(shell_quote("/w/a b"), "'/w/a b'");
}

#[test]
fn terminal_editors_are_known_by_name() {
    assert!(is_terminal_editor("/usr/bin/nvim"));
    assert!(is_terminal_editor("hx"));
    assert!(!is_terminal_editor("code"));
}

#[test]
fn a_yes_is_y_or_o() {
    assert!(is_yes(" y\n"));
    assert!(is_yes("O"));
    assert!(!is_yes("yes"));
    assert!(!is_yes(""));
}

#[test]
fn the_answer_picks_a_line() {
    assert_eq!(which_answer("\n", 3), Some(0));
    assert_eq!(which_answer(" 2 ", 3), Some(1));
    assert_eq!(which_answer("+3", 3), Some(2));
    assert_eq!(which_answer("4", 3), None);
    assert_eq!(which_answer("0", 3), None);
    assert_eq!(which_answer("x", 3), None);
    assert_eq!(which_answer("99999999999999999999999", 3), None);
}

#[test]
fn skips_reserved_ports() {
    let p = alloc_port(45123, &[45123, 45124], &|_p: u16| true).unwrap();
    assert!(p >= 45125);
    assert_eq!(p, 45125);
}

#[test]
fn a_busy_port_is_skipped_and_the_last_one_can_run_out() {
    let p = alloc_port(5000, &[], &|p: u16| p > 5001).unwrap();
    assert_eq!(p, 5002);
    match alloc_port(65534, &[65535], &|p: u16| p != 65534) {
        Err(Error::NoFreePort(b)) => assert_eq!(b, 65534),
        other => panic!("unexpected {other:?}"),
    }
}

#[test]
fn shells_are_named_for_the_init_line() {
    assert_eq!(current_shell_name(Some("/usr/bin/zsh")), "zsh");
    assert_eq!(current_shell_name(Some("/bin/tcsh")), "bash");
    assert_eq!(current_shell_name(None), "bash");
}

#[test]
fn a_windows_editor_gets_the_converted_path() {
    assert!(is_windows_exe("Code.EXE"));
    assert!(!is_windows_exe("code"));
    assert_eq!(ide_path("/w/demo", Some(r"\\wsl$\w\demo")), r"\\wsl$\w\demo");
    assert_eq!(ide_path("/w/demo", Some("")), "/w/demo");
    assert_eq!(ide_path("/w/demo", None), "/w/demo");
}

#[test]
fn multi_values_are_split_trimmed_and_kept_when_not_empty() {
    assert_eq!(split_values("a, b,,c ", ","), ["a", "b", "c"]);
    assert_eq!(split_values("a || b", "||"), ["a", "b"]);
    assert_eq!(split_values("", ","), Vec::<String>::new());
}

#[test]
fn an_empty_project_offers_shell_editor_and_removal() {
    let a = app(Config::empty());
    assert_eq!(a.actions(), ["shell", "ide", "rm"]);
    assert_eq!(a.root, "/w/acme-wt");
    assert_eq!(a.dir("demo"), "/w/acme-wt/demo");
}

#[test]
fn a_yes_no_question_offers_yes_and_no() {
    let a = app(Config::empty());
    let p = prompt("queue", PromptKind::Confirm);
    let c = a.prompt_choices(&p, "");
    assert_eq!(c.len(), 2);
    assert_eq!((c[0].value.as_str(), c[0].label.as_str()), ("1", "oui"));
    assert_eq!((c[1].value.as_str(), c[1].label.as_str()), ("0", "non"));
}

#[test]
fn computed_choices_come_one_per_line() {
    let a = app(Config::empty());
    let mut p = prompt("tenants", PromptKind::Multi);
    p.source = Some("list-tenants".to_string());
    let out = "acme\tAcme Corp\tprod\n\n  \n globex \t\n\tno value\nwith\ttabs\tin\tdetail\n";
    let c = a.prompt_choices(&p, out);
    let got: Vec<(&str, &str, &str)> = c
        .iter()
        .map(|o| (o.value.as_str(), o.label.as_str(), o.detail.as_str()))
        .collect();
    assert_eq!(
        got,
        [
            ("acme", "Acme Corp", "prod"),
            ("globex", "", ""),
            ("with", "tabs", "in\tdetail")
        ]
    );
    // Fixed choices come back as declared.
    let mut q = prompt("db", PromptKind::Choice);
    q.options = vec![PromptOption {
        value: "shared".to_string(),
        label: "Shared".to_string(),
        detail: String::new(),
    }];
    assert_eq!(a.prompt_choices(&q, "ignored")[0].value, "shared");
}

#[test]
fn a_question_without_a_condition_always_applies() {
    let a = app(Config::empty());
    let mut p = prompt("x", PromptKind::Text);
    assert!(a.prompt_applies(&p, false));
    p.when = Some("test -n \"$WT_OPT_Y\"".to_string());
    assert!(!a.prompt_applies(&p, false));
    assert!(a.prompt_applies(&p, true));
    let probe = a
        .prompt_condition(&p, "demo", &Dict::new(), Ask::New, WtState::new(), false)
        .unwrap();
    // Nothing checked out yet: the command runs in the main repository.
    assert_eq!(probe.cwd, "/w/acme");
    assert_eq!(probe.vars.get("phase").unwrap(), "new");
    assert_eq!(probe.env.get("WT_PHASE").unwrap(), "new");
}

#[test]
fn the_main_address_comes_first_and_listed_ones_follow() {
    let mut c = Config::empty();
    c.open.url = Some("http://{{slug}}.localhost".to_string());
    c.open.source = Some("list-urls".to_string());
    let a = app(c);
    let links: Vec<Link> = a.links("demo", &WtState::new(), "http://a.demo\tAcme\nhttp://b.demo\n\n");
    let got: Vec<(&str, &str)> = links.iter().map(|l| (l.url.as_str(), l.label.as_str())).collect();
    assert_eq!(
        got,
        [
            ("http://demo.localhost", "application"),
            ("http://a.demo", "Acme"),
            ("http://b.demo", "http://b.demo")
        ]
    );
    // Opening: the first by default, a full URL as given, otherwise a fragment.
    assert_eq!(a.cmd_open("demo", &links, None, false).unwrap().unwrap(), "http://demo.localhost");
    assert_eq!(a.cmd_open("demo", &links, Some("https://x"), false).unwrap().unwrap(), "https://x");
    assert_eq!(a.cmd_open("demo", &links, Some("Acme"), false).unwrap().unwrap(), "http://a.demo");
    assert!(a.cmd_open("demo", &links, None, true).unwrap().is_none());
    match a.cmd_open("demo", &links, Some("zzz"), false) {
        Err(Error::NoMatchingUrl { target, slug }) => assert_eq!((target.as_str(), slug.as_str()), ("zzz", "demo")),
        other => panic!("unexpected {other:?}"),
    }
    match a.cmd_open("demo", &Vec::new(), None, false) {
        Err(Error::NoUrl(p)) => assert_eq!(p, "/w/acme/wt.toml"),
        other => panic!("unexpected {other:?}"),
    }
}

#[test]
fn an_incomplete_address_is_not_shown() {
    let mut c = Config::empty();
    c.open.url = Some("http://localhost:{{port.web}}".to_string());
    let a = app(c);
    assert!(a.endpoint_url("demo", &WtState::new()).is_none());
    assert!(a.links("demo", &WtState::new(), "").is_empty());
}

#[test]
fn an_exact_slug_wins_and_fuzzy_ones_come_best_first() {
    let a = app(Config::empty());
    let slugs: Vec<String> = ["fix", "fix-auth", "auth-service", "docs"].iter().map(|s| s.to_string()).collect();
    assert_eq!(a.choose_slug(&slugs, Some("fix")).unwrap(), ["fix"]);
    // Two word starts score the same: the list order breaks the tie.
    assert_eq!(a.choose_slug(&slugs, Some("auth")).unwrap(), ["fix-auth", "auth-service"]);
    assert_eq!(a.choose_slug(&slugs, Some("fxa")).unwrap(), ["fix-auth"]);
    assert_eq!(a.choose_slug(&slugs, None).unwrap().len(), 4);
    match a.choose_slug(&slugs, Some("zzz")) {
        Err(Error::UnknownWorktree(p)) => assert_eq!(p, "zzz"),
        other => panic!("unexpected {other:?}"),
    }
    match a.choose_slug(&Vec::new(), Some("x")) {
        Err(Error::NoWorktrees(r)) => assert_eq!(r, "/w/acme-wt"),
        other => panic!("unexpected {other:?}"),
    }
}

#[test]
fn ports_once_given_stay_and_new_ones_avoid_the_taken() {
    let mut c = Config::empty();
    c.ports.insert("web".to_string(), wt::config::PortSpec { base: 5000, allocate: wt::config::Allocate::Up });
    c.ports.insert("db".to_string(), wt::config::PortSpec { base: 5000, allocate: wt::config::Allocate::Up });
    c.ports.insert("ssh".to_string(), wt::config::PortSpec { base: 6000, allocate: wt::config::Allocate::New });
    let a = app(c);
    let mut st = WtState::new();
    st.ports.insert("web".to_string(), 5003);
    let changed = a.allocate_ports(&mut st, wt::config::Allocate::Up, &vec![5000], &|_p: u16| true).unwrap();
    assert!(changed);
    assert_eq!(*st.ports.get("web").unwrap(), 5003);
    assert_eq!(*st.ports.get("db").unwrap(), 5001);
    assert!(st.ports.get("ssh").is_none());
    // A second start gives nothing out.
    let again = a.allocate_ports(&mut st, wt::config::Allocate::Up, &vec![5000], &|_p: u16| true).unwrap();
    assert!(!again);
}

#[test]
fn a_task_runs_with_its_arguments() {
    let mut c = Config::empty();
    c.tasks.insert(
        "hello".to_string(),
        wt::config::Task {
            description: String::new(),
            run: wt::config::Commands(vec!["echo hello-{{slug}}-{{args}}".to_string()]),
            cwd: wt::config::Cwd::Worktree,
            interactive: false,
            prompt: Vec::new(),
        },
    );
    let a = app(c);
    let run = a.cmd_run("hello", "demo", &WtState::new(), &["x".to_string(), "y".to_string()]).unwrap();
    assert_eq!(run.commands, ["echo hello-demo-x y"]);
    assert_eq!(run.cwd, "/w/acme-wt/demo");
    assert_eq!(run.env.get("WT_ARGS").unwrap(), "x y");
    match a.cmd_run("nope", "demo", &WtState::new(), &[]) {
        Err(Error::UnknownTask(t)) => assert_eq!(t, "nope"),
        other => panic!("unexpected {:?}", other.map(|r| r.commands)),
    }
}

#[test]
fn a_new_worktree_is_checked_before_anything_is_created() {
    let a = app(Config::empty());
    assert!(matches!(a.cmd_new("Bad", &[], false), Err(Error::InvalidSlug(_))));
    match a.cmd_new("demo", &[], true) {
        Err(Error::DirExists(d)) => assert_eq!(d, "/w/acme-wt/demo"),
        other => panic!("unexpected {:?}", other.map(|s| s.branch)),
    }
    assert!(matches!(a.cmd_new("demo", &["oups".into()], false), Err(Error::BadSet(_))));
    let st = a.cmd_new("demo", &["q=1".into()], false).unwrap();
    assert_eq!(st.opts.get("q").unwrap(), "1");
    assert_eq!(a.new_branch("demo", None, &st), "wt/demo");
    assert_eq!(a.new_branch("demo", Some("feat/x"), &st), "feat/x");
}

#[test]
fn a_status_probe_runs_where_the_worktree_is() {
    let mut c = Config::empty();
    c.status.up = Some("test -f .up-{{slug}}".to_string());
    let a = app(c);
    let wt = Worktree { slug: "demo".to_string(), path: "/w/acme-wt/demo".to_string(), state: WtState::new() };
    let p = a.is_up(&wt, true).unwrap();
    assert_eq!(p.command, "test -f .up-demo");
    assert_eq!(p.cwd, "/w/acme-wt/demo");
    assert_eq!(a.is_up(&wt, false).unwrap().cwd, "/w/acme");
    assert!(app(Config::empty()).is_up(&wt, true).is_none());
}

fn labels() -> wt::ops::PreviewLabels {
    wt::ops::PreviewLabels {
        path: "Path".to_string(),
        branch: "Branch".to_string(),
        commit: "Commit".to_string(),
        state: "State".to_string(),
        started: "started".to_string(),
        stopped: "stopped".to_string(),
        url: "URL".to_string(),
        git_changes: "changes".to_string(),
    }
}

#[test]
fn a_preview_lists_the_worktree_line_by_line() {
    let a = app(Config::empty());
    let mut st = WtState::new();
    st.ports.insert("web".to_string(), 8001);
    let w = Worktree { slug: "demo".to_string(), path: "/w/acme-wt/demo".to_string(), state: st };
    let lines = a.preview(&w, "wt/demo", "abc fix", Some(true), &Vec::new(), " M a.rs\n?? b.rs\n", &labels());
    assert_eq!(
        lines,
        vec![
            "Path     : /w/acme-wt/demo",
            "Branch   : wt/demo",
            "Commit   : abc fix",
            "State    : started",
            "web      : 8001",
            "",
            "── changes ──",
            " M a.rs",
            "?? b.rs",
        ]
    );
}

#[test]
fn a_clean_worktree_of_unknown_state_previews_in_three_lines() {
    let a = app(Config::empty());
    let w = Worktree { slug: "demo".to_string(), path: "/w/d".to_string(), state: WtState::new() };
    let lines = a.preview(&w, "main", "", None, &Vec::new(), "", &labels());
    assert_eq!(lines, vec!["Path     : /w/d", "Branch   : main", "Commit   : "]);
}

#[test]
fn a_stopped_worktrees_ports_are_never_handed_out_again() {
    let mut other = WtState::new();
    other.ports.insert("web".to_string(), 5000);
    let mut mine = WtState::new();
    mine.ports.insert("web".to_string(), 5001);
    let list = vec![
        Worktree { slug: "other".to_string(), path: "/w/acme-wt/other".to_string(), state: other },
        Worktree { slug: "demo".to_string(), path: "/w/acme-wt/demo".to_string(), state: mine },
    ];
    let reserved = wt::state::reserved_ports(&list, "demo");
    assert_eq!(reserved, vec![5000]);

    let mut c = Config::empty();
    c.ports.insert("web".to_string(), wt::config::PortSpec { base: 5000, allocate: wt::config::Allocate::Up });
    let a = app(c);
    let mut st = WtState::new();
    let run = a.cmd_up("fresh", &mut st, &[], &wt::state::reserved_ports(&list, "fresh"), &|_p: u16| true).unwrap();
    assert!(run.is_none());
    assert_eq!(*st.ports.get("web").unwrap(), 5002);
    // A second start keeps it.
    a.cmd_up("fresh", &mut st, &[], &vec![5000, 5001], &|_p: u16| true).unwrap();
    assert_eq!(*st.ports.get("web").unwrap(), 5002);
}

#[test]
fn start_options_are_the_words_typed() {
    assert_eq!(wt::ops::option_words("  queue=1   tenants=a,b "), vec!["queue=1", "tenants=a,b"]);
    assert!(wt::ops::option_words("   ").is_empty());
}

#[test]
fn a_start_with_every_port_taken_names_the_base_it_searched_from() {
    let mut c = Config::empty();
    c.ports.insert("web".to_string(), wt::config::PortSpec { base: 65534, allocate: wt::config::Allocate::Up });
    let a = app(c);
    let mut st = WtState::new();
    match a.cmd_up("demo", &mut st, &[], &vec![65534], &|_p: u16| false) {
        Err(Error::NoFreePort(b)) => assert_eq!(b, 65534),
        other => panic!("unexpected {:?}", other.map(|r| r.is_some())),
    }
    assert!(st.ports.get("web").is_none());
    match a.allocate_ports(&mut st, wt::config::Allocate::Up, &Vec::new(), &|_p: u16| false) {
        Err(Error::NoFreePort(b)) => assert_eq!(b, 65534),
        other => panic!("unexpected {other:?}"),
    }
}

#[test]
fn a_start_with_every_port_held_needs_no_free_port() {
    let mut c = Config::empty();
    c.ports.insert("web".to_string(), wt::config::PortSpec { base: 5000, allocate: wt::config::Allocate::Up });
    c.ports.insert("ssh".to_string(), wt::config::PortSpec { base: 6000, allocate: wt::config::Allocate::New });
    let a = app(c);
    let mut st = WtState::new();
    st.ports.insert("web".to_string(), 5007);
    let run = a.cmd_up("demo", &mut st, &[], &Vec::new(), &|_p: u16| false).unwrap();
    assert!(run.is_none());
    assert_eq!(*st.ports.get("web").unwrap(), 5007);
    assert!(st.ports.get("ssh").is_none());
    assert!(!a.allocate_ports(&mut st, wt::config::Allocate::Up, &Vec::new(), &|_p: u16| false).unwrap());
}

#[test]
fn with_nobody_to_ask_several_matches_are_refused_by_name() {
    let a = app(Config::empty());
    let slugs: Vec<String> = ["fix", "fix-auth", "auth-service", "docs"].iter().map(|s| s.to_string()).collect();
    match a.settle_slug(&slugs, Some("auth"), false) {
        Err(Error::Ambiguous(v)) => assert_eq!(v, ["fix-auth", "auth-service"]),
        other => panic!("unexpected {other:?}"),
    }
    assert_eq!(a.settle_slug(&slugs, Some("auth"), true).unwrap(), ["fix-auth", "auth-service"]);
    // An exact name is never ambiguous.
    assert_eq!(a.settle_slug(&slugs, Some("fix"), false).unwrap(), ["fix"]);
    assert!(matches!(a.settle_slug(&slugs, None, false), Err(Error::Ambiguous(_))));
    let one = vec!["solo".to_string()];
    assert_eq!(a.settle_slug(&one, None, false).unwrap(), ["solo"]);
    match a.settle_slug(&slugs, Some("zzz"), false) {
        Err(Error::UnknownWorktree(p)) => assert_eq!(p, "zzz"),
        other => panic!("unexpected {other:?}"),
    }
}

#[test]
fn a_lowered_branch_name_becomes_a_slug() {
    assert_eq!(wt::ops::slugify_lowered("feature/refonte_devis"), "feature-refonte-devis");
    assert_eq!(wt::ops::slugify_lowered("--a..b--"), "a-b");
    assert_eq!(wt::ops::slugify_lowered("ABC"), "");
    assert!(is_windows_exe("C:/Tools/Editor.Exe"));
    assert!(!is_windows_exe("editor.exe.sh"));
}

#[test]
fn the_slugs_a_pattern_matches_come_in_list_order() {
    let slugs: Vec<String> = ["fix", "fix-auth", "auth-service", "docs"].iter().map(|s| s.to_string()).collect();
    assert_eq!(wt::rank::matching_slugs(&slugs, "auth"), ["fix-auth", "auth-service"]);
    assert_eq!(wt::rank::matching_slugs(&slugs, "AS"), ["auth-service"]);
    assert_eq!(wt::rank::matching_slugs(&slugs, "fix"), ["fix", "fix-auth"]);
    assert!(wt::rank::matching_slugs(&slugs, "zzz").is_empty());
}
