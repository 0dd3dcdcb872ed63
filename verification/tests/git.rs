use wt::error::Error;
use wt::git::{branch_worktree, branches, remote_local_name, upstream, worktree_add};

const PORCELAIN: &str = "worktree /w/acme\nHEAD abc\nbranch refs/heads/main\n\nworktree /w/acme-wt/demo\nHEAD def\nbranch refs/heads/wt/demo\n";

#[test]
fn the_worktree_holding_a_branch_is_found() {
    assert_eq!(branch_worktree(PORCELAIN, "wt/demo").unwrap(), "/w/acme-wt/demo");
    assert_eq!(branch_worktree(PORCELAIN, "main").unwrap(), "/w/acme");
    assert!(branch_worktree(PORCELAIN, "wt/other").is_none());
    assert!(branch_worktree(PORCELAIN, "wt").is_none());
}

#[test]
fn remote_duplicates_and_heads_are_not_offered() {
    let locals = "main\nwt/demo";
    let local_raw = "wt/demo|2 days ago|work";
    let remote_raw = "origin|3 days ago|x\norigin/HEAD|3 days ago|x\norigin/main|3 days ago|init\norigin/feat|1 hour ago|feat | with bar";
    let b = branches(locals, local_raw, remote_raw, Some(PORCELAIN));
    let names: Vec<&str> = b.iter().map(|x| x.name.as_str()).collect();
    assert_eq!(names, ["wt/demo", "origin/feat"]);
    assert_eq!(b[0].used_by.as_deref(), Some("/w/acme-wt/demo"));
    assert_eq!(b[1].subject, "feat | with bar");
    assert_eq!(b[1].date, "1 hour ago");
    assert!(branches(locals, local_raw, remote_raw, None)[0].used_by.is_none());
}

#[test]
fn local_branches_come_before_remote_ones_even_older_ones() {
    let b = branches("old", "old|3 weeks ago|x", "origin/new|1 minute ago|y", None);
    let names: Vec<&str> = b.iter().map(|x| x.name.as_str()).collect();
    assert_eq!(names, ["old", "origin/new"]);
}

#[test]
fn the_right_git_command_creates_a_worktree() {
    // An existing local branch is checked out as it is.
    assert_eq!(
        worktree_add("/w/x", "dev", None, true, None, false, false).unwrap(),
        ["worktree", "add", "/w/x", "dev"]
    );
    // Unless a worktree holds it already, or a start point is given.
    match worktree_add("/w/x", "dev", None, true, Some("/w/acme"), false, false) {
        Err(Error::BranchInUse { branch, path }) => assert_eq!((branch.as_str(), path.as_str()), ("dev", "/w/acme")),
        other => panic!("unexpected {other:?}"),
    }
    assert!(matches!(worktree_add("/w/x", "dev", Some("main"), true, None, false, false), Err(Error::BranchExists(_))));
    // A remote branch becomes a local one tracking it.
    assert_eq!(
        worktree_add("/w/x", "origin/feat", None, false, None, true, false).unwrap(),
        ["worktree", "add", "/w/x", "-b", "feat", "--track", "origin/feat"]
    );
    match worktree_add("/w/x", "origin/feat", None, false, None, true, true) {
        Err(Error::LocalBranchExists(b)) => assert_eq!(b, "feat"),
        other => panic!("unexpected {other:?}"),
    }
    // Any other name is a new branch, from the start point when there is one.
    assert_eq!(
        worktree_add("/w/x", "wt/x", Some("dev"), false, None, false, false).unwrap(),
        ["worktree", "add", "/w/x", "-b", "wt/x", "dev"]
    );
    assert_eq!(
        worktree_add("/w/x", "wt/x", None, false, None, false, false).unwrap(),
        ["worktree", "add", "/w/x", "-b", "wt/x"]
    );
}

#[test]
fn a_fresh_branch_is_wired_to_origin_only_when_there_is_one() {
    assert!(upstream("wt/solo", false, false).is_empty());
    assert!(upstream("feat", true, true).is_empty());
    let u = upstream("wt/feat", true, false);
    assert_eq!(u[0], ("branch.wt/feat.remote".to_string(), "origin".to_string()));
    assert_eq!(u[1], ("branch.wt/feat.merge".to_string(), "refs/heads/wt/feat".to_string()));
}

#[test]
fn a_remote_branch_is_checked_out_under_its_short_name() {
    assert_eq!(remote_local_name("origin/feat/x"), "feat/x");
    assert_eq!(remote_local_name("main"), "main");
}

#[test]
fn what_git_could_not_say_has_a_default() {
    assert_eq!(wt::git::current_branch(Some("main".into())), "main");
    assert_eq!(wt::git::current_branch(None), "?");
    assert_eq!(wt::git::head_commit(None), "");
    assert_eq!(wt::git::head_commit(Some("abc123 fix".into())), "abc123 fix");
    assert_eq!(wt::git::status_short(None), "");
    assert_eq!(wt::git::status_short(Some(" M a.rs".into())), " M a.rs");
}

#[test]
fn a_branch_is_looked_up_among_local_or_remote_refs() {
    assert_eq!(
        wt::git::branch_query("feat", false),
        vec!["show-ref", "--verify", "--quiet", "refs/heads/feat"]
    );
    assert_eq!(
        wt::git::branch_query("origin/feat", true),
        vec!["show-ref", "--verify", "--quiet", "refs/remotes/origin/feat"]
    );
}

#[test]
fn a_worktree_is_removed_then_pruned() {
    let cmds = wt::git::worktree_remove("/w/demo");
    assert_eq!(cmds.len(), 2);
    assert_eq!(cmds[0], vec!["worktree", "remove", "--force", "/w/demo"]);
    assert_eq!(cmds[1], vec!["worktree", "prune"]);
}

#[test]
fn the_main_repository_holds_the_common_directory() {
    assert_eq!(wt::git::common_dir("/src/app", ".git"), "/src/app/.git");
    assert_eq!(wt::git::common_dir("/src/app/wt", "/src/app/.git"), "/src/app/.git");
    assert_eq!(wt::git::main_repo("/src/app/.git").unwrap(), "/src/app");
    assert_eq!(wt::git::main_repo("/.git").unwrap(), "/");
    assert!(matches!(wt::git::main_repo("/"), Err(wt::error::Error::NoMainRepo)));
    assert!(matches!(wt::git::main_repo(""), Err(wt::error::Error::NoMainRepo)));
}

#[test]
fn an_origin_remote_is_found_among_the_remotes() {
    assert!(wt::git::has_origin("origin\nupstream\n"));
    assert!(wt::git::has_origin("fork\n  origin  \n"));
    assert!(!wt::git::has_origin("originals\nfork"));
    assert!(!wt::git::has_origin(""));
}

#[test]
fn only_a_branch_the_creation_made_is_wired_to_origin() {
    let fresh = wt::git::new_branch_settings("wt/feat", false, false, true, false);
    assert_eq!(
        fresh,
        vec![
            ("branch.wt/feat.remote".to_string(), "origin".to_string()),
            ("branch.wt/feat.merge".to_string(), "refs/heads/wt/feat".to_string()),
        ]
    );
    assert!(wt::git::new_branch_settings("wt/feat", false, false, false, false).is_empty());
    assert!(wt::git::new_branch_settings("wt/feat", false, false, true, true).is_empty());
    assert!(wt::git::new_branch_settings("feat", true, false, true, false).is_empty());
    assert!(wt::git::new_branch_settings("origin/feat", false, true, true, false).is_empty());
}
