//! A project's `wt.toml`, once read.
//!
//! The file describes *what the project wants* (where worktrees live, which files to
//! copy, which ports to allocate, which commands to run). The library knows nothing
//! about Docker, Laravel or npm: anything stack-specific goes through shell hooks.

use vstd::prelude::*;

use crate::dict::Dict;
use crate::error::Error;
use crate::text::{chars_of, push_char, string_of};
use crate::tmpl::{render, rendered, Vars};
use crate::util::{file_name, file_name_of, is_absolute, join, joined_path, normalize, normalized};

verus! {

pub const CONFIG_NAME: &'static str = "wt.toml";

/// An owned copy of a string slice.
pub fn owned(s: &str) -> (r: String)
    ensures
        r@ == s@,
{
    s.to_owned()
}

/// One command or a list of them — `run = "…"` and `run = ["…", "…"]` are both
/// accepted, because both forms come naturally when writing.
#[derive(Debug)]
pub struct Commands(pub Vec<String>);

impl Commands {
    pub fn is_empty(&self) -> (r: bool)
        ensures
            r == (self.0@.len() == 0),
    {
        self.0.len() == 0
    }
}

/// A question asked before an action, whose answer becomes an option.
///
/// This is what lets a project have a real start-up dialogue — "shared or isolated
/// databases?", "which tenants to mount?" — without the binary knowing what a tenant is:
/// the list of choices can come from a shell command.
#[derive(Debug)]
pub struct Prompt {
    /// Name of the produced option: `{{opt.<name>}}` and `WT_OPT_<NAME>`.
    pub name: String,
    /// Displayed label. Defaults to the name.
    pub question: String,
    pub kind: PromptKind,
    /// When to ask. Defaults to start-up.
    pub ask: Ask,
    /// Fixed choices.
    pub options: Vec<PromptOption>,
    /// Computed choices: a shell command writing one line per choice,
    /// `value<TAB>label<TAB>detail` (the last two columns are optional).
    pub source: Option<String>,
    /// Preselected value (for `multi`, several separated by `separator`).
    pub default: Option<String>,
    /// Separator for `multi` values. Defaults to a comma.
    pub separator: String,
    /// Shell command: the question is only asked when it exits 0. Answers already given
    /// are in the environment, which is what lets questions chain.
    pub when: Option<String>,
    /// Ask again even when the value is already known.
    pub always: bool,
}

/// The default separator of a `multi` answer: a comma.
pub fn comma() -> (r: String)
    ensures
        r@ == seq![','],
{
    let mut s = String::new();
    push_char(&mut s, ',');
    s
}

/// A copy spec is optional unless it says otherwise.
pub fn yes() -> (r: bool)
    ensures
        r,
{
    true
}

impl Prompt {
    pub open spec fn title_of(&self) -> Seq<char> {
        if self.question@.len() == 0 {
            self.name@
        } else {
            self.question@
        }
    }

    /// What the question shows: its `question`, or its name when it has none.
    pub fn title(&self) -> (r: &str)
        ensures
            r@ == self.title_of(),
    {
        if self.question.as_str().is_empty() {
            self.name.as_str()
        } else {
            self.question.as_str()
        }
    }
}

fn copy_opt(o: &Option<String>) -> (r: Option<String>)
    ensures
        r == *o,
{
    match o {
        Some(s) => Some(s.clone()),
        None => None,
    }
}

impl Prompt {
    /// Field for field the same question.
    pub open spec fn same_as(&self, other: &Prompt) -> bool {
        &&& self.name == other.name
        &&& self.question == other.question
        &&& self.kind == other.kind
        &&& self.ask == other.ask
        &&& self.options@ == other.options@
        &&& self.source == other.source
        &&& self.default == other.default
        &&& self.separator == other.separator
        &&& self.when == other.when
        &&& self.always == other.always
    }
}

impl Clone for Prompt {
    fn clone(&self) -> (r: Self)
        ensures
            r.same_as(self),
    {
        let mut options: Vec<PromptOption> = Vec::new();
        let mut i: usize = 0;
        while i < self.options.len()
            invariant
                i <= self.options@.len(),
                options@ == self.options@.take(i as int),
            decreases self.options@.len() - i,
        {
            options.push(self.options[i].clone());
            i += 1;
            assert(options@ =~= self.options@.take(i as int));
        }
        assert(self.options@.take(self.options@.len() as int) =~= self.options@);
        Prompt {
            name: self.name.clone(),
            question: self.question.clone(),
            kind: self.kind,
            ask: self.ask,
            options,
            source: copy_opt(&self.source),
            default: copy_opt(&self.default),
            separator: self.separator.clone(),
            when: copy_opt(&self.when),
            always: self.always,
        }
    }
}

#[derive(Debug, Clone, Copy, PartialEq, Eq, Structural)]
pub enum PromptKind {
    /// One value out of N.
    Choice,
    /// Several values out of N, joined by `separator`.
    Multi,
    /// Yes / no, producing `1` or `0`.
    Confirm,
    /// Free-form input.
    Text,
}

#[derive(Debug, Clone, Copy, PartialEq, Eq, Structural)]
pub enum Ask {
    /// Before `wt up` (default).
    Up,
    /// Before `wt new`.
    New,
    Both,
    /// Never asked by a phase: only when a task lists the prompt in its `prompt` field.
    Task,
}

impl Ask {
    /// Is a question set to be asked at `self` asked at `phase`?
    pub fn covers(self, phase: Ask) -> (r: bool)
        ensures
            r == (self == phase || self == Ask::Both),
    {
        self == phase || self == Ask::Both
    }
}

#[derive(Debug)]
pub struct PromptOption {
    pub value: String,
    pub label: String,
    pub detail: String,
}

impl Clone for PromptOption {
    fn clone(&self) -> (r: Self)
        ensures
            r == *self,
    {
        PromptOption {
            value: self.value.clone(),
            label: self.label.clone(),
            detail: self.detail.clone(),
        }
    }
}

#[derive(Debug)]
pub struct CopySpec {
    /// Path relative to the main repository.
    pub from: String,
    /// Path relative to the worktree. Defaults to `from`.
    pub to: Option<String>,
    pub mode: CopyMode,
    /// Do not fail when the source is missing. Defaults to true.
    pub optional: bool,
}

#[derive(Debug, Clone, Copy, PartialEq, Eq, Structural)]
pub enum CopyMode {
    /// Hardlink tree: near-instant, near-zero disk. Package managers (composer, npm)
    /// replace files, which cleanly breaks the link.
    Hardlink,
    /// Real copy, for what the worktree will modify (a `.env`, typically).
    Copy,
    /// Symbolic link to the source.
    Symlink,
}

#[derive(Debug)]
pub struct PortSpec {
    /// First port tried; incremented until a free, unreserved one is found.
    pub base: u16,
    /// When to allocate: at worktree creation, or at start-up (default).
    pub allocate: Allocate,
}

#[derive(Debug, Clone, Copy, PartialEq, Eq, Structural)]
pub enum Allocate {
    New,
    Up,
}

#[derive(Debug)]
pub struct Hooks {
    /// After the checkout, the directories and the copies.
    pub post_new: Commands,
    /// `wt up` — starting the services.
    pub up: Commands,
    /// `wt down` — stopping the services; the checkout is kept.
    pub down: Commands,
    /// Before removing the worktree (the checkout still exists).
    pub pre_rm: Commands,
    /// After removal (the directory is gone, cwd = main repository).
    pub post_rm: Commands,
}

#[derive(Debug)]
pub struct Task {
    pub description: String,
    pub run: Commands,
    /// `worktree` (default) or `main`.
    pub cwd: Cwd,
    /// The task needs the terminal (shell, `logs -f`, editor, full-screen watcher).
    pub interactive: bool,
    /// Names of `[[prompt]]` entries the interface asks before the run; the answers
    /// become the task's `{{args}}`.
    pub prompt: Vec<String>,
}

#[derive(Debug, Clone, Copy, PartialEq, Eq, Structural)]
pub enum Cwd {
    Worktree,
    Main,
}

/// A language server declared by the project. The table's key names it, and doubles as
/// the LSP `languageId` — `language` overrides that when the two differ.
#[derive(Debug)]
pub struct LanguageServer {
    /// The program to run.
    pub command: String,
    pub args: Vec<String>,
    /// Environment added to the server's own.
    pub env: Dict<String>,
    /// Extensions served, without the leading dot: `"php"`, `"blade.php"`.
    pub extensions: Vec<String>,
    /// The `languageId` announced to the server. Defaults to the table's key.
    pub language: Option<String>,
}

impl LanguageServer {
    /// The `languageId` for this server, `name` being its key in the table.
    pub fn language_id<'a>(&'a self, name: &'a str) -> (r: &'a str)
        ensures
            r@ == (match self.language {
                Some(l) => l@,
                None => name@,
            }),
    {
        match &self.language {
            Some(l) => l.as_str(),
            None => name,
        }
    }
}

#[derive(Debug)]
pub struct Status {
    /// Shell command whose exit code 0 means "worktree started".
    pub up: Option<String>,
    /// Extra lines shown in the preview (`name = shell command`).
    pub info: Dict<String>,
}

#[derive(Debug)]
pub struct Editor {
    /// Default command. `WT_IDE` in the environment still takes precedence.
    pub command: Option<String>,
    /// Shell opened in the worktree when a terminal is requested.
    pub terminal: Option<String>,
    /// Terminal emulator opening that shell in a window of its own.
    pub terminal_window: Option<String>,
}

#[derive(Debug)]
pub struct Open {
    /// Main URL, offered first by `wt open <slug>`.
    pub url: Option<String>,
    /// Label for that URL. Defaults to "application".
    pub label: Option<String>,
    /// Extra links computed on demand: a shell command writing one line per link,
    /// `url<TAB>label`.
    pub source: Option<String>,
}

#[derive(Debug)]
pub struct Config {
    /// Display name. Defaults to the main repository's directory name.
    pub project: Option<String>,
    /// Directory holding the worktrees. Templated. Defaults to `{{main}}/../{{repo}}-wt`.
    pub root: Option<String>,
    /// Branch name template used by `wt new <slug>`. Defaults to `wt/{{slug}}`.
    pub branch: Option<String>,
    /// Variables reusable in every template.
    pub vars: Dict<String>,
    /// Directories created in the worktree right after checkout.
    pub dirs: Vec<String>,
    /// Files and directories inherited from the main repository.
    pub copies: Vec<CopySpec>,
    /// Automatically allocated ports, exposed as `{{port.<name>}}`.
    pub ports: Dict<PortSpec>,
    /// Questions the interface asks before `new` / `up`.
    pub prompts: Vec<Prompt>,
    pub hooks: Hooks,
    /// Ad-hoc commands: `wt run <name> <slug>`.
    pub tasks: Dict<Task>,
    /// Language servers a front-end may start for this project's code.
    pub lsp: Dict<LanguageServer>,
    pub status: Status,
    pub editor: Editor,
    pub open: Open,
}

impl Commands {
    pub fn none() -> (r: Commands)
        ensures
            r.0@.len() == 0,
    {
        Commands(Vec::new())
    }
}

impl Config {
    /// The configuration of a project whose `wt.toml` is empty.
    pub fn empty() -> (r: Config)
        ensures
            r.project is None,
            r.root is None,
            r.branch is None,
            r.vars@.len() == 0,
            r.dirs@.len() == 0,
            r.copies@.len() == 0,
            r.ports@.len() == 0,
            r.prompts@.len() == 0,
            r.hooks.post_new.0@.len() == 0,
            r.hooks.up.0@.len() == 0,
            r.hooks.down.0@.len() == 0,
            r.hooks.pre_rm.0@.len() == 0,
            r.hooks.post_rm.0@.len() == 0,
            r.tasks@.len() == 0,
            r.lsp@.len() == 0,
            r.status.up is None,
            r.status.info@.len() == 0,
            r.editor.command is None,
            r.editor.terminal is None,
            r.editor.terminal_window is None,
            r.open.url is None,
            r.open.label is None,
            r.open.source is None,
    {
        Config {
            project: None,
            root: None,
            branch: None,
            vars: Dict::new(),
            dirs: Vec::new(),
            copies: Vec::new(),
            ports: Dict::new(),
            prompts: Vec::new(),
            hooks: Hooks {
                post_new: Commands::none(),
                up: Commands::none(),
                down: Commands::none(),
                pre_rm: Commands::none(),
                post_rm: Commands::none(),
            },
            tasks: Dict::new(),
            lsp: Dict::new(),
            status: Status { up: None, info: Dict::new() },
            editor: Editor { command: None, terminal: None, terminal_window: None },
            open: Open { url: None, label: None, source: None },
        }
    }
}

/// A loaded project: the main repository, its config, the path of the file read and
/// what that file said word for word.
pub struct Project {
    pub main: String,
    pub config_path: String,
    pub config: Config,
    /// The text of the `wt.toml` that was read.
    pub source: String,
}

pub open spec fn projet() -> Seq<char> {
    seq!['p', 'r', 'o', 'j', 'e', 't']
}

/// The directory name of the main repository, or nothing.
pub open spec fn repo_of(main: Seq<char>) -> Seq<char> {
    match file_name_of(main) {
        Some(n) => n,
        None => Seq::empty(),
    }
}

/// The root template used when the wt.toml sets none: `{{main}}/../<repo>-wt`.
pub open spec fn default_root(repo: Seq<char>) -> Seq<char> {
    "{{main}}/../"@ + repo + "-wt"@
}

/// The variables a root template is rendered with: `main` and `repo`.
pub open spec fn root_vars(main: Seq<char>) -> Map<Seq<char>, Seq<char>> {
    Map::<Seq<char>, Seq<char>>::empty().insert("main"@, main).insert("repo"@, repo_of(main))
}

/// The worktree root of a project whose main repository is `main`.
pub open spec fn root_of(main: Seq<char>, template: Option<Seq<char>>) -> Seq<char> {
    let tpl = match template {
        Some(t) => t,
        None => default_root(repo_of(main)),
    };
    let r = rendered(tpl, root_vars(main));
    normalized(
        if is_absolute(r) {
            r
        } else {
            joined_path(main, r)
        },
    )
}

pub fn concat(a: &str, b: &str) -> (r: String)
    ensures
        r@ == a@ + b@,
{
    let mut x = chars_of(a);
    let mut y = chars_of(b);
    x.append(&mut y);
    string_of(&x)
}

impl Project {
    pub open spec fn name_of(&self) -> Seq<char> {
        match self.config.project {
            Some(p) => p@,
            None => match file_name_of(self.main@) {
                Some(n) => n,
                None => projet(),
            },
        }
    }

    /// Display name: the wt.toml's `project`, or the main repository's directory name.
    pub fn name(&self) -> (r: String)
        ensures
            r@ == self.name_of(),
    {
        match &self.config.project {
            Some(p) => p.clone(),
            None => match file_name(self.main.as_str()) {
                Some(n) => n,
                None => {
                    let v = vec!['p', 'r', 'o', 'j', 'e', 't'];
                    assert(v@ =~= projet());
                    string_of(&v)
                },
            },
        }
    }

    /// Worktree root: absolute path, template resolved.
    pub fn root(&self) -> (r: Result<String, Error>)
        ensures
            r matches Ok(p) && p@ == root_of(
                self.main@,
                match self.config.root {
                    Some(t) => Some(t@),
                    None => None,
                },
            ),
    {
        let repo = match file_name(self.main.as_str()) {
            Some(n) => n,
            None => String::new(),
        };
        let mut base: Vars = Dict::new();
        base.insert(owned("main"), self.main.clone());
        base.insert(owned("repo"), repo.clone());
        let tpl = match &self.config.root {
            Some(t) => t.clone(),
            None => {
                let head = concat("{{main}}/../", repo.as_str());
                concat(head.as_str(), "-wt")
            },
        };
        proof {
            assert(base.texts() =~= root_vars(self.main@));
        }
        let r = render(tpl.as_str(), &base);
        let chars = chars_of(r.as_str());
        let path = if chars.len() > 0 && chars[0] == '/' {
            r
        } else {
            join(self.main.as_str(), r.as_str())
        };
        Ok(normalize(path.as_str()))
    }
}

} // verus!
