//! The programs looked for on the machine — editors, terminal emulators — in the order
//! they are tried. Whether one is installed is for the application to find out.

use vstd::prelude::*;

use crate::config::owned;
use crate::ops::App;
use crate::text::{blank, chars_of, is_blank, same_str, strs};

verus! {

/// The names, empty ones and repeats left out, each where it first appears.
pub open spec fn offered(names: Seq<Seq<char>>) -> Seq<Seq<char>>
    decreases names.len(),
{
    if names.len() == 0 {
        Seq::empty()
    } else {
        let o = offered(names.drop_last());
        if names.last().len() == 0 || o.contains(names.last()) {
            o
        } else {
            o.push(names.last())
        }
    }
}

/// The editors tried after those named.
pub open spec fn known_editors() -> Seq<Seq<char>> {
    seq!["phpstorm"@, "pstorm"@, "idea"@, "code"@, "code-insiders"@, "cursor"@, "zed"@, "zed-dev"@, "nvim"@, "vim"@]
}

/// The text of an optional name, as a list of zero or one.
pub open spec fn named(o: Option<Seq<char>>) -> Seq<Seq<char>> {
    match o {
        Some(n) => seq![n],
        None => Seq::empty(),
    }
}

/// Adds `name` to `out` unless it is empty or there already.
fn offer(out: &mut Vec<String>, name: &str)
    ensures
        strs(final(out)@) == offered_step(strs(old(out)@), name@),
{
    if name.is_empty() {
        return;
    }
    let mut i: usize = 0;
    while i < out.len()
        invariant
            i <= out@.len(),
            forall|j: int| 0 <= j < i ==> strs(out@)[j] != name@,
        decreases out@.len() - i,
    {
        if same_str(out[i].as_str(), name) {
            assert(strs(out@)[i as int] == name@);
            return;
        }
        i += 1;
    }
    assert(!strs(out@).contains(name@));
    out.push(owned(name));
    assert(strs(out@) =~= strs(old(out)@).push(name@));
}

/// `offered` one name further.
pub open spec fn offered_step(o: Seq<Seq<char>>, name: Seq<char>) -> Seq<Seq<char>> {
    if name.len() == 0 || o.contains(name) {
        o
    } else {
        o.push(name)
    }
}

/// Offering the names one after the other is offering them all.
proof fn lemma_offered_push(names: Seq<Seq<char>>, name: Seq<char>)
    ensures
        offered(names.push(name)) == offered_step(offered(names), name),
{
    assert(names.push(name).drop_last() =~= names);
}

impl App {
    /// The editors to look for, in order: `$WT_IDE`, the wt.toml's `[editor] command`,
    /// `$EDITOR`, then the usual ones — each once, empty names left out.
    pub fn editor_candidates(&self, wt_ide: Option<String>, editor: Option<String>) -> (r: Vec<String>)
        ensures
            strs(r@) == offered(
                named(match wt_ide {
                    Some(e) => Some(e@),
                    None => None,
                }) + named(match self.project.config.editor.command {
                    Some(c) => Some(c@),
                    None => None,
                }) + named(match editor {
                    Some(e) => Some(e@),
                    None => None,
                }) + known_editors(),
            ),
    {
        let mut all: Vec<String> = Vec::new();
        if let Some(e) = wt_ide {
            all.push(e);
        }
        if let Some(c) = &self.project.config.editor.command {
            all.push(c.clone());
        }
        if let Some(e) = editor {
            all.push(e);
        }
        let ghost named_part = strs(all@);
        let known = ["phpstorm", "pstorm", "idea", "code", "code-insiders", "cursor", "zed", "zed-dev", "nvim", "vim"];
        let mut k: usize = 0;
        while k < 10
            invariant
                k <= 10,
                strs(all@) == named_part + known_editors().take(k as int),
                known@.len() == 10,
                forall|j: int| 0 <= j < 10 ==> known@[j]@ == #[trigger] known_editors()[j],
            decreases 10 - k,
        {
            let ghost before = all@;
            let name = owned(known[k]);
            all.push(name);
            proof {
                crate::text::lemma_strs_push(before, name);
                assert(name@ == known_editors()[k as int]);
            }
            assert(known_editors().take(k + 1) =~= known_editors().take(k as int).push(known_editors()[k as int]));
            assert(strs(all@) =~= named_part + known_editors().take(k + 1));
            k += 1;
        }
        assert(known_editors().take(10) =~= known_editors());
        let mut out: Vec<String> = Vec::new();
        let mut i: usize = 0;
        assert(strs(all@).take(0) =~= Seq::<Seq<char>>::empty());
        while i < all.len()
            invariant
                i <= all@.len(),
                strs(out@) == offered(strs(all@).take(i as int)),
            decreases all@.len() - i,
        {
            offer(&mut out, all[i].as_str());
            proof {
                lemma_offered_push(strs(all@).take(i as int), all@[i as int]@);
                assert(strs(all@).take(i + 1) =~= strs(all@).take(i as int).push(all@[i as int]@));
            }
            i += 1;
        }
        assert(strs(all@).take(all@.len() as int) =~= strs(all@));
        proof {
            assert(named(match wt_ide {
                Some(e) => Some(e@),
                None => None,
            }) + named(match self.project.config.editor.command {
                Some(c) => Some(c@),
                None => None,
            }) + named(match editor {
                Some(e) => Some(e@),
                None => None,
            }) == named_part);
        }
        out
    }

    /// The terminal emulator named for opening a window: `$WT_TERMINAL_WINDOW`, else the
    /// wt.toml's `[editor] terminal_window`. `None` when neither names one (then the
    /// known emulators are looked for); `Some(None)` when the name is blank — how one
    /// asks for the shell to take the current terminal instead.
    pub fn named_window(&self, env: Option<String>) -> (r: Option<Option<String>>)
        ensures
            ({
                let n = match env {
                    Some(e) => Some(e@),
                    None => match self.project.config.editor.terminal_window {
                        Some(t) => Some(t@),
                        None => None,
                    },
                };
                match n {
                    None => r is None,
                    Some(x) => if blank(x) {
                        r == Some(None::<String>)
                    } else {
                        r matches Some(Some(y)) && y@ == x
                    },
                }
            }),
    {
        let name = match env {
            Some(e) => Some(e),
            None => match &self.project.config.editor.terminal_window {
                Some(t) => Some(t.clone()),
                None => None,
            },
        };
        match name {
            None => None,
            Some(x) => if is_blank(&chars_of(x.as_str())) {
                Some(None)
            } else {
                Some(Some(x))
            },
        }
    }
}

/// The terminal emulators looked for, in order: Windows Terminal first under WSL (a
/// Linux emulator there needs a display server the machine often has not got), the
/// usual emulators, Terminal.app (through `osascript`) on macOS, then the fallbacks.
pub open spec fn emulators(wsl: bool, macos: bool) -> Seq<Seq<char>> {
    (if wsl { seq!["wt.exe"@] } else { Seq::empty() })
        + seq!["ghostty"@, "wezterm"@, "kitty"@, "alacritty"@, "foot"@, "gnome-terminal"@, "konsole"@, "xfce4-terminal"@]
        + (if macos { seq!["osascript"@] } else { Seq::empty() })
        + seq!["x-terminal-emulator"@, "xterm"@]
}

/// The terminal emulators to look for (see `emulators`).
pub fn window_candidates(wsl: bool, macos: bool) -> (r: Vec<String>)
    ensures
        strs(r@) == emulators(wsl, macos),
{
    let mut out: Vec<String> = Vec::new();
    if wsl {
        out.push(owned("wt.exe"));
    }
    let ghost a = strs(out@);
    out.push(owned("ghostty"));
    out.push(owned("wezterm"));
    out.push(owned("kitty"));
    out.push(owned("alacritty"));
    out.push(owned("foot"));
    out.push(owned("gnome-terminal"));
    out.push(owned("konsole"));
    out.push(owned("xfce4-terminal"));
    let ghost b = strs(out@);
    assert(b =~= a + seq!["ghostty"@, "wezterm"@, "kitty"@, "alacritty"@, "foot"@, "gnome-terminal"@, "konsole"@, "xfce4-terminal"@]);
    if macos {
        out.push(owned("osascript"));
    }
    let ghost c = strs(out@);
    assert(c =~= b + (if macos { seq!["osascript"@] } else { Seq::<Seq<char>>::empty() }));
    out.push(owned("x-terminal-emulator"));
    out.push(owned("xterm"));
    assert(strs(out@) =~= c + seq!["x-terminal-emulator"@, "xterm"@]);
    assert(a =~= (if wsl { seq!["wt.exe"@] } else { Seq::<Seq<char>>::empty() }));
    out
}

} // verus!
