//! What the dashboard's keys do: the decisions of the interactive interface, apart from
//! drawing and from carrying them out.
//!
//! In the list, single letters are the shortcuts. In a picker every printable key feeds
//! the filter — a picker is a search box first, the way fzf is — so navigation lives on
//! the arrows and on the readline-style controls (`^N`/`^P`, `^J`/`^K`), and TAB ticks a
//! box in a multiple selection.

use vstd::prelude::*;

use crate::text::{chars_of, string_of};

verus! {

/// A key press, as the interface reads it.
#[derive(Debug, Clone, Copy, PartialEq, Eq, Structural)]
pub enum Key {
    /// A character typed on its own (shift included).
    Char(char),
    /// A character typed with CONTROL.
    Ctrl(char),
    /// A character typed with ALT.
    Alt(char),
    Enter,
    Esc,
    Tab,
    BackTab,
    Up,
    Down,
    PageUp,
    PageDown,
    Home,
    End,
    Backspace,
    Other,
}

/// What a key does in the worktree list.
#[derive(Debug, Clone, Copy, PartialEq, Eq, Structural)]
pub enum ListAction {
    Quit,
    Next,
    Previous,
    Refresh,
    ToggleMouse,
    Help,
    NewWorktree,
    Actions,
    Start,
    StartWithOptions,
    Stop,
    Shell,
    Editor,
    Open,
    Task,
    Remove,
    /// `s` or `S` in a project without an `up` hook.
    NoServices,
    /// `d` in a project without a `down` hook.
    NothingToStop,
    /// `o` in a project without an address.
    NoUrl,
    /// A click on another row selects it.
    Select(usize),
    Nothing,
}

/// What a key does in a picker.
#[derive(Debug, Clone, Copy, PartialEq, Eq, Structural)]
pub enum PickAction {
    Submit,
    Toggle,
    Move(i8),
    ClearFilter,
    DropWord,
    DropChar,
    Type(char),
    Cancel,
    /// A click puts the cursor on a row of the view.
    At(usize),
    /// A click in a multiple selection ticks the row clicked.
    ToggleAt(usize),
    /// A double click confirms the row clicked.
    SubmitAt(usize),
    Nothing,
}

/// What a key does while an action's output is shown.
#[derive(Debug, Clone, Copy, PartialEq, Eq, Structural)]
pub enum OutputAction {
    /// The view scrolled (0 sticks to the last line).
    Scroll,
    /// Closing asked while the action still runs: refused, the panel being the only
    /// trace of what is going on.
    Busy,
    Close,
    /// Yes to the follow-up question offered after a success ("start now?").
    Follow,
    Nothing,
}

/// The list's decision for `key`, `row` telling whether a worktree is selected and
/// whether the selection can move down (`more`) or up (`back`).
pub open spec fn list_action(key: Key, selected: bool, more: bool, back: bool, has_up: bool, has_down: bool, has_open: bool) -> ListAction {
    match key {
        Key::Char('q') | Key::Esc | Key::Ctrl('c') => ListAction::Quit,
        Key::Down | Key::Char('j') => if more { ListAction::Next } else { ListAction::Nothing },
        Key::Up | Key::Char('k') => if back { ListAction::Previous } else { ListAction::Nothing },
        Key::Char('g') => ListAction::Refresh,
        Key::Char('m') => ListAction::ToggleMouse,
        Key::Char('?') | Key::Char('h') => ListAction::Help,
        Key::Char('n') => ListAction::NewWorktree,
        Key::Enter => ListAction::Actions,
        Key::Char('s') => if !has_up { ListAction::NoServices } else if selected { ListAction::Start } else { ListAction::Nothing },
        Key::Char('S') => if !has_up { ListAction::NoServices } else if selected { ListAction::StartWithOptions } else { ListAction::Nothing },
        Key::Char('d') => if !has_down { ListAction::NothingToStop } else if selected { ListAction::Stop } else { ListAction::Nothing },
        Key::Char('c') => if selected { ListAction::Shell } else { ListAction::Nothing },
        Key::Char('e') => ListAction::Editor,
        Key::Char('o') => if !has_open { ListAction::NoUrl } else if selected { ListAction::Open } else { ListAction::Nothing },
        Key::Char('t') => ListAction::Task,
        Key::Char('r') => if selected { ListAction::Remove } else { ListAction::Nothing },
        _ => ListAction::Nothing,
    }
}

/// What `key` does in the list of `rows` worktrees whose row `sel` is selected, for a
/// project with or without `up` and `down` hooks and an address.
pub fn list_key(key: Key, rows: usize, sel: usize, has_up: bool, has_down: bool, has_open: bool) -> (r: ListAction)
    ensures
        r == list_action(key, sel < rows, sel + 1 < rows, sel > 0, has_up, has_down, has_open),
{
    let selected = sel < rows;
    let more = sel < rows && rows - sel > 1;
    let back = sel > 0;
    match key {
        Key::Char('q') | Key::Esc | Key::Ctrl('c') => ListAction::Quit,
        Key::Down | Key::Char('j') => if more { ListAction::Next } else { ListAction::Nothing },
        Key::Up | Key::Char('k') => if back { ListAction::Previous } else { ListAction::Nothing },
        Key::Char('g') => ListAction::Refresh,
        Key::Char('m') => ListAction::ToggleMouse,
        Key::Char('?') | Key::Char('h') => ListAction::Help,
        Key::Char('n') => ListAction::NewWorktree,
        Key::Enter => ListAction::Actions,
        Key::Char('s') => if !has_up { ListAction::NoServices } else if selected { ListAction::Start } else { ListAction::Nothing },
        Key::Char('S') => if !has_up { ListAction::NoServices } else if selected { ListAction::StartWithOptions } else { ListAction::Nothing },
        Key::Char('d') => if !has_down { ListAction::NothingToStop } else if selected { ListAction::Stop } else { ListAction::Nothing },
        Key::Char('c') => if selected { ListAction::Shell } else { ListAction::Nothing },
        Key::Char('e') => ListAction::Editor,
        Key::Char('o') => if !has_open { ListAction::NoUrl } else if selected { ListAction::Open } else { ListAction::Nothing },
        Key::Char('t') => ListAction::Task,
        Key::Char('r') => if selected { ListAction::Remove } else { ListAction::Nothing },
        _ => ListAction::Nothing,
    }
}

/// The picker's decision for `key`, the filter being empty or not. ESC clears the query
/// first: a search that went too far is corrected without losing the menu.
pub open spec fn pick_action(key: Key, filter_empty: bool) -> PickAction {
    match key {
        Key::Enter => PickAction::Submit,
        Key::Tab | Key::BackTab => PickAction::Toggle,
        Key::Down | Key::Ctrl('n') | Key::Ctrl('j') => PickAction::Move(1i8),
        Key::Up | Key::Ctrl('p') | Key::Ctrl('k') => PickAction::Move(-1i8),
        Key::PageDown => PickAction::Move(10i8),
        Key::PageUp => PickAction::Move(-10i8),
        Key::Ctrl('u') => PickAction::ClearFilter,
        Key::Ctrl('w') => PickAction::DropWord,
        Key::Backspace => PickAction::DropChar,
        Key::Esc => if filter_empty { PickAction::Cancel } else { PickAction::ClearFilter },
        Key::Ctrl('c') => PickAction::Cancel,
        Key::Char(c) => PickAction::Type(c),
        _ => PickAction::Nothing,
    }
}

/// What `key` does in a picker whose filter is empty or not.
pub fn pick_key(key: Key, filter_empty: bool) -> (r: PickAction)
    ensures
        r == pick_action(key, filter_empty),
{
    match key {
        Key::Enter => PickAction::Submit,
        Key::Tab | Key::BackTab => PickAction::Toggle,
        Key::Down | Key::Ctrl('n') | Key::Ctrl('j') => PickAction::Move(1i8),
        Key::Up | Key::Ctrl('p') | Key::Ctrl('k') => PickAction::Move(-1i8),
        Key::PageDown => PickAction::Move(10i8),
        Key::PageUp => PickAction::Move(-10i8),
        Key::Ctrl('u') => PickAction::ClearFilter,
        Key::Ctrl('w') => PickAction::DropWord,
        Key::Backspace => PickAction::DropChar,
        Key::Esc => if filter_empty { PickAction::Cancel } else { PickAction::ClearFilter },
        Key::Ctrl('c') => PickAction::Cancel,
        Key::Char(c) => PickAction::Type(c),
        _ => PickAction::Nothing,
    }
}

/// The output panel's decision for `key`, and the scroll offset after it: arrows and
/// `k`/`j` by one line, pages by ten, Home to the first line and End back to the last,
/// never past the `lines` there are.
pub open spec fn output_action(key: Key, running: bool, failed: bool, scroll: int, lines: int) -> (OutputAction, int) {
    match key {
        Key::Up | Key::Char('k') => (OutputAction::Scroll, if scroll + 1 < lines { scroll + 1 } else { lines }),
        Key::Down | Key::Char('j') => (OutputAction::Scroll, if scroll > 1 { scroll - 1 } else { 0 }),
        Key::PageUp => (OutputAction::Scroll, if scroll + 10 < lines { scroll + 10 } else { lines }),
        Key::PageDown => (OutputAction::Scroll, if scroll > 10 { scroll - 10 } else { 0 }),
        Key::Home => (OutputAction::Scroll, lines),
        Key::End => (OutputAction::Scroll, 0),
        Key::Enter | Key::Esc | Key::Char('q') | Key::Char('n') => (if running { OutputAction::Busy } else { OutputAction::Close }, scroll),
        Key::Char('o') | Key::Char('y') => (if !running && !failed { OutputAction::Follow } else { OutputAction::Nothing }, scroll),
        _ => (OutputAction::Nothing, scroll),
    }
}

/// What `key` does to the output panel of an action running or done, failed or not,
/// scrolled up by `scroll` over `lines` lines.
pub fn output_key(key: Key, running: bool, failed: bool, scroll: usize, lines: usize) -> (r: (OutputAction, usize))
    ensures
        r.0 == output_action(key, running, failed, scroll as int, lines as int).0,
        r.1 == output_action(key, running, failed, scroll as int, lines as int).1,
{
    match key {
        Key::Up | Key::Char('k') => (OutputAction::Scroll, if scroll < lines { scroll + 1 } else { lines }),
        Key::Down | Key::Char('j') => (OutputAction::Scroll, if scroll > 1 { scroll - 1 } else { 0 }),
        Key::PageUp => (OutputAction::Scroll, if scroll < lines && lines - scroll > 10 { scroll + 10 } else { lines }),
        Key::PageDown => (OutputAction::Scroll, if scroll > 10 { scroll - 10 } else { 0 }),
        Key::Home => (OutputAction::Scroll, lines),
        Key::End => (OutputAction::Scroll, 0),
        Key::Enter | Key::Esc | Key::Char('q') | Key::Char('n') => (if running { OutputAction::Busy } else { OutputAction::Close }, scroll),
        Key::Char('o') | Key::Char('y') => (if !running && !failed { OutputAction::Follow } else { OutputAction::Nothing }, scroll),
        _ => (OutputAction::Nothing, scroll),
    }
}

/// What a key does in a text field.
#[derive(Debug, Clone, Copy, PartialEq, Eq, Structural)]
pub enum InputAction {
    /// ESC: the field closes, and with it a question's whole action.
    Cancel,
    DropChar,
    Type(char),
    Submit,
    Nothing,
}

/// What `key` does in a text field: ESC cancels, ENTER confirms, BACKSPACE erases, and
/// any character is typed, whatever modifier came with it.
pub fn input_key(key: Key) -> (r: InputAction)
    ensures
        r == match key {
            Key::Esc => InputAction::Cancel,
            Key::Backspace => InputAction::DropChar,
            Key::Char(c) | Key::Ctrl(c) | Key::Alt(c) => InputAction::Type(c),
            Key::Enter => InputAction::Submit,
            _ => InputAction::Nothing,
        },
{
    match key {
        Key::Esc => InputAction::Cancel,
        Key::Backspace => InputAction::DropChar,
        Key::Char(c) | Key::Ctrl(c) | Key::Alt(c) => InputAction::Type(c),
        Key::Enter => InputAction::Submit,
        _ => InputAction::Nothing,
    }
}

/// Is `key` a yes to a confirmation (`y`, or `o` for « oui »)?
pub fn confirms(key: Key) -> (r: bool)
    ensures
        r == (key == Key::Char('y') || key == Key::Char('o')),
{
    match key {
        Key::Char('y') | Key::Char('o') => true,
        _ => false,
    }
}

/// The separator of the shortcut bar.
pub open spec fn sep() -> Seq<char> {
    seq![' ', '·', ' ']
}

/// The items joined by the separator.
pub open spec fn bar(items: Seq<Seq<char>>) -> Seq<char>
    decreases items.len(),
{
    if items.len() == 0 {
        Seq::empty()
    } else if items.len() == 1 {
        items[0]
    } else {
        bar(items.drop_last()) + sep() + items.last()
    }
}

/// From `line`, the items from `i` on (`help` left out) added while they fit in `room`
/// characters, the first that does not fit ending it.
pub open spec fn fitted(items: Seq<Seq<char>>, help: Seq<char>, i: int, line: Seq<char>, room: int) -> Seq<char>
    decreases items.len() - i,
{
    if i < 0 || i >= items.len() {
        line
    } else if items[i] == help {
        fitted(items, help, i + 1, line, room)
    } else {
        let addition = if line.len() == 0 { items[i] } else { sep() + items[i] };
        if line.len() + addition.len() > room {
            line
        } else {
            fitted(items, help, i + 1, line + addition, room)
        }
    }
}

/// The shortcut bar in `width` columns: every shortcut when they fit (two columns of
/// margin kept); otherwise as many as fit, in order, then an ellipsis — but `help`
/// always stays visible, as it leads to the full list.
pub open spec fn shortcut_bar(items: Seq<Seq<char>>, help: Seq<char>, width: int) -> Seq<char> {
    let w = if width > 2 { width - 2 } else { 0 };
    let full = bar(items);
    if full.len() <= w {
        full
    } else {
        let reserve = sep().len() + help.len() + 1;
        let line = fitted(items, help, 0, Seq::empty(), w - reserve);
        if line.len() == 0 {
            help
        } else {
            line + seq!['…'] + sep() + help
        }
    }
}

/// The shortcut bar for `items` in `width` columns (see `shortcut_bar`).
pub fn shortcut_line(items: &Vec<String>, help: &str, width: u16) -> (r: String)
    ensures
        r@ == shortcut_bar(crate::text::strs(items@), help@, width as int),
{
    let ghost its = crate::text::strs(items@);
    let w: usize = if width > 2 { (width - 2) as usize } else { 0 };
    let s = vec![' ', '·', ' '];
    assert(s@ =~= sep());
    let mut full: Vec<char> = Vec::new();
    let mut i: usize = 0;
    while i < items.len()
        invariant
            i <= items@.len(),
            its == crate::text::strs(items@),
            s@ == sep(),
            full@ == bar(its.take(i as int)),
        decreases items@.len() - i,
    {
        assert(its.take(i + 1).drop_last() =~= its.take(i as int));
        assert(its[i as int] == items@[i as int]@);
        let ghost before = full@;
        if i > 0 {
            let mut sp = s.clone();
            full.append(&mut sp);
        }
        let mut w2 = chars_of(items[i].as_str());
        full.append(&mut w2);
        proof {
            if i == 0 {
                assert(full@ =~= its.take(1)[0]);
            } else {
                assert(full@ =~= before + sep() + its.take(i + 1).last());
            }
        }
        i += 1;
    }
    assert(its.take(items@.len() as int) =~= its);
    if full.len() <= w {
        return string_of(&full);
    }
    let hc = chars_of(help);
    let reserve: u128 = 3 + hc.len() as u128 + 1;
    let room: i128 = w as i128 - reserve as i128;
    let mut line: Vec<char> = Vec::new();
    let mut j: usize = 0;
    while j < items.len()
        invariant
            j <= items@.len(),
            its == crate::text::strs(items@),
            s@ == sep(),
            hc@ == help@,
            room == w - (sep().len() + help@.len() + 1),
            fitted(its, help@, j as int, line@, room as int) == fitted(its, help@, 0, Seq::empty(), room as int),
        ensures
            line@ == fitted(its, help@, 0, Seq::empty(), room as int),
        decreases items@.len() - j,
    {
        let item = chars_of(items[j].as_str());
        assert(its[j as int] == item@);
        if crate::text::same(&item, &hc) {
            j += 1;
            continue;
        }
        let add_len: u128 = if line.len() == 0 { item.len() as u128 } else { 3 + item.len() as u128 };
        if (line.len() as u128 + add_len) as i128 > room {
            break;
        }
        let ghost before = line@;
        if line.len() > 0 {
            let mut sp = s.clone();
            line.append(&mut sp);
        }
        let mut it2 = item;
        line.append(&mut it2);
        proof {
            if before.len() == 0 {
                assert(line@ =~= before + its[j as int]);
            } else {
                assert(line@ =~= before + (sep() + its[j as int]));
            }
        }
        j += 1;
    }
    if line.len() == 0 {
        return string_of(&hc);
    }
    line.push('…');
    let mut sp = s.clone();
    line.append(&mut sp);
    let mut h2 = hc;
    line.append(&mut h2);
    string_of(&line)
}

/// The lines an output panel of `height` lines shows out of `len`, scrolled up by
/// `scroll` from the bottom: the tail while `scroll` is 0, so the panel follows what
/// the action prints.
pub fn shown_lines(len: usize, scroll: usize, height: usize) -> (r: (usize, usize))
    ensures
        r.1 == (if scroll < len { len - scroll } else { 0 }),
        r.0 == (if r.1 > height { r.1 - height } else { 0 }),
{
    let end = if scroll < len { len - scroll } else { 0 };
    let start = if end > height { end - height } else { 0 };
    (start, end)
}

/// The row of a bordered list under line `y` of the screen, the list taking `height`
/// lines from line `top` and scrolled by `offset` rows: none on the borders or outside
/// (nor past the last row a `usize` can number).
pub fn row_at(top: u16, height: u16, offset: usize, y: u16) -> (r: Option<usize>)
    ensures
        r is Some <==> !(y <= top || y + 2 > top + height) && offset + (y - top - 1) <= usize::MAX,
        r matches Some(i) ==> i == offset + (y - top - 1),
{
    if y <= top || (y as u32) + 2 > (top as u32) + (height as u32) {
        return None;
    }
    let d = (y - top - 1) as usize;
    match offset.checked_add(d) {
        Some(i) => Some(i),
        None => None,
    }
}

/// A mouse event, as the interface reads it: the list row under a click (if the click
/// landed on one) and whether it repeats the previous click in place.
#[derive(Debug, Clone, Copy, PartialEq, Eq, Structural)]
pub enum Mouse {
    ScrollUp,
    ScrollDown,
    Click { row: Option<usize>, double: bool },
    Other,
}

/// The list's decision for a mouse event: the wheel moves the selection within the
/// rows; a click on another row selects it, and a double click on the selected row
/// opens its actions, as ENTER does.
pub open spec fn list_mouse_action(m: Mouse, rows: usize, sel: usize) -> ListAction {
    match m {
        Mouse::ScrollDown => if sel + 1 < rows { ListAction::Next } else { ListAction::Nothing },
        Mouse::ScrollUp => if sel > 0 { ListAction::Previous } else { ListAction::Nothing },
        Mouse::Click { row: Some(i), double } => if i >= rows {
            ListAction::Nothing
        } else if i != sel {
            ListAction::Select(i)
        } else if double {
            ListAction::Actions
        } else {
            ListAction::Nothing
        },
        _ => ListAction::Nothing,
    }
}

/// What a mouse event does in the list of `rows` worktrees whose row `sel` is selected.
pub fn list_mouse(m: Mouse, rows: usize, sel: usize) -> (r: ListAction)
    ensures
        r == list_mouse_action(m, rows, sel),
{
    match m {
        Mouse::ScrollDown => if sel < rows && rows - sel > 1 { ListAction::Next } else { ListAction::Nothing },
        Mouse::ScrollUp => if sel > 0 { ListAction::Previous } else { ListAction::Nothing },
        Mouse::Click { row: Some(i), double } => if i >= rows {
            ListAction::Nothing
        } else if i != sel {
            ListAction::Select(i)
        } else if double {
            ListAction::Actions
        } else {
            ListAction::Nothing
        },
        _ => ListAction::Nothing,
    }
}

/// What a mouse event does to the output panel, which is modal: whether it closes, and
/// the scroll offset after it. The wheel scrolls by three lines, never past the `lines`
/// there are; a double click inside the panel (`row` set) closes it once the action is
/// over.
pub fn output_mouse(m: Mouse, running: bool, scroll: usize, lines: usize) -> (r: (bool, usize))
    ensures
        r.0 == (!running && m matches Mouse::Click { row: Some(_), double: true }),
        r.1 == match m {
            Mouse::ScrollUp => if scroll + 3 < lines { scroll + 3 } else { lines as int },
            Mouse::ScrollDown => if scroll > 3 { scroll - 3 } else { 0 },
            _ => scroll as int,
        },
{
    match m {
        Mouse::ScrollUp => (false, if scroll < lines && lines - scroll > 3 { scroll + 3 } else { lines }),
        Mouse::ScrollDown => (false, if scroll > 3 { scroll - 3 } else { 0 }),
        Mouse::Click { row: Some(_), double: true } => (!running, scroll),
        _ => (false, scroll),
    }
}

/// What a mouse event does in a picker whose view shows `view_len` rows: the wheel
/// moves the cursor; a click on a row puts the cursor there, and ticks it in a multiple
/// selection; in a single choice a double click confirms it.
pub fn pick_mouse(m: Mouse, view_len: usize, multi: bool) -> (r: PickAction)
    ensures
        r == match m {
            Mouse::ScrollDown => PickAction::Move(1i8),
            Mouse::ScrollUp => PickAction::Move(-1i8),
            Mouse::Click { row: Some(i), double } => if i >= view_len {
                PickAction::Nothing
            } else if multi {
                PickAction::ToggleAt(i)
            } else if double {
                PickAction::SubmitAt(i)
            } else {
                PickAction::At(i)
            },
            _ => PickAction::Nothing,
        },
{
    match m {
        Mouse::ScrollDown => PickAction::Move(1i8),
        Mouse::ScrollUp => PickAction::Move(-1i8),
        Mouse::Click { row: Some(i), double } => if i >= view_len {
            PickAction::Nothing
        } else if multi {
            PickAction::ToggleAt(i)
        } else if double {
            PickAction::SubmitAt(i)
        } else {
            PickAction::At(i)
        },
        _ => PickAction::Nothing,
    }
}

} // verus!

verus! {

/// The list's keys, as the README gives them. `q` (or ESC, CTRL-C) quits; `j`/`k` and
/// the arrows move the selection one row, never off the list. With a row selected: ENTER
/// opens its actions, `s` starts it and `S` starts it with options (a project without an
/// `up` hook says it has no services), `d` stops it (without a `down` hook, there is
/// nothing to stop), `o` opens its address (a project without one says so), `c` opens
/// a shell in it and `r` removes it. With no row selected, none of these acts on a
/// worktree.
pub proof fn law_list_keys_act_on_the_selected_worktree(rows: usize, sel: usize, has_up: bool, has_down: bool, has_open: bool)
    ensures
        ({
            let act = |k: Key| list_action(k, sel < rows, sel + 1 < rows, sel > 0, has_up, has_down, has_open);
            &&& act(Key::Char('q')) == ListAction::Quit
            &&& act(Key::Esc) == ListAction::Quit
            &&& act(Key::Ctrl('c')) == ListAction::Quit
            &&& act(Key::Char('j')) == act(Key::Down)
            &&& act(Key::Char('k')) == act(Key::Up)
            &&& (act(Key::Down) == ListAction::Next <==> sel + 1 < rows)
            &&& (act(Key::Down) != ListAction::Next ==> act(Key::Down) == ListAction::Nothing)
            &&& (act(Key::Up) == ListAction::Previous <==> sel > 0)
            &&& (act(Key::Up) != ListAction::Previous ==> act(Key::Up) == ListAction::Nothing)
            &&& act(Key::Char('n')) == ListAction::NewWorktree
            &&& act(Key::Char('?')) == ListAction::Help
            &&& act(Key::Enter) == ListAction::Actions
            &&& (sel < rows ==> {
                &&& act(Key::Char('s')) == if has_up { ListAction::Start } else { ListAction::NoServices }
                &&& act(Key::Char('S')) == if has_up { ListAction::StartWithOptions } else { ListAction::NoServices }
                &&& act(Key::Char('d')) == if has_down { ListAction::Stop } else { ListAction::NothingToStop }
                &&& act(Key::Char('o')) == if has_open { ListAction::Open } else { ListAction::NoUrl }
                &&& act(Key::Char('c')) == ListAction::Shell
                &&& act(Key::Char('r')) == ListAction::Remove
            })
            &&& (sel >= rows ==> forall|k: Key| #![trigger act(k)]
                act(k) != ListAction::Start && act(k) != ListAction::StartWithOptions && act(k) != ListAction::Stop
                    && act(k) != ListAction::Open && act(k) != ListAction::Shell && act(k) != ListAction::Remove)
        }),
{
}

/// A picker's keys: ENTER submits, TAB ticks, the arrows move by one and the pages by
/// ten, BACKSPACE erases a character of the filter, and any other character is typed
/// into it. ESC clears a filter first and only then cancels; CTRL-C always cancels.
pub proof fn law_picker_keys(filter_empty: bool, c: char)
    ensures
        pick_action(Key::Enter, filter_empty) == PickAction::Submit,
        pick_action(Key::Tab, filter_empty) == PickAction::Toggle,
        pick_action(Key::Down, filter_empty) == PickAction::Move(1i8),
        pick_action(Key::Up, filter_empty) == PickAction::Move(-1i8),
        pick_action(Key::PageDown, filter_empty) == PickAction::Move(10i8),
        pick_action(Key::PageUp, filter_empty) == PickAction::Move(-10i8),
        pick_action(Key::Backspace, filter_empty) == PickAction::DropChar,
        pick_action(Key::Char(c), filter_empty) == PickAction::Type(c),
        pick_action(Key::Esc, filter_empty) == if filter_empty { PickAction::Cancel } else { PickAction::ClearFilter },
        pick_action(Key::Ctrl('c'), filter_empty) == PickAction::Cancel,
{
}

/// The output panel's keys keep the scroll offset within the output: from any offset
/// up to `lines`, every key leaves one from 0 to `lines`. Up and PAGE UP go back into
/// the output (by one and ten lines, as far as its first line), down and PAGE DOWN
/// come forward to the last line, HOME and END jump to either end. ENTER, ESC and `q`
/// close the panel once the action is over (while it runs they only say it is busy),
/// and `o`/`y` follow up only after a success.
pub proof fn law_output_keys_stay_in_the_output(key: Key, running: bool, failed: bool, scroll: int, lines: int)
    requires
        0 <= scroll <= lines,
    ensures
        0 <= output_action(key, running, failed, scroll, lines).1 <= lines,
        output_action(Key::Up, running, failed, scroll, lines).1 == if scroll < lines { scroll + 1 } else { lines },
        output_action(Key::Down, running, failed, scroll, lines).1 == if scroll > 0 { scroll - 1 } else { 0 },
        output_action(Key::PageUp, running, failed, scroll, lines).1 == if scroll + 10 < lines { scroll + 10 } else { lines },
        output_action(Key::PageDown, running, failed, scroll, lines).1 == if scroll > 10 { scroll - 10 } else { 0 },
        output_action(Key::Home, running, failed, scroll, lines).1 == lines,
        output_action(Key::End, running, failed, scroll, lines).1 == 0,
        output_action(Key::Enter, running, failed, scroll, lines).0 == if running { OutputAction::Busy } else { OutputAction::Close },
        output_action(Key::Esc, running, failed, scroll, lines).0 == if running { OutputAction::Busy } else { OutputAction::Close },
        output_action(Key::Char('y'), running, failed, scroll, lines).0 == if !running && !failed { OutputAction::Follow } else { OutputAction::Nothing },
{
}

} // verus!

verus! {

/// The mouse in the list: the wheel moves the selection one row, never off the list; a
/// click on another row selects that row, and a double click on the selected row opens
/// its actions, as ENTER does. A click outside the rows does nothing.
pub proof fn law_list_mouse(rows: usize, sel: usize, i: usize, double: bool)
    ensures
        (list_mouse_action(Mouse::ScrollDown, rows, sel) == ListAction::Next) <==> sel + 1 < rows,
        (list_mouse_action(Mouse::ScrollUp, rows, sel) == ListAction::Previous) <==> sel > 0,
        i < rows && i != sel ==> list_mouse_action(Mouse::Click { row: Some(i), double }, rows, sel) == ListAction::Select(i),
        sel < rows ==> (list_mouse_action(Mouse::Click { row: Some(sel), double: true }, rows, sel) == ListAction::Actions),
        i >= rows ==> list_mouse_action(Mouse::Click { row: Some(i), double }, rows, sel) == ListAction::Nothing,
        list_mouse_action(Mouse::Click { row: None, double }, rows, sel) == ListAction::Nothing,
{
}

} // verus!
