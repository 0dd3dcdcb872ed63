use wt::keys::{confirms, input_key, list_key, list_mouse, output_key, output_mouse, pick_key, pick_mouse, shortcut_line, InputAction, Key, ListAction, Mouse, OutputAction, PickAction};

#[test]
fn list_letters_are_shortcuts_and_depend_on_the_project() {
    assert_eq!(list_key(Key::Char('q'), 3, 0, true, true, true), ListAction::Quit);
    assert_eq!(list_key(Key::Esc, 3, 0, true, true, true), ListAction::Quit);
    assert_eq!(list_key(Key::Char('s'), 3, 1, true, true, true), ListAction::Start);
    assert_eq!(list_key(Key::Char('s'), 3, 1, false, true, true), ListAction::NoServices);
    assert_eq!(list_key(Key::Char('S'), 3, 1, true, true, true), ListAction::StartWithOptions);
    assert_eq!(list_key(Key::Char('d'), 3, 1, true, false, true), ListAction::NothingToStop);
    assert_eq!(list_key(Key::Char('o'), 3, 1, true, true, false), ListAction::NoUrl);
    assert_eq!(list_key(Key::Char('o'), 3, 1, true, true, true), ListAction::Open);
    assert_eq!(list_key(Key::Char('n'), 0, 0, true, true, true), ListAction::NewWorktree);
    assert_eq!(list_key(Key::Char('x'), 3, 1, true, true, true), ListAction::Nothing);
}

#[test]
fn list_navigation_stays_inside_the_rows() {
    assert_eq!(list_key(Key::Down, 3, 1, true, true, true), ListAction::Next);
    assert_eq!(list_key(Key::Char('j'), 3, 2, true, true, true), ListAction::Nothing);
    assert_eq!(list_key(Key::Up, 3, 0, true, true, true), ListAction::Nothing);
    assert_eq!(list_key(Key::Char('k'), 3, 2, true, true, true), ListAction::Previous);
}

#[test]
fn row_actions_need_a_selected_worktree() {
    assert_eq!(list_key(Key::Char('r'), 0, 0, true, true, true), ListAction::Nothing);
    assert_eq!(list_key(Key::Char('c'), 0, 0, true, true, true), ListAction::Nothing);
    assert_eq!(list_key(Key::Char('r'), 2, 1, true, true, true), ListAction::Remove);
    assert_eq!(list_key(Key::Char('c'), 2, 0, true, true, true), ListAction::Shell);
}

#[test]
fn in_a_picker_letters_feed_the_filter() {
    assert_eq!(pick_key(Key::Char('j'), true), PickAction::Type('j'));
    assert_eq!(pick_key(Key::Char('q'), false), PickAction::Type('q'));
    assert_eq!(pick_key(Key::Ctrl('j'), true), PickAction::Move(1));
    assert_eq!(pick_key(Key::Ctrl('p'), true), PickAction::Move(-1));
    assert_eq!(pick_key(Key::PageDown, true), PickAction::Move(10));
    assert_eq!(pick_key(Key::Tab, true), PickAction::Toggle);
    assert_eq!(pick_key(Key::Enter, true), PickAction::Submit);
    assert_eq!(pick_key(Key::Ctrl('w'), true), PickAction::DropWord);
    assert_eq!(pick_key(Key::Backspace, true), PickAction::DropChar);
}

#[test]
fn escape_clears_the_search_before_closing_the_picker() {
    assert_eq!(pick_key(Key::Esc, false), PickAction::ClearFilter);
    assert_eq!(pick_key(Key::Esc, true), PickAction::Cancel);
    assert_eq!(pick_key(Key::Ctrl('c'), false), PickAction::Cancel);
}

#[test]
fn the_output_panel_scrolls_within_its_lines() {
    assert_eq!(output_key(Key::Up, false, false, 0, 20), (OutputAction::Scroll, 1));
    assert_eq!(output_key(Key::Up, false, false, 20, 20), (OutputAction::Scroll, 20));
    assert_eq!(output_key(Key::Down, false, false, 0, 20), (OutputAction::Scroll, 0));
    assert_eq!(output_key(Key::PageUp, false, false, 15, 20), (OutputAction::Scroll, 20));
    assert_eq!(output_key(Key::PageUp, false, false, 2, 20), (OutputAction::Scroll, 12));
    assert_eq!(output_key(Key::PageDown, false, false, 12, 20), (OutputAction::Scroll, 2));
    assert_eq!(output_key(Key::Home, false, false, 3, 20), (OutputAction::Scroll, 20));
    assert_eq!(output_key(Key::End, false, false, 3, 20), (OutputAction::Scroll, 0));
}

#[test]
fn a_running_action_cannot_be_closed() {
    assert_eq!(output_key(Key::Esc, true, false, 4, 9), (OutputAction::Busy, 4));
    assert_eq!(output_key(Key::Esc, false, true, 4, 9), (OutputAction::Close, 4));
    assert_eq!(output_key(Key::Char('y'), false, false, 0, 9), (OutputAction::Follow, 0));
    assert_eq!(output_key(Key::Char('y'), false, true, 0, 9), (OutputAction::Nothing, 0));
    assert_eq!(output_key(Key::Char('y'), true, false, 0, 9), (OutputAction::Nothing, 0));
}

#[test]
fn y_and_o_confirm() {
    assert!(confirms(Key::Char('y')));
    assert!(confirms(Key::Char('o')));
    assert!(!confirms(Key::Char('n')));
    assert!(!confirms(Key::Enter));
}

#[test]
fn the_shortcut_bar_fits_or_keeps_help_visible() {
    let items: Vec<String> = vec!["n new".into(), "s start".into(), "? help".into()];
    assert_eq!(shortcut_line(&items, "? help", 80), "n new · s start · ? help");
    assert_eq!(shortcut_line(&items, "? help", 20), "n new… · ? help");
    assert_eq!(shortcut_line(&items, "? help", 5), "? help");
}

#[test]
fn a_text_field_types_every_character() {
    assert_eq!(input_key(Key::Char('a')), InputAction::Type('a'));
    assert_eq!(input_key(Key::Ctrl('c')), InputAction::Type('c'));
    assert_eq!(input_key(Key::Esc), InputAction::Cancel);
    assert_eq!(input_key(Key::Enter), InputAction::Submit);
    assert_eq!(input_key(Key::Backspace), InputAction::DropChar);
    assert_eq!(input_key(Key::Tab), InputAction::Nothing);
}

#[test]
fn the_wheel_moves_the_list_selection_within_its_rows() {
    assert_eq!(list_mouse(Mouse::ScrollDown, 3, 1), ListAction::Next);
    assert_eq!(list_mouse(Mouse::ScrollDown, 3, 2), ListAction::Nothing);
    assert_eq!(list_mouse(Mouse::ScrollUp, 3, 1), ListAction::Previous);
    assert_eq!(list_mouse(Mouse::ScrollUp, 3, 0), ListAction::Nothing);
    assert_eq!(list_mouse(Mouse::Other, 3, 0), ListAction::Nothing);
}

#[test]
fn a_click_selects_and_a_double_click_opens_the_actions() {
    assert_eq!(list_mouse(Mouse::Click { row: Some(2), double: false }, 3, 0), ListAction::Select(2));
    assert_eq!(list_mouse(Mouse::Click { row: Some(2), double: true }, 3, 0), ListAction::Select(2));
    assert_eq!(list_mouse(Mouse::Click { row: Some(0), double: true }, 3, 0), ListAction::Actions);
    assert_eq!(list_mouse(Mouse::Click { row: Some(0), double: false }, 3, 0), ListAction::Nothing);
    assert_eq!(list_mouse(Mouse::Click { row: Some(3), double: true }, 3, 0), ListAction::Nothing);
    assert_eq!(list_mouse(Mouse::Click { row: None, double: true }, 3, 0), ListAction::Nothing);
}

#[test]
fn the_wheel_scrolls_the_output_by_three_within_its_lines() {
    assert_eq!(output_mouse(Mouse::ScrollUp, true, 0, 10), (false, 3));
    assert_eq!(output_mouse(Mouse::ScrollUp, true, 8, 10), (false, 10));
    assert_eq!(output_mouse(Mouse::ScrollDown, false, 5, 10), (false, 2));
    assert_eq!(output_mouse(Mouse::ScrollDown, false, 2, 10), (false, 0));
    assert_eq!(output_mouse(Mouse::Click { row: Some(1), double: true }, false, 4, 10), (true, 4));
    assert_eq!(output_mouse(Mouse::Click { row: Some(1), double: true }, true, 4, 10), (false, 4));
    assert_eq!(output_mouse(Mouse::Click { row: Some(1), double: false }, false, 4, 10), (false, 4));
}

#[test]
fn a_click_in_a_multiple_choice_ticks_and_a_double_click_submits_a_single_one() {
    assert_eq!(pick_mouse(Mouse::ScrollDown, 4, false), PickAction::Move(1));
    assert_eq!(pick_mouse(Mouse::ScrollUp, 4, false), PickAction::Move(-1));
    assert_eq!(pick_mouse(Mouse::Click { row: Some(1), double: true }, 4, true), PickAction::ToggleAt(1));
    assert_eq!(pick_mouse(Mouse::Click { row: Some(1), double: true }, 4, false), PickAction::SubmitAt(1));
    assert_eq!(pick_mouse(Mouse::Click { row: Some(1), double: false }, 4, false), PickAction::At(1));
    assert_eq!(pick_mouse(Mouse::Click { row: Some(4), double: true }, 4, false), PickAction::Nothing);
}
