use wt::ansi::{Color, Span, Style, BOLD, UNDERLINED};
use wt::picker::{cell, drop_last_word, truncate, Choice, Picker};

fn choice(key: &str, label: &str, detail: &str) -> Choice {
    Choice {
        key: key.to_string(),
        label: label.to_string(),
        detail: detail.to_string(),
        disabled: false,
        checked: false,
    }
}

fn picker(items: &[(&str, &str)], multi: bool) -> Picker<()> {
    let items = items
        .iter()
        .map(|(label, detail)| choice(label, label, detail))
        .collect();
    Picker::new(String::new(), items, (), multi)
}

fn labels(p: &Picker<()>) -> Vec<&str> {
    p.view
        .iter()
        .map(|h| p.items[h.idx].label.as_str())
        .collect()
}

fn default_style() -> Style {
    Style { fg: None, bg: None, underline_color: None, add_modifier: 0, sub_modifier: 0 }
}

#[test]
fn an_empty_filter_keeps_the_declared_order() {
    let p = picker(&[("zeta", ""), ("alpha", "")], false);
    assert_eq!(labels(&p), ["zeta", "alpha"]);
}

#[test]
fn filtering_narrows_and_ranks() {
    let mut p = picker(
        &[("prod-acme", ""), ("staging", ""), ("acme-prod", "")],
        false,
    );
    p.edit_filter(|mut f: String| {
        f.push_str("acme");
        f
    });
    // Both survive; the one whose match starts earliest leads.
    assert_eq!(labels(&p), ["acme-prod", "prod-acme"]);
}

#[test]
fn the_filter_reaches_the_detail_column() {
    let mut p = picker(&[("acme", "production"), ("globex", "staging")], false);
    p.edit_filter(|mut f: String| {
        f.push_str("acme prod");
        f
    });
    assert_eq!(labels(&p), ["acme"]);
    // The detail's positions are relative to the detail, not to the joined line.
    assert_eq!(p.view[0].detail, [0, 1, 2, 3]);
    assert_eq!(p.view[0].label, [0, 1, 2, 3]);
}

#[test]
fn the_cursor_goes_back_to_the_best_match() {
    let mut p = picker(&[("alpha", ""), ("beta", ""), ("gamma", "")], false);
    p.sel = 2;
    // Typing aims at the top of the list: ENTER must not confirm the row the
    // cursor happened to sit on before the query.
    p.edit_filter(|mut f: String| {
        f.push('a');
        f
    });
    assert_eq!(p.current_index(), Some(0));
}

#[test]
fn a_filter_that_matches_nothing_leaves_no_selection() {
    let mut p = picker(&[("alpha", "")], false);
    p.edit_filter(|mut f: String| {
        f.push_str("zzz");
        f
    });
    assert!(p.view.is_empty());
    assert_eq!(p.current_index(), None);
    p.move_by(1);
    assert_eq!(p.current_index(), None);
}

#[test]
fn ticked_boxes_survive_the_filter() {
    let mut p = picker(&[("acme", ""), ("globex", "")], true);
    p.toggle();
    p.edit_filter(|mut f: String| {
        f.push_str("globex");
        f
    });
    p.toggle();
    p.edit_filter(|mut f: String| {
        f.clear();
        f
    });
    assert!(p.items.iter().all(|c| c.checked));
}

#[test]
fn navigation_stays_inside_the_view() {
    let mut p = picker(&[("a", ""), ("b", ""), ("c", "")], false);
    p.move_by(-1);
    assert_eq!(p.sel, 0);
    p.move_by(10);
    assert_eq!(p.sel, 2);
}

#[test]
fn a_cell_highlights_what_matched() {
    let base = default_style();
    let spans = cell("acme", &[0, 1], base, 4, false);
    let rendered: Vec<&str> = spans.iter().map(|s: &Span| s.content.as_str()).collect();
    assert_eq!(rendered, ["ac", "me"]);
    assert!(spans[0].style.add_modifier & UNDERLINED != 0);
    assert!(spans[1].style.add_modifier & UNDERLINED == 0);
    assert_eq!(spans[0].style.fg, Some(Color::Yellow));
    assert_eq!(spans[0].style.add_modifier, BOLD | UNDERLINED);
}

#[test]
fn a_cell_truncates_and_pads_to_its_column() {
    let base = default_style();
    let width = |spans: Vec<Span>| {
        spans
            .iter()
            .map(|s| s.content.chars().count())
            .sum::<usize>()
    };
    assert_eq!(width(cell("acme", &[], base, 10, true)), 10);
    assert_eq!(width(cell("acme", &[], base, 10, false)), 4);
    assert_eq!(width(cell("acme-production", &[], base, 6, true)), 6);
}

#[test]
fn deleting_a_word_cuts_on_a_character_boundary() {
    let mut f = String::from("acme prod");
    drop_last_word(&mut f);
    assert_eq!(f, "acme ");
    drop_last_word(&mut f);
    assert_eq!(f, "");
    drop_last_word(&mut f);
    assert_eq!(f, "");
    // A non-breaking space is two bytes wide: cutting on a byte index would panic.
    let mut f = String::from("acme\u{a0}prod");
    drop_last_word(&mut f);
    assert_eq!(f, "acme\u{a0}");
}

#[test]
fn truncating_marks_what_was_cut() {
    assert_eq!(truncate("acme", 4), "acme");
    assert_eq!(truncate("acme-prod", 5), "acme…");
    assert_eq!(truncate("acme", 0), "…");
}

#[test]
fn the_cursor_lands_on_a_default() {
    let mut p = picker(&[("a", ""), ("b", ""), ("c", "")], false);
    p.select(2);
    assert_eq!(p.current_index(), Some(2));
    p.select(9);
    assert_eq!(p.current_index(), Some(2));
}

#[test]
fn a_cut_cell_ends_with_an_ellipsis() {
    let spans = cell("acme-production", &[0, 5, 6], default_style(), 6, false);
    let rendered: Vec<&str> = spans.iter().map(|s: &Span| s.content.as_str()).collect();
    assert_eq!(rendered, ["a", "cme-", "…"]);
}
