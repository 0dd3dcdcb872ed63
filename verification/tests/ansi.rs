use wt::ansi::{to_spans, Color, Span, Style, BOLD, UNDERLINED};

fn default_style() -> Style {
    Style { fg: None, bg: None, underline_color: None, add_modifier: 0, sub_modifier: 0 }
}

fn plain(line: &str) -> String {
    to_spans(line, default_style())
        .iter()
        .map(|s: &Span| s.content.as_str())
        .collect()
}

#[test]
fn colours_instead_of_printing_codes() {
    let spans = to_spans("\x1b[36m  ·\x1b[0m .env rewired", default_style());
    assert_eq!(plain("\x1b[36m  ·\x1b[0m .env rewired"), "  · .env rewired");
    assert_eq!(spans[0].style.fg, Some(Color::Cyan));
    assert_eq!(spans[1].style.fg, None);
}

#[test]
fn ignores_non_graphic_sequences() {
    assert_eq!(plain("a\x1b[2Kb\x1b[1;3Hc"), "abc");
}

#[test]
fn keeps_the_last_progress_bar_state() {
    assert_eq!(plain("10%\r50%\r100%"), "100%");
}

#[test]
fn understands_extended_colours() {
    let spans = to_spans("\x1b[38;5;208mORANGE", default_style());
    assert_eq!(spans[0].style.fg, Some(Color::Indexed(208)));
    let spans = to_spans("\x1b[38;2;10;20;30mRGB", default_style());
    assert_eq!(spans[0].style.fg, Some(Color::Rgb(10, 20, 30)));
}

#[test]
fn returns_to_the_base_style_on_reset() {
    let base = Style { fg: Some(Color::Gray), ..default_style() };
    let spans = to_spans("\x1b[31mred\x1b[0mnormal", base);
    assert_eq!(spans[0].style.fg, Some(Color::Red));
    assert_eq!(spans[1].style.fg, Some(Color::Gray));
}

#[test]
fn strips_osc_hyperlinks() {
    assert_eq!(plain("\x1b]8;;http://x\x07text\x1b]8;;\x07"), "text");
}

#[test]
fn tabs_widen_and_control_characters_vanish() {
    assert_eq!(plain("a\tb\x07c"), "a    bc");
    assert_eq!(plain("done\r"), "");
}

#[test]
fn modifiers_come_and_go() {
    let spans = to_spans("\x1b[1;4mon\x1b[22mhalf\x1b[24moff", default_style());
    assert_eq!(spans[0].style.add_modifier, BOLD | UNDERLINED);
    assert_eq!(spans[1].style.add_modifier, UNDERLINED);
    assert_eq!(spans[2].style.add_modifier, 0);
    assert_eq!(spans[2].style.sub_modifier & (BOLD | UNDERLINED), BOLD | UNDERLINED);
}

#[test]
fn background_and_bright_colours() {
    let spans = to_spans("\x1b[44;91mx\x1b[49;39my", default_style());
    assert_eq!(spans[0].style.bg, Some(Color::Blue));
    assert_eq!(spans[0].style.fg, Some(Color::LightRed));
    assert_eq!(spans[1].style.bg, None);
    assert_eq!(spans[1].style.fg, None);
    // An empty code is a reset; `ESC[m` too.
    for line in ["\x1b[31mr\x1b[;mn", "\x1b[31mr\x1b[mn", "\x1b[31mr\x1b[ 0 mn"] {
        let spans = to_spans(line, default_style());
        assert_eq!(spans.len(), 2, "{line:?}");
        assert_eq!(spans[0].style.fg, Some(Color::Red));
        assert_eq!(spans[1].style.fg, None);
    }
}
