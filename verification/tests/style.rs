use marginal::style::{cut_style, gutter_style, style_of, syntax_style, Color, Style};
use marginal::ui::{Look, ViewRow};

const NONE: Style = Style {
    fg: None,
    bg: None,
    bold: false,
    dim: false,
    italic: false,
    underlined: false,
    crossed_out: false,
};

#[test]
fn every_syntax_tag_has_its_style() {
    let fg = |c| Style { fg: Some(c), ..NONE };
    let cases = [
        ("heading", Style { bold: true, ..fg(Color::Cyan) }),
        ("heading-marker", Style { dim: true, ..fg(Color::Blue) }),
        ("list-marker", fg(Color::Blue)),
        ("code", fg(Color::Indexed(108))),
        ("code-span", fg(Color::Indexed(180))),
        ("link", Style { underlined: true, ..fg(Color::Blue) }),
        ("image", fg(Color::Magenta)),
        ("strong", Style { bold: true, ..NONE }),
        ("emph", Style { italic: true, ..NONE }),
        ("strike", Style { crossed_out: true, ..NONE }),
        ("html", fg(Color::DarkGray)),
        ("hr", fg(Color::DarkGray)),
        ("quote", Style { italic: true, ..fg(Color::Indexed(245)) }),
        ("table", fg(Color::DarkGray)),
        ("cell", fg(Color::Reset)),
        ("paragraph", NONE),
        ("", NONE),
    ];
    for (tag, want) in cases {
        assert_eq!(syntax_style(tag), want, "{tag}");
        assert_eq!(style_of(Look::Syntax(tag)), want, "{tag}");
    }
}

#[test]
fn a_selection_and_the_cursor_stand_out() {
    let on = |bg, fg| Style { bg: Some(bg), fg: Some(fg), ..NONE };
    assert_eq!(style_of(Look::Plain), NONE);
    assert_eq!(style_of(Look::Selected), on(Color::Indexed(238), Color::White));
    assert_eq!(style_of(Look::Caret), on(Color::Yellow, Color::Black));
    let cursor = Style { bold: true, ..on(Color::Yellow, Color::Black) };
    assert_eq!(style_of(Look::Cursor), cursor);
    assert_eq!(cut_style(true), cursor);
    assert_eq!(cut_style(false).fg, Some(Color::DarkGray));
}

#[test]
fn a_question_and_an_annotation_are_told_apart_in_the_gutter() {
    let row = |dot, on_cursor, selected| ViewRow {
        number: "   1".into(),
        on_cursor,
        dot,
        bar: " ",
        selected,
        runs: Vec::new(),
        cut: None,
    };
    let asked = gutter_style(&row("?", true, false));
    assert_eq!((asked.dot.fg, asked.dot.bold), (Some(Color::Cyan), true));
    assert_eq!(asked.number.fg, Some(Color::Yellow));
    assert_eq!(asked.bar.fg, Some(Color::DarkGray));
    let noted = gutter_style(&row("●", false, true));
    assert_eq!((noted.dot.fg, noted.dot.bold), (Some(Color::Magenta), true));
    assert_eq!(noted.number.fg, Some(Color::DarkGray));
    assert_eq!(noted.bar.fg, Some(Color::Yellow));
}
