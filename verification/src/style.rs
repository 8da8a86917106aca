//! Colours and emphasis, as plain values.
use vstd::prelude::*;
use vstd::string::*;
use crate::text::str_eq;
use crate::ui::{Look, ViewRow};

verus! {

/// A colour of the terminal.
#[derive(Debug, Clone, Copy, PartialEq, Eq, Structural)]
pub enum Color {
    Reset,
    Black,
    Blue,
    Cyan,
    Magenta,
    Yellow,
    White,
    DarkGray,
    /// One of the 256 of the extended palette.
    Indexed(u8),
}

/// How a cell is drawn. What is not set is left to the terminal.
#[derive(Debug, Clone, Copy, PartialEq, Eq, Structural)]
pub struct Style {
    pub fg: Option<Color>,
    pub bg: Option<Color>,
    pub bold: bool,
    pub dim: bool,
    pub italic: bool,
    pub underlined: bool,
    pub crossed_out: bool,
}

/// Nothing is set.
pub open spec fn unstyled() -> Style {
    Style {
        fg: None,
        bg: None,
        bold: false,
        dim: false,
        italic: false,
        underlined: false,
        crossed_out: false,
    }
}

fn blank_style() -> (r: Style)
    ensures
        r == unstyled(),
{
    Style {
        fg: None,
        bg: None,
        bold: false,
        dim: false,
        italic: false,
        underlined: false,
        crossed_out: false,
    }
}

/// The style of a syntax tag of the highlighter.
pub open spec fn tag_style(tag: Seq<char>) -> Style {
    if tag == "heading"@ {
        Style { fg: Some(Color::Cyan), bold: true, ..unstyled() }
    } else if tag == "heading-marker"@ {
        Style { fg: Some(Color::Blue), dim: true, ..unstyled() }
    } else if tag == "list-marker"@ {
        Style { fg: Some(Color::Blue), ..unstyled() }
    } else if tag == "code"@ {
        Style { fg: Some(Color::Indexed(108)), ..unstyled() }
    } else if tag == "code-span"@ {
        Style { fg: Some(Color::Indexed(180)), ..unstyled() }
    } else if tag == "link"@ {
        Style { fg: Some(Color::Blue), underlined: true, ..unstyled() }
    } else if tag == "image"@ {
        Style { fg: Some(Color::Magenta), ..unstyled() }
    } else if tag == "strong"@ {
        Style { bold: true, ..unstyled() }
    } else if tag == "emph"@ {
        Style { italic: true, ..unstyled() }
    } else if tag == "strike"@ {
        Style { crossed_out: true, ..unstyled() }
    } else if tag == "html"@ {
        Style { fg: Some(Color::DarkGray), ..unstyled() }
    } else if tag == "hr"@ {
        Style { fg: Some(Color::DarkGray), ..unstyled() }
    } else if tag == "quote"@ {
        Style { fg: Some(Color::Indexed(245)), italic: true, ..unstyled() }
    } else if tag == "table"@ {
        Style { fg: Some(Color::DarkGray), ..unstyled() }
    } else if tag == "cell"@ {
        Style { fg: Some(Color::Reset), ..unstyled() }
    } else {
        unstyled()
    }
}

/// Colours for the syntax tags of the highlighter.
pub fn syntax_style(tag: &str) -> (r: Style)
    ensures
        r == tag_style(tag@),
{
    let s = blank_style();
    if str_eq(tag, "heading") {
        Style { fg: Some(Color::Cyan), bold: true, ..s }
    } else if str_eq(tag, "heading-marker") {
        Style { fg: Some(Color::Blue), dim: true, ..s }
    } else if str_eq(tag, "list-marker") {
        Style { fg: Some(Color::Blue), ..s }
    } else if str_eq(tag, "code") {
        Style { fg: Some(Color::Indexed(108)), ..s }
    } else if str_eq(tag, "code-span") {
        Style { fg: Some(Color::Indexed(180)), ..s }
    } else if str_eq(tag, "link") {
        Style { fg: Some(Color::Blue), underlined: true, ..s }
    } else if str_eq(tag, "image") {
        Style { fg: Some(Color::Magenta), ..s }
    } else if str_eq(tag, "strong") {
        Style { bold: true, ..s }
    } else if str_eq(tag, "emph") {
        Style { italic: true, ..s }
    } else if str_eq(tag, "strike") {
        Style { crossed_out: true, ..s }
    } else if str_eq(tag, "html") {
        Style { fg: Some(Color::DarkGray), ..s }
    } else if str_eq(tag, "hr") {
        Style { fg: Some(Color::DarkGray), ..s }
    } else if str_eq(tag, "quote") {
        Style { fg: Some(Color::Indexed(245)), italic: true, ..s }
    } else if str_eq(tag, "table") {
        Style { fg: Some(Color::DarkGray), ..s }
    } else if str_eq(tag, "cell") {
        Style { fg: Some(Color::Reset), ..s }
    } else {
        s
    }
}

/// The style of a look.
pub open spec fn look_style(look: Look) -> Style {
    match look {
        Look::Plain => unstyled(),
        Look::Syntax(tag) => tag_style(tag@),
        Look::Selected => Style { bg: Some(Color::Indexed(238)), fg: Some(Color::White), ..unstyled() },
        Look::Cursor => Style { bg: Some(Color::Yellow), fg: Some(Color::Black), bold: true, ..unstyled() },
        Look::Caret => Style { bg: Some(Color::Yellow), fg: Some(Color::Black), ..unstyled() },
        Look::Muted => Style { fg: Some(Color::DarkGray), ..unstyled() },
        Look::Accent => Style { fg: Some(Color::Yellow), ..unstyled() },
        Look::Note => Style { fg: Some(Color::Magenta), ..unstyled() },
        Look::Info => Style { fg: Some(Color::Cyan), ..unstyled() },
    }
}

/// How a look is drawn.
pub fn style_of(look: Look) -> (r: Style)
    ensures
        r == look_style(look),
{
    let s = blank_style();
    match look {
        Look::Plain => s,
        Look::Syntax(tag) => syntax_style(tag),
        Look::Selected => Style { bg: Some(Color::Indexed(238)), fg: Some(Color::White), ..s },
        Look::Cursor => Style { bg: Some(Color::Yellow), fg: Some(Color::Black), bold: true, ..s },
        Look::Caret => Style { bg: Some(Color::Yellow), fg: Some(Color::Black), ..s },
        Look::Muted => Style { fg: Some(Color::DarkGray), ..s },
        Look::Accent => Style { fg: Some(Color::Yellow), ..s },
        Look::Note => Style { fg: Some(Color::Magenta), ..s },
        Look::Info => Style { fg: Some(Color::Cyan), ..s },
    }
}

/// The gutter of a row: its line number and its selection bar stand out on the cursor's line and on
/// a selected one, a question's mark and an annotation's are told apart by colour.
pub struct GutterStyle {
    pub number: Style,
    pub dot: Style,
    pub bar: Style,
}

fn tint(on: bool) -> (r: Style)
    ensures
        r == look_style(
            if on {
                Look::Accent
            } else {
                Look::Muted
            },
        ),
{
    style_of(
        if on {
            Look::Accent
        } else {
            Look::Muted
        },
    )
}

pub fn gutter_style(row: &ViewRow) -> (r: GutterStyle)
    ensures
        r.number == look_style(
            if row.on_cursor {
                Look::Accent
            } else {
                Look::Muted
            },
        ),
        r.dot == (Style {
            bold: true,
            ..look_style(
                if row.dot@ == "?"@ {
                    Look::Info
                } else {
                    Look::Note
                },
            )
        }),
        r.bar == look_style(
            if row.selected {
                Look::Accent
            } else {
                Look::Muted
            },
        ),
{
    let asked = str_eq(row.dot, "?");
    let dot = style_of(
        if asked {
            Look::Info
        } else {
            Look::Note
        },
    );
    GutterStyle {
        number: tint(row.on_cursor),
        dot: Style { bold: true, ..dot },
        bar: tint(row.selected),
    }
}

/// The marker of a row that runs past the right edge: in the cursor's own style where it takes the
/// cursor with it.
pub fn cut_style(hides_cursor: bool) -> (r: Style)
    ensures
        r == look_style(
            if hides_cursor {
                Look::Cursor
            } else {
                Look::Muted
            },
        ),
{
    style_of(
        if hides_cursor {
            Look::Cursor
        } else {
            Look::Muted
        },
    )
}

} // verus!
