use marginal::app::{Anchor, Annotation, App, Mode};
use marginal::blocks::Pos;
use marginal::style;
use marginal::ui::{
    annotations_view, footer_view, input_view, panes, peek_view, segments, shorten_path, source_view, Area, Look, Run, ViewRow,
};
use ratatui::backend::TestBackend;
use ratatui::layout::Rect;
use ratatui::style::{Color, Modifier, Style};
use ratatui::text::{Line, Span};
use ratatui::widgets::{Block, Borders, Clear, Paragraph};
use ratatui::{Frame, Terminal};
use serde_json::Value;

fn rect(a: Area) -> Rect {
    Rect { x: a.x, y: a.y, width: a.width, height: a.height }
}

fn area(r: Rect) -> Area {
    Area { x: r.x, y: r.y, width: r.width, height: r.height }
}

fn color(c: style::Color) -> Color {
    match c {
        style::Color::Reset => Color::Reset,
        style::Color::Black => Color::Black,
        style::Color::Blue => Color::Blue,
        style::Color::Cyan => Color::Cyan,
        style::Color::Magenta => Color::Magenta,
        style::Color::Yellow => Color::Yellow,
        style::Color::White => Color::White,
        style::Color::DarkGray => Color::DarkGray,
        style::Color::Indexed(n) => Color::Indexed(n),
    }
}

fn paint(s: style::Style) -> Style {
    let mut out = Style { fg: s.fg.map(color), bg: s.bg.map(color), ..Style::default() };
    for (on, m) in [
        (s.bold, Modifier::BOLD),
        (s.dim, Modifier::DIM),
        (s.italic, Modifier::ITALIC),
        (s.underlined, Modifier::UNDERLINED),
        (s.crossed_out, Modifier::CROSSED_OUT),
    ] {
        if on {
            out = out.add_modifier(m);
        }
    }
    out
}

fn look(l: Look) -> Style {
    paint(style::style_of(l))
}

fn line(runs: &[Run]) -> Line<'_> {
    Line::from(runs.iter().map(|r| Span::styled(r.text.as_str(), look(r.look))).collect::<Vec<_>>())
}

fn gutter_line(row: &ViewRow) -> Line<'_> {
    let g = style::gutter_style(row);
    Line::from(vec![
        Span::styled(row.number.as_str(), paint(g.number)),
        Span::styled(row.dot, paint(g.dot)),
        Span::styled(row.bar, paint(g.bar)),
    ])
}

fn draw_source(f: &mut Frame, at: Area, app: &mut App, scroll: &mut Anchor) {
    let view = source_view(app, scroll, at);
    let border = Block::default().borders(Borders::ALL).title(view.title.as_str());
    f.render_widget(border, rect(at));
    let body = rect(view.body);
    f.render_widget(Paragraph::new(view.rows.iter().map(gutter_line).collect::<Vec<_>>()), rect(view.gutter));
    f.render_widget(Paragraph::new(view.rows.iter().map(|r| line(&r.runs)).collect::<Vec<_>>()), body);
    // The marker replaces what the truncated line left in the last cell.
    for (row, y) in view.rows.iter().zip(body.y..body.bottom()) {
        if let Some(hides_cursor) = row.cut {
            let marker = paint(style::cut_style(hides_cursor));
            f.buffer_mut()[(body.right() - 1, y)].set_symbol("›").set_style(marker);
        }
    }
}

fn draw_input(f: &mut Frame, at: Area, app: &App) {
    let view = input_view(app);
    let border = Block::default()
        .borders(Borders::ALL)
        .title(view.title.as_str())
        .border_style(look(Look::Accent));
    let rows: Vec<Line> = view.rows.iter().map(|r| line(r)).collect();
    f.render_widget(Paragraph::new(rows).block(border), rect(at));
}

fn draw_annotations(f: &mut Frame, at: Area, app: &App) {
    let view = annotations_view(app);
    let border = Block::default().borders(Borders::ALL).title(" annotations ");
    let rows: Vec<Line> = view.iter().map(|r| line(r)).collect();
    f.render_widget(Paragraph::new(rows).block(border), rect(at));
}

fn draw_footer(f: &mut Frame, at: Area, app: &App) {
    let view = footer_view(app, at);
    f.render_widget(Paragraph::new(Span::styled(view.keys.as_str(), look(Look::Muted))), rect(view.keys_area));
    f.render_widget(Paragraph::new(Span::styled(view.status.as_str(), look(Look::Info))), rect(view.status_area));
}

fn draw_peek(f: &mut Frame, at: Area, app: &mut App) {
    let view = peek_view(app, at);
    let border = Block::default()
        .borders(Borders::ALL)
        .border_style(look(Look::Info))
        .title(view.title.as_str());
    let rows: Vec<Line> = view.rows.iter().map(|r| Line::raw(r.as_str())).collect();
    f.render_widget(Clear, rect(view.area));
    f.render_widget(Paragraph::new(rows).block(border), rect(view.area));
}

fn draw(f: &mut Frame, app: &mut App, scroll: &mut Anchor) {
    let at = panes(app, area(f.area()));
    draw_source(f, at[0], app, scroll);
    if app.mode == Mode::Input {
        draw_input(f, at[1], app);
    }
    draw_annotations(f, at[2], app);
    draw_footer(f, at[3], app);
    if app.peek {
        draw_peek(f, at[0], app);
    }
}

/// The outcome of the session as the text of a JSON object.
fn json(app: &App) -> String {
    let out = app.result();
    let text = |s: &str| Value::from(s);
    let mut source = serde_json::Map::new();
    source.insert("path".into(), text(&out.source.path));
    if let Some(label) = &out.source.label {
        source.insert("label".into(), text(label));
    }
    source.insert("lines".into(), Value::from(out.source.lines));
    let annotation = |a: &Annotation| {
        let mut m = serde_json::Map::new();
        m.insert("id".into(), text(&a.id));
        m.insert("type".into(), text(a.kind));
        m.insert("blockKind".into(), text(&a.block_kind));
        m.insert("startLine".into(), Value::from(a.start_line));
        m.insert("startCol".into(), Value::from(a.start_col));
        m.insert("endLine".into(), Value::from(a.end_line));
        m.insert("endCol".into(), Value::from(a.end_col));
        m.insert("wholeLines".into(), Value::from(a.whole_lines));
        m.insert("originalText".into(), text(&a.original_text));
        m.insert("text".into(), text(&a.text));
        Value::Object(m)
    };
    let mut m = serde_json::Map::new();
    m.insert("version".into(), Value::from(out.version));
    m.insert("decision".into(), text(out.decision));
    m.insert("source".into(), Value::Object(source));
    m.insert("annotations".into(), Value::Array(out.annotations.iter().map(annotation).collect()));
    m.insert("feedbackMarkdown".into(), text(&out.feedback_markdown));
    Value::Object(m).to_string()
}

const DOC: &str = "# Steps\n\n- [ ] Add validation to the login form\n- [ ] Write tests\n\nUse `parse_document` here.\n";

fn render_buf(app: &mut App, w: u16, h: u16) -> ratatui::buffer::Buffer {
    let mut term = Terminal::new(TestBackend::new(w, h)).unwrap();
    let mut scroll = Anchor::default();
    term.draw(|f| draw(f, app, &mut scroll)).unwrap();
    term.backend().buffer().clone()
}

fn has_cursor(buf: &ratatui::buffer::Buffer) -> bool {
    (0..buf.area.height)
        .any(|y| (0..buf.area.width).any(|x| buf[(x, y)].style().bg == Some(Color::Yellow)))
}

fn render(app: &mut App, w: u16, h: u16) -> String {
    let mut term = Terminal::new(TestBackend::new(w, h)).unwrap();
    let mut scroll = Anchor::default();
    term.draw(|f| draw(f, app, &mut scroll)).unwrap();
    let buf = term.backend().buffer().clone();
    (0..buf.area.height)
        .map(|y| {
            (0..buf.area.width)
                .map(|x| buf[(x, y)].symbol().to_string())
                .collect::<String>()
        })
        .collect::<Vec<_>>()
        .join("\n")
}

#[test]
fn renders_source_with_gutter_and_header() {
    let mut app = App::new("PLAN.md".into(), DOC);
    let screen = render(&mut app, 100, 24);
    assert!(screen.contains("6 lines · 4 units · 0 annotations · PLAN.md"));
    assert!(screen.contains("   1 ▍# Steps"));
    assert!(screen.contains("   3  - [ ] Add validation to the login form"));
    assert!(screen.contains("no annotations yet"));
    assert!(screen.contains("c comment"));
    assert!(screen.contains("q quit"));
}

#[test]
fn renders_a_multi_block_selection_and_its_annotation() {
    let mut app = App::new("PLAN.md".into(), DOC);
    app.move_block(1);
    app.toggle_blocks();
    app.move_block(1);
    let screen = render(&mut app, 100, 24);
    assert!(screen.contains("   3 ▍- [ ] Add validation to the login form"));
    assert!(screen.contains("   4 ▍- [ ] Write tests"));

    app.begin_comment();
    app.editor.set("model layer");
    app.commit_comment();
    let screen = render(&mut app, 100, 24);
    assert!(screen.contains("   3● "), "{screen}");
    assert!(screen.contains("   4●▍"), "{screen}");
    assert!(screen.contains("L3-4"));
    assert!(screen.contains("model layer"));
}

#[test]
fn a_mid_line_selection_still_renders_the_whole_line() {
    let mut app = App::new("PLAN.md".into(), DOC);
    app.cursor = Pos::new(6, 6);
    app.contract(); // paragraph -> the code span, columns 5..20
    let screen = render(&mut app, 100, 24);
    assert!(screen.contains("Use `parse_document` here."));
    assert!(screen.contains("code-span L6:5-20"));
}

#[test]
fn multibyte_lines_survive_segmentation() {
    let mut app = App::new("u.md".into(), "Prüfen `köde` hier — ✓ fertig.\n");
    app.cursor = Pos::new(1, 10);
    app.contract();
    let screen = render(&mut app, 100, 12);
    assert!(screen.contains("Prüfen `köde` hier — ✓ fertig."));
}

#[test]
fn input_mode_shows_the_target_range() {
    let mut app = App::new("PLAN.md".into(), DOC);
    app.move_block(1);
    app.toggle_blocks();
    app.move_block(1);
    app.begin_comment();
    let screen = render(&mut app, 100, 24);
    assert!(screen.contains("comment on"));
    assert!(screen.contains("L3-4"));
    assert!(screen.contains("Enter saves"));
    assert!(screen.contains("C-j newline"));
}

#[test]
fn a_multi_line_comment_renders_every_row() {
    let mut app = App::new("PLAN.md".into(), DOC);
    app.begin_comment();
    for c in "first".chars() {
        app.editor.insert(c);
    }
    app.editor.newline();
    for c in "second".chars() {
        app.editor.insert(c);
    }
    let screen = render(&mut app, 100, 24);
    assert!(screen.contains("> first"), "{screen}");
    assert!(screen.contains("  second"), "{screen}");
}

#[test]
fn syntax_marks_do_not_disturb_the_rendered_text() {
    let src = "## Steps\n\n- [ ] Use `parse_document` and **mind** the [docs](https://x.dev)\n";
    let mut app = App::new("PLAN.md".into(), src);
    let screen = render(&mut app, 100, 16);
    assert!(screen.contains("## Steps"));
    assert!(
        screen.contains("- [ ] Use `parse_document` and **mind** the [docs](https://x.dev)")
    );
}

#[test]
fn scrolls_to_keep_the_cursor_visible_on_a_long_file() {
    let src: String = (1..=500).map(|i| format!("para {i}\n\n")).collect();
    let mut app = App::new("big.md".into(), &src);
    app.goto_last();
    let screen = render(&mut app, 80, 24);
    assert!(screen.contains("para 500"));
    assert!(!screen.contains("para 1\n"));
}

#[test]
fn renders_an_empty_file_without_panicking() {
    let mut app = App::new("empty.md".into(), "");
    let screen = render(&mut app, 80, 24);
    assert!(screen.contains("0 units"));
}

#[test]
fn survives_a_tiny_terminal() {
    let mut app = App::new("PLAN.md".into(), DOC);
    render(&mut app, 20, 6);
    render(&mut app, 10, 3);
}

#[test]
fn a_long_path_never_costs_the_selection_readout_in_the_title() {
    let long = "/tmp/viewer-1000/-home-markus-Stuff-2026-07-27-scratch-marginal/\
                7d415313-bed3-412e-8fed-f0dd60064d/scratchpad/review.md";
    let mut app = App::new(long.into(), DOC);
    app.cursor = Pos::new(6, 6);
    app.contract();
    let screen = render(&mut app, 95, 24);
    assert!(screen.contains("code-span L6:5-20"), "{screen}");
    assert!(screen.contains("6 lines"), "{screen}");
    assert!(
        screen.contains("review.md"),
        "path tail must survive: {screen}"
    );
    assert!(screen.contains('…'), "long path should be elided: {screen}");
}

#[test]
fn a_short_path_is_left_alone() {
    let mut app = App::new("PLAN.md".into(), DOC);
    let screen = render(&mut app, 95, 24);
    assert!(screen.contains("PLAN.md"));
    assert!(!screen.contains('…'), "{screen}");
}

#[test]
fn a_label_replaces_the_path_in_the_title() {
    let long = "/tmp/viewer-1000/-home-markus-Stuff-2026-07-27-scratch-marginal/\
                7d415313-bed3-412e-8fed-f0dd60064d/scratchpad/review.md";
    let mut app = App::new(long.into(), DOC);
    app.label = Some("assistant-message".into());
    let screen = render(&mut app, 95, 24);
    assert!(screen.contains("assistant-message"), "{screen}");
    assert!(!screen.contains("scratchpad"), "{screen}");
    assert!(!screen.contains('…'), "{screen}");
}

#[test]
fn shorten_path_keeps_the_tail_and_respects_the_budget() {
    assert_eq!(shorten_path("short.md", 20), "short.md");
    assert_eq!(shorten_path("/a/b/c/long.md", 8), "…long.md");
    assert_eq!(shorten_path("/a/b/c/long.md", 1), "…");
    assert_eq!(shorten_path("/a/b/c/long.md", 0), "…");
    assert_eq!(shorten_path("/tmp/Prüfen/köde.md", 8), "…köde.md");
}

#[test]
fn narrow_footers_fall_back_to_shorter_key_hints() {
    for w in [120u16, 95, 60, 30, 12] {
        let mut app = App::new("PLAN.md".into(), DOC);
        let screen = render(&mut app, w, 12);
        assert!(
            screen.contains("q quit"),
            "width {w} lost the quit key:\n{screen}"
        );
    }
}

fn long_doc() -> String {
    format!("# H\n\n{}and `code_span` at the end.\n", "word ".repeat(34))
}

#[test]
fn a_line_that_runs_past_the_edge_says_so() {
    let mut app = App::new("long.md".into(), &long_doc());
    app.pretty = false;
    let buf = render_buf(&mut app, 60, 12);
    let row: String = (0..buf.area.width).map(|x| buf[(x, 3)].symbol()).collect();
    assert!(row.contains("   3"), "expected line 3 on row 3: {row}");
    assert!(row.ends_with("›│"), "no truncation marker: {row}");

    let row1: String = (0..buf.area.width).map(|x| buf[(x, 1)].symbol()).collect();
    assert!(
        !row1.contains('›'),
        "short line marked as truncated: {row1}"
    );
}

#[test]
fn the_cursor_is_never_silently_off_screen() {
    let mut app = App::new("long.md".into(), &long_doc());
    app.pretty = false;
    app.cursor = Pos::new(3, 1);
    app.goto_line_end();
    let buf = render_buf(&mut app, 60, 12);
    assert!(
        has_cursor(&buf),
        "cursor vanished at column {}",
        app.cursor.col
    );
    let x = buf.area.width - 2;
    assert_eq!(buf[(x, 3)].symbol(), "›");
    assert_eq!(buf[(x, 3)].style().bg, Some(Color::Yellow));
}

#[test]
fn the_title_reports_the_cursor_column_even_when_the_cursor_is_not_drawn() {
    let mut app = App::new("long.md".into(), &long_doc());
    app.cursor = Pos::new(3, 1);
    app.goto_line_end();
    let screen = render(&mut app, 60, 12);
    assert!(screen.contains("L3:197"), "{screen}");
}

#[test]
fn an_annotation_on_a_long_line_is_still_visible() {
    let mut app = App::new("long.md".into(), &long_doc());
    app.cursor = Pos::new(3, 1);
    app.begin_comment();
    app.editor.set("too long");
    app.commit_comment();
    let screen = render(&mut app, 60, 12);
    assert!(screen.contains("   3●"), "{screen}");
}

#[test]
fn the_gutter_widens_for_five_digit_line_numbers() {
    let src: String = (1..=10_050).map(|i| format!("p{i}\n\n")).collect();
    let mut app = App::new("huge.md".into(), &src);
    app.goto_last();
    let screen = render(&mut app, 60, 12);
    assert!(screen.contains("20099"), "{screen}");
}

#[test]
fn a_tab_occupies_exactly_one_cell_so_columns_do_not_drift() {
    let mut app = App::new("t.md".into(), "a\tb\tc END\n");
    assert_eq!(app.line_len(1), 9);
    let buf = render_buf(&mut app, 40, 8);
    let row: String = (0..buf.area.width).map(|x| buf[(x, 1)].symbol()).collect();
    assert!(row.contains("a b c END"), "{row}");

    app.cursor = Pos::new(1, 5);
    let buf = render_buf(&mut app, 40, 8);
    let x = (0..buf.area.width)
        .find(|&x| buf[(x, 1)].style().bg == Some(Color::Yellow))
        .expect("cursor on screen");
    assert_eq!(buf[(x, 1)].symbol(), "c");
}

#[test]
fn peek_wraps_the_selection_over_the_source_view() {
    let mut app = App::new("long.md".into(), &long_doc());
    app.cursor = Pos::new(3, 1);
    app.toggle_peek();
    let screen = render(&mut app, 60, 16);
    assert!(screen.contains("peek: paragraph"), "{screen}");
    assert!(screen.contains("at the end."), "{screen}");
    assert!(app.peek_rows > 1, "text should have wrapped");
}

#[test]
fn a_long_line_wraps_onto_the_rows_below_it() {
    let mut app = App::new("long.md".into(), &long_doc());
    let screen = render(&mut app, 60, 16);
    assert!(!screen.contains('›'), "nothing runs off the edge: {screen}");
    assert!(
        screen.contains("at the end."),
        "the tail of the line should be on screen: {screen}"
    );
}

#[test]
fn the_gutter_numbers_a_line_once_however_many_rows_it_takes() {
    let mut app = App::new("long.md".into(), &long_doc());
    let screen = render(&mut app, 60, 16);
    let field = |l: &str| l.chars().skip(1).take(4).collect::<String>();
    let numbered = screen.lines().filter(|l| field(l) == "   3").count();
    assert_eq!(numbered, 1, "line 3 numbered {numbered} times: {screen}");
    assert!(app.row_count(3) > 1, "line 3 did not wrap");
}

#[test]
fn the_cursor_at_the_end_of_a_wrapped_line_is_drawn_on_its_own_row() {
    let mut app = App::new("long.md".into(), &long_doc());
    app.cursor = Pos::new(3, 1);
    app.goto_line_end();
    assert!(has_cursor(&render_buf(&mut app, 60, 16)));
    assert!(!render(&mut app, 60, 16).contains('›'));
}

#[test]
fn a_selection_stays_highlighted_across_the_rows_it_wraps_to() {
    let mut app = App::new("long.md".into(), &long_doc());
    app.cursor = Pos::new(3, 1);
    app.toggle_lines();
    let buf = render_buf(&mut app, 60, 16);
    let sel = Color::Indexed(238);
    let rows = (0..buf.area.height)
        .filter(|&y| (0..buf.area.width).any(|x| buf[(x, y)].style().bg == Some(sel)))
        .count();
    assert!(
        rows >= app.row_count(3) - 1,
        "selection covered {rows} rows of {}",
        app.row_count(3)
    );
}

#[test]
fn wrapping_does_not_reach_the_output_contract() {
    let mut app = App::new("long.md".into(), &long_doc());
    app.cursor = Pos::new(3, 1);
    app.toggle_lines();
    app.begin_comment();
    app.editor.set("note");
    app.commit_comment();

    render(&mut app, 60, 16);
    let wrapped = json(&app);
    app.pretty = false;
    render(&mut app, 60, 16);
    assert_eq!(wrapped, json(&app));
}

const TABLE_DOC: &str = "\
| id | description | ok |
|---|:---:|---|
| 1 | short | y |
| 22 | a much longer description | n |
";

#[test]
fn alignment_does_not_reach_the_output_contract() {
    let mut app = App::new("t.md".into(), TABLE_DOC);
    app.cursor = Pos::new(3, 7);
    app.contract();
    app.begin_comment();
    app.editor.set("note");
    app.commit_comment();
    assert_eq!(app.annotations[0].original_text, " short ");

    render(&mut app, 60, 16);
    let pretty = json(&app);
    app.pretty = false;
    render(&mut app, 60, 16);
    assert_eq!(pretty, json(&app));
}

fn highlighted(app: &mut App) -> Vec<u16> {
    let buf = render_buf(app, 60, 16);
    (0..buf.area.width)
        .filter(|&x| {
            matches!(
                buf[(x, 3)].style().bg,
                Some(Color::Indexed(238) | Color::Yellow)
            )
        })
        .collect()
}

#[test]
fn padding_is_highlighted_with_its_cell_and_only_with_its_cell() {
    let mut app = App::new("t.md".into(), TABLE_DOC);
    app.cursor = Pos::new(3, 8);

    app.contract();
    assert_eq!(app.selection_kind(), "table-cell");
    let lit = highlighted(&mut app);
    assert_eq!(
        usize::from(lit[lit.len() - 1] - lit[0]) + 1,
        lit.len(),
        "highlight has a hole: {lit:?}"
    );
    assert_eq!(lit.len(), 27, "not the whole padded cell: {lit:?}");

    app.contract();
    assert_eq!(app.selection_kind(), "text");
    assert_eq!(highlighted(&mut app).len(), "short".len());
}

#[test]
fn an_aligned_table_reaches_the_screen() {
    let mut app = App::new("t.md".into(), TABLE_DOC);
    let screen = render(&mut app, 60, 16);
    let bars: Vec<Vec<usize>> = screen
        .lines()
        .filter(|l| l.matches('|').count() > 2)
        .map(|l| {
            l.chars()
                .enumerate()
                .filter(|&(_, c)| c == '|')
                .map(|(i, _)| i)
                .collect()
        })
        .collect();
    assert_eq!(bars.len(), 4, "{screen}");
    assert!(bars.windows(2).all(|w| w[0] == w[1]), "{screen}");

    app.pretty = false;
    let raw = render(&mut app, 60, 16);
    assert!(raw.contains("| 1 | short | y |"), "{raw}");
}

#[test]
fn peek_suppresses_the_truncation_markers_underneath_it() {
    let mut app = App::new("long.md".into(), &long_doc());
    app.pretty = false;
    app.cursor = Pos::new(3, 1);
    assert!(render(&mut app, 60, 16).contains('›'));
    app.toggle_peek();
    let screen = render(&mut app, 60, 16);
    assert!(!screen.contains('›'), "{screen}");
}

#[test]
fn peek_scroll_is_clamped_to_the_rows_it_has() {
    let mut app = App::new("long.md".into(), &long_doc());
    app.cursor = Pos::new(3, 1);
    app.toggle_peek();
    render(&mut app, 60, 16);
    for _ in 0..50 {
        app.scroll_peek(1);
    }
    assert_eq!(app.peek_scroll, app.peek_rows - 1);
    for _ in 0..50 {
        app.scroll_peek(-1);
    }
    assert_eq!(app.peek_scroll, 0);
}

#[test]
fn peek_needs_something_to_peek_at() {
    let mut app = App::new("empty.md".into(), "");
    app.toggle_peek();
    assert!(!app.peek);
    render(&mut app, 60, 12);
}

#[test]
fn a_multi_line_comment_keeps_its_break_visible_in_the_pane() {
    let mut app = App::new("PLAN.md".into(), DOC);
    app.begin_comment();
    app.editor.set("one");
    app.editor.newline();
    for c in "two".chars() {
        app.editor.insert(c);
    }
    app.commit_comment();
    let screen = render(&mut app, 100, 24);
    assert!(screen.contains("one ⏎ two"), "{screen}");
}

#[test]
fn segments_never_split_a_character() {
    let text = "Prüfen köde";
    let marks = vec![(3usize, 5usize, Look::Selected)];
    let runs = segments(text, &marks, Look::Plain);
    let rebuilt: String = runs.iter().map(|r| r.text.as_str()).collect();
    assert_eq!(rebuilt, text);
}

#[test]
fn segments_rebuild_the_line_exactly() {
    let text = "Use `parse_document` and more";
    for (a, b) in [(0, 3), (4, 20), (20, 29), (0, 29)] {
        let marks = vec![(a, b, Look::Selected)];
        let rebuilt: String = segments(text, &marks, Look::Plain)
            .iter()
            .map(|r| r.text.as_str())
            .collect();
        assert_eq!(rebuilt, text, "range {a}..{b}");
    }
}
