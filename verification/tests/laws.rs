//! What holds of several calls together.
use marginal::app::{Anchor, App, Mode, Sel};
use marginal::blocks::{self, Pos};
use marginal::editor::Editor;
use marginal::keys::{action_for, handle_key, Action, Edit, Key};
use marginal::table::{row, Tables};
use marginal::ui::{
    column_parts, footer_parts, footer_view, keep_cursor_visible, pane_parts, panes, shorten_path,
    source_view, source_view_in, Area, Part,
};
use marginal::wrap::{
    cells_claimed, cells_drawn, cells_spread, hang_indent, wrap_line, wrap_source, Piece,
};

const DOC: &str = "\
# Steps

- [ ] Add validation to the login form
- [ ] Write tests for the validation

Should `parse_document` and the [comrak docs](https://docs.rs) stay? Really?

| id | description |
|---|---|
| 1 | short |
";

fn open() -> App {
    let mut a = App::new("PLAN.md".into(), DOC);
    a.body_width = 24;
    a.viewport = 6;
    a
}

fn comment(a: &mut App, text: &str) {
    a.begin_comment();
    a.editor.set(text);
    a.commit_comment();
}

fn every_key() -> Vec<Key> {
    let mut keys: Vec<Key> = (' '..='~').map(Key::Char).collect();
    keys.push(Key::Char('ü'));
    keys.extend([
        Key::Enter, Key::Esc, Key::Backspace, Key::Delete, Key::Left, Key::Right, Key::Up,
        Key::Down, Key::Home, Key::End, Key::PageUp, Key::PageDown, Key::Other,
    ]);
    keys
}

// ---- the editor ----

fn editor(text: &str, cursor: usize) -> Editor {
    let mut e = Editor::default();
    e.set(text);
    e.cursor = cursor;
    e
}

#[test]
fn what_is_typed_is_taken_back_by_erasing() {
    for c in ['x', 'ü', '日', '\n'] {
        let mut e = editor("año", 3);
        e.insert(c);
        assert_eq!(e.cursor, 3 + c.len_utf8());
        e.backspace();
        assert_eq!((e.text(), e.cursor), ("año", 3));
    }
}

#[test]
fn left_and_right_lead_back() {
    let mut e = editor("aüb", 1);
    e.right();
    assert_eq!(e.cursor, 3);
    e.left();
    assert_eq!(e.cursor, 1);
}

#[test]
fn word_motions_stop_at_what_is_not_alphanumeric() {
    let mut e = editor("prüfen_1 日本.x", 0);
    e.word_right();
    assert_eq!(e.cursor, "prüfen_1".len());
    e.word_right();
    assert_eq!(e.cursor, "prüfen_1 日本".len());
    e.word_left();
    assert_eq!(e.cursor, "prüfen_1 ".len());
    assert_eq!(e.text(), "prüfen_1 日本.x");
}

#[test]
fn every_step_back_in_the_history_is_undone_by_one_forward() {
    let mut e = Editor::default();
    for t in ["one", "two", "three"] {
        e.set(t);
        e.submit();
    }
    e.set("draft");
    let mut seen = Vec::new();
    for _ in 0..3 {
        e.history_prev();
        seen.push(e.text().to_string());
    }
    assert_eq!(seen, ["three", "two", "one"]);
    let mut back = Vec::new();
    for _ in 0..3 {
        e.history_next();
        back.push(e.text().to_string());
    }
    assert_eq!(back, ["two", "three", "draft"]);
}

#[test]
fn a_submitted_comment_is_the_last_in_the_history() {
    let mut e = Editor::default();
    e.set(" kept as typed ");
    assert_eq!(e.submit(), " kept as typed ");
    assert_eq!(e.history, [" kept as typed "]);
    assert_eq!((e.text(), e.cursor), ("", 0));
}

#[test]
fn the_cursor_is_in_the_row_that_is_reported() {
    let text = "ab\nüc\n";
    for cursor in [0, 1, 2, 3, 5, 6, 7] {
        let e = editor(text, cursor);
        let (r, c) = e.row_col();
        let rows = e.rows();
        let before: usize = rows[..r].iter().map(|s| s.len() + 1).sum();
        assert_eq!(before + c, cursor);
        assert!(c <= rows[r].len());
    }
    assert_eq!(editor(text, 7).row_col(), (2, 0));
}

// ---- widths and rows ----

#[test]
fn the_measures_differ_by_one_cell_a_sound_mark() {
    assert_eq!((cells_claimed("日本"), cells_drawn("日本")), (4, 4));
    assert_eq!(cells_drawn("ﾊﾟﾎﾞ"), cells_claimed("ﾊﾟﾎﾞ") + 2);
    assert_eq!((cells_claimed("a"), cells_drawn("a")), (1, 1));
}

#[test]
fn rows_are_a_partition_of_their_line() {
    let line = "  - some words, a_long_identifier_that_must_be_cut and ünïcödé";
    for width in 3..30 {
        let rows = wrap_line(line, width, width);
        assert_eq!(rows[0].0, 0);
        assert!(rows.iter().all(|&(s, e)| cells_drawn(&line[s..e]) <= width));
        for w in rows.windows(2) {
            assert!(w[0].1 <= w[1].0);
            assert!(line[w[0].1..w[1].0].chars().all(|c| c == ' '));
        }
        let end = rows[rows.len() - 1].1;
        assert!(line[end..].chars().all(|c| c == ' '));
    }
}

#[test]
fn no_row_of_several_is_empty() {
    for line in ["        x", "   ", "a  b   c", "  日本", "      ab/cd     "] {
        for width in 1..10 {
            let rows = wrap_line(line, width, width);
            assert!(rows.len() == 1 || rows.iter().all(|&(s, e)| s < e), "{line:?} {width}");
        }
    }
}

#[test]
fn a_continuation_hangs_under_the_text() {
    assert_eq!(hang_indent("plain"), 0);
    assert_eq!(hang_indent("  - item"), 4);
    assert_eq!(hang_indent("12. item"), 4);
    assert_eq!(hang_indent("> quote"), 2);
    let (rows, indent) = wrap_source("- alpha beta gamma", 9);
    assert_eq!(indent, 2);
    assert_eq!(
        rows,
        [vec![Piece::Src(0, 7)], vec![Piece::Src(8, 12)], vec![Piece::Src(13, 18)]]
    );
    assert_eq!(wrap_source("anything", 0), (vec![vec![Piece::Src(0, 8)]], 0));
}

// ---- tables ----

#[test]
fn padding_stands_between_characters_and_lines_the_columns_up() {
    let src = "| ü | bb |\n|---|:-:|\n| cccc | d |\n";
    let lines: Vec<String> = src.lines().map(str::to_string).collect();
    let tables = Tables::new(&lines, &blocks::parse(src));
    let mut shown = Vec::new();
    for (i, text) in lines.iter().enumerate() {
        let pads = tables.pads(i + 1, 80).unwrap();
        let mut line = String::new();
        let mut kept = String::new();
        for p in row(text.len(), pads) {
            match p {
                Piece::Src(s, e) => {
                    line.push_str(&text[s..e]);
                    kept.push_str(&text[s..e]);
                }
                Piece::Pad { n, fill, .. } => line.extend((0..n).map(|_| fill)),
            }
        }
        assert_eq!(&kept, text);
        shown.push(line);
    }
    assert_eq!(shown, ["| ü    | bb |", "|------|:--:|", "| cccc | d  |"]);
    assert!(tables.pads(1, 13).is_some());
    assert!(tables.pads(1, 12).is_none());
    assert!(tables.pads(0, 80).is_none() && tables.pads(4, 80).is_none());
}

// ---- the session ----

#[test]
fn widening_and_narrowing_never_skip_back() {
    let mut a = open();
    a.cursor = Pos::new(6, 36);
    let mut kinds = Vec::new();
    for _ in 0..3 {
        a.contract();
        kinds.push(a.selection_kind());
    }
    assert_eq!(kinds, ["link", "text", "text"]);
    let mut last = a.selection().unwrap();
    for _ in 0..4 {
        a.expand();
        let now = a.selection().unwrap();
        assert!(now.start <= last.start && last.end <= now.end);
        last = now;
    }
    assert_eq!(a.selection_kind(), "document");
}

#[test]
fn a_row_down_and_a_row_up_lead_back() {
    let a = open();
    for line in 1..=a.line_count() {
        for r in 0..a.row_count(line) {
            let at = Anchor { line, row: r };
            if let Some(down) = a.step_row(at, true) {
                assert_eq!(a.step_row(down, false), Some(at));
            }
        }
    }
    assert_eq!(a.step_row(Anchor { line: 1, row: 0 }, false), None);
    let all: usize = (1..=a.line_count()).map(|l| a.row_count(l)).sum();
    let end = Anchor { line: a.line_count(), row: a.row_count(a.line_count()) - 1 };
    assert_eq!(a.walk_rows(Anchor { line: 1, row: 0 }, all - 1, true), end);
    assert_eq!(a.walk_rows(Anchor { line: 1, row: 0 }, all + 9, true), end);
}

#[test]
fn the_rows_of_a_line_show_all_of_it_but_the_spaces_broken_at() {
    let a = open();
    for line in 1..=a.line_count() {
        let text = a.display_line(line);
        let (rows, _) = a.line_rows(line);
        let mut at = 0;
        for p in rows.iter().flatten() {
            if let Piece::Src(s, e) = *p {
                assert!(text[at..s].chars().all(|c| c == ' '), "{line}: {rows:?}");
                at = e;
            }
        }
        assert!(text[at..].chars().all(|c| c == ' '));
    }
}

const ADDRESS: &str = "see https://example.dev/a/very/long/path here\n";

#[test]
fn a_row_motion_ends_on_the_row_it_aims_at() {
    let mut a = App::new("w.md".into(), ADDRESS);
    a.body_width = 12;
    a.cursor = Pos::new(1, 23);
    assert_eq!(a.cursor_row(), 2);
    a.move_row(-1);
    assert_eq!((a.cursor, a.cursor_row()), (Pos::new(1, 12), 1));
    a.move_row(-1);
    assert_eq!((a.cursor, a.cursor_row()), (Pos::new(1, 4), 0));
}

#[test]
fn every_row_motion_moves_by_one_row() {
    let docs = [ADDRESS, DOC, "日本語のテキストはここで折り返す\n\n        deep indent, ünïcödé\tx\n"];
    for doc in docs {
        for width in [1usize, 2, 3, 5, 8, 12, 20] {
            let mut a = App::new("w.md".into(), doc);
            a.body_width = width;
            for line in 1..=a.line_count() {
                let text = a.line_text(line).to_string();
                for (i, _) in text.char_indices().chain([(0, ' ')]) {
                    for dir in [1, -1] {
                        a.cursor = Pos::new(line, i + 1);
                        let at = Anchor { line, row: a.cursor_row() };
                        let to = a.step_row(at, dir > 0).unwrap_or(at);
                        a.move_row(dir);
                        let got = Anchor { line: a.cursor.line, row: a.cursor_row() };
                        assert_eq!(got, to, "{text:?} byte {i}, width {width}, {dir}");
                    }
                }
            }
        }
    }
}

#[test]
fn what_is_highlighted_on_a_line_is_its_piece_of_the_quote() {
    let mut a = App::new("u.md".into(), "Prüfen **köde\nund mehr** hier\n\n- x\n");
    a.cursor = Pos::new(1, 11);
    a.contract();
    assert_eq!(a.selection_kind(), "strong");
    let span = a.selection().unwrap();
    let quoted = a.slice(span);
    let pieces: Vec<&str> = quoted.split('\n').collect();
    assert_eq!(pieces, ["**köde", "und mehr**"]);
    for line in 0..=5 {
        match a.selected_bytes_on(line) {
            Some((s, e)) => assert_eq!(&a.line_text(line)[s..e], pieces[line - span.start.line]),
            None => assert!(!span.touches_line(line)),
        }
    }
    assert_eq!(a.selected_bytes_on(2), Some((0, 10)));
}

#[test]
fn an_id_is_not_given_out_again_after_its_annotation_is_removed() {
    let mut a = open();
    comment(&mut a, "one");
    comment(&mut a, "two");
    a.remove_at_cursor();
    comment(&mut a, "three");
    a.remove_at_cursor();
    a.remove_at_cursor();
    assert!(a.annotations.is_empty());
    comment(&mut a, "  ");
    comment(&mut a, "four");
    let ids: Vec<&str> = a.annotations.iter().map(|n| n.id.as_str()).collect();
    assert_eq!((ids, a.next_id), (vec!["a4"], 5));
}

#[test]
fn rendering_does_not_change_what_is_quoted() {
    let mut a = open();
    a.cursor = Pos::new(10, 7);
    let span = a.selection().unwrap();
    let quoted = a.slice(span);
    a.toggle_pretty();
    assert_eq!(a.status, "pretty off");
    a.body_width = 7;
    a.viewport = 1;
    assert_eq!(a.selection(), Some(span));
    assert_eq!(a.slice(span), quoted);
    assert_eq!(quoted, "| 1 | short |");
}

#[test]
fn marks_are_the_annotations_and_the_questions_left_open() {
    let mut a = open();
    let (stay, really) = (Pos::new(6, 68), Pos::new(6, 76));
    assert_eq!(a.questions, [stay, really]);
    assert_eq!(a.mark_positions(), [stay, really]);
    assert!(a.question_on(6) && !a.question_on(3));

    a.cursor = Pos::new(1, 1);
    a.move_mark(1);
    assert_eq!((a.cursor, a.status.as_str()), (stay, "question 1/2"));
    a.move_mark(1);
    assert_eq!((a.cursor, a.status.as_str()), (really, "question 2/2"));
    a.move_mark(1);
    assert_eq!(a.cursor, stay, "the ring goes round");
    a.move_mark(-1);
    assert_eq!(a.cursor, really, "and round the other way");

    comment(&mut a, "yes, it stays");
    assert_eq!(a.mark_positions(), [Pos::new(6, 1)], "both questions are answered");
    assert!(!a.question_on(6));
    a.move_mark(1);
    assert_eq!((a.cursor, a.status.as_str()), (Pos::new(6, 1), "annotation 1/1"));

    a.remove_at_cursor();
    assert_eq!(a.status, "annotation removed");
    assert_eq!(a.mark_positions(), [stay, really]);
    let mut none = App::new("e.md".into(), "nothing asked\n");
    none.move_mark(1);
    assert_eq!(none.status, "no marks");
}

#[test]
fn paging_takes_any_number_of_pages_of_lines() {
    let src: String = (1..=200).map(|i| format!("line {i}\n")).collect();
    let mut a = App::new("big.md".into(), &src);
    a.viewport = 20;
    a.cursor = Pos::new(50, 1);
    a.page(3, true);
    assert_eq!(a.cursor.line, 80);
    a.page(-2, false);
    assert_eq!(a.cursor.line, 44);
    a.page(0, false);
    assert_eq!(a.cursor.line, 44);
    a.page(isize::MAX, false);
    assert_eq!(a.cursor.line, 200);
    a.page(isize::MIN, false);
    assert_eq!(a.cursor.line, 1);
}

#[test]
fn wrapping_keeps_every_word_in_order() {
    let text = "  - some words, a_long_identifier\n\nand ünïcödé ｶﾞ text";
    let ink = |s: &str| s.chars().filter(|c| *c != ' ' && *c != '\n').collect::<String>();
    for width in 1..40 {
        let rows = marginal::wrap::wrap(text, width);
        assert_eq!(ink(&rows.join("")), ink(text), "width {width}");
    }
}

#[test]
fn a_plain_session_knows_no_markdown() {
    let md = App::open("a".into(), "# H\ntext\n", marginal::format::Format::Markdown);
    let txt = App::open("a".into(), "# H\ntext\n", marginal::format::Format::Plain);
    assert_eq!(md.blocks.len(), 2);
    assert_eq!(txt.blocks.len(), 1);
    assert_eq!(txt.blocks[0].kind, "paragraph");
    assert!(txt.marks.iter().all(Vec::is_empty));
}

#[test]
fn the_output_names_the_source_and_quotes_each_annotation() {
    let mut a = open();
    a.cursor = Pos::new(3, 1);
    comment(&mut a, " first\nsecond ");
    let out = a.result();
    assert_eq!((out.version, out.decision), (1, "changes-requested"));
    assert_eq!((out.source.path.as_str(), out.source.lines), ("PLAN.md", 10));
    let n = &out.annotations[0];
    assert_eq!((n.id.as_str(), n.kind, n.block_kind.as_str()), ("a1", "comment", "list-item"));
    assert_eq!((n.start_line, n.start_col, n.end_line, n.end_col), (3, 1, 3, 38));
    assert_eq!(n.text, "first\nsecond");
    assert_eq!(
        out.feedback_markdown,
        "# Review feedback: PLAN.md\n\n## PLAN.md:3 · list-item\n\
         > - [ ] Add validation to the login form\n\nfirst\nsecond\n"
    );
    assert_eq!(out.feedback_markdown, a.feedback_markdown());
}

// ---- keys ----

#[test]
fn control_c_always_leads_out() {
    let mut a = open();
    handle_key(&mut a, Key::Char('c'), false, false);
    assert_eq!(a.mode, Mode::Input);
    handle_key(&mut a, Key::Char('c'), true, false);
    assert_eq!((a.mode, a.quit, a.status.as_str()), (Mode::Normal, false, "cancelled"));
    handle_key(&mut a, Key::Char('z'), false, false);
    assert!(a.peek);
    handle_key(&mut a, Key::Char('c'), true, false);
    assert!(a.quit);
}

#[test]
fn only_a_bare_key_is_typed() {
    let mut a = open();
    a.begin_comment();
    for key in every_key() {
        for (ctrl, alt) in [(true, false), (false, true), (true, true)] {
            assert!(!matches!(action_for(&a, key, ctrl, alt), Action::Edit(Edit::Insert(_))));
        }
        if let Key::Char(c) = key {
            assert_eq!(action_for(&a, key, false, false), Action::Edit(Edit::Insert(c)));
        }
    }
}

#[test]
fn no_key_changes_the_document_or_takes_the_cursor_off_it() {
    for ctrl in [false, true] {
        for alt in [false, true] {
            for key in every_key() {
                for line in 1..=10 {
                    let mut a = open();
                    a.cursor = Pos::new(line, 1);
                    comment(&mut a, "noted");
                    a.toggle_lines();
                    let here = a.annotations_on(line) > 0;
                    let touches = here && matches!(action_for(&a, key, ctrl, alt), Action::Remove);
                    handle_key(&mut a, key, ctrl, alt);
                    assert_eq!(a.lines, DOC.lines().collect::<Vec<_>>());
                    assert!(1 <= a.cursor.line && a.cursor.line <= 10, "{key:?} {:?}", a.cursor);
                    assert!(a.cursor.col >= 1);
                    assert_eq!(a.annotations.len(), if touches { 0 } else { 1 }, "{key:?}");
                    if let Sel::Lines { anchor } = a.sel {
                        assert_eq!(anchor, line);
                    }
                }
            }
        }
    }
}

#[test]
fn enter_comments_and_the_brackets_go_by_mark() {
    let a = open();
    assert_eq!(action_for(&a, Key::Enter, false, false), Action::Comment);
    assert_eq!(action_for(&a, Key::Char(']'), false, false), Action::MarkNext);
    assert_eq!(action_for(&a, Key::Char('['), false, false), Action::MarkPrev);
}

// ---- the screen ----

fn area(x: u16, y: u16, width: u16, height: u16) -> Area {
    Area { x, y, width, height }
}

#[test]
fn the_screen_is_split_into_four_panes() {
    let mut a = open();
    assert_eq!(
        panes(&a, area(0, 0, 80, 24)),
        [area(0, 0, 80, 17), area(0, 17, 80, 0), area(0, 17, 80, 6), area(0, 23, 80, 1)]
    );
    a.begin_comment();
    a.editor.set("one\ntwo");
    assert_eq!(
        panes(&a, area(0, 0, 80, 24)),
        [area(0, 0, 80, 13), area(0, 13, 80, 4), area(0, 17, 80, 6), area(0, 23, 80, 1)]
    );
}

#[test]
fn the_source_pane_gives_the_gutter_what_it_needs() {
    let mut a = open();
    let mut scroll = Anchor::default();
    let v = source_view(&mut a, &mut scroll, area(0, 0, 40, 10));
    assert_eq!((v.gutter, v.body), (area(1, 1, 6, 8), area(7, 1, 32, 8)));
    assert_eq!((a.viewport, a.body_width), (8, 32));
    assert_eq!(v.rows.len(), 8);
    assert_eq!((v.rows[0].number.as_str(), v.rows[0].dot, v.rows[0].bar), ("   1", " ", "▍"));
    assert_eq!(v.rows[2].number, "   3");
    assert_eq!(v.rows[3].number, "    ");
}

#[test]
fn each_pane_asks_for_what_it_needs() {
    let mut a = open();
    assert_eq!(
        pane_parts(&a),
        [Part::Min(3), Part::Length(0), Part::Length(6), Part::Length(1)]
    );
    a.begin_comment();
    assert_eq!(pane_parts(&a)[1], Part::Length(3));
    a.editor.set("1\n2\n3\n4\n5\n6\n7\n8\n9\n10");
    assert_eq!(pane_parts(&a)[1], Part::Length(10));
    assert_eq!(column_parts(&a, 40), [Part::Length(6), Part::Min(0)]);
    assert_eq!(column_parts(&a, 4), [Part::Length(3), Part::Min(0)]);
    assert_eq!(column_parts(&a, 0), [Part::Length(0), Part::Min(0)]);
    assert_eq!(footer_parts(36), [Part::Min(0), Part::Length(28)]);
    assert_eq!(footer_parts(35), [Part::Min(0), Part::Length(0)]);
}

#[test]
fn a_screen_too_small_for_the_panes_still_holds_them() {
    let a = open();
    for height in 0..12 {
        let got = panes(&a, area(2, 3, 20, height));
        assert_eq!(got.len(), 4);
        for p in got {
            assert_eq!((p.x, p.width), (2, 20));
            assert!(3 <= p.y && p.y + p.height <= 3 + height, "{height}: {p:?}");
        }
    }
}

#[test]
fn the_source_is_laid_out_in_whatever_columns_it_is_given() {
    let mut a = open();
    let mut scroll = Anchor { line: 9, row: 0 };
    let (gutter, body) = (area(0, 0, 0, 0), area(5, 5, 11, 2));
    let v = source_view_in(&mut a, &mut scroll, area(0, 0, 40, 5), gutter, body);
    assert_eq!((v.gutter, v.body), (gutter, body));
    assert_eq!((a.viewport, a.body_width), (3, 11));
    assert_eq!(scroll, Anchor { line: 1, row: 0 });
    assert_eq!(v.rows.len(), 3);
    assert_eq!(v.rows[2].runs.iter().map(|r| r.text.as_str()).collect::<String>(), "- [ ] Add");
}

#[test]
fn a_row_is_marked_as_cut_however_far_it_runs_past_the_edge() {
    for n in [80usize, 81, 65_535, 65_536, 65_600, 131_072, 131_100] {
        let mut a = App::new("long.txt".into(), &format!("{}\n", "x".repeat(n)));
        a.pretty = false;
        for (col, hides) in [(1, false), (80, false), (81, true), (n, n > 80)] {
            if col > n {
                continue;
            }
            a.cursor = Pos::new(1, col);
            let mut scroll = Anchor::default();
            let area = area(0, 0, 88, 5);
            let v = source_view(&mut a, &mut scroll, area);
            assert_eq!(v.body.width, 80);
            let want = if n > 80 { Some(hides) } else { None };
            assert_eq!(v.rows[0].cut, want, "{n} cells, cursor in column {col}");
        }
    }
}

#[test]
fn a_spread_width_has_no_bound_and_counts_the_sound_marks() {
    assert_eq!(cells_spread(""), 0);
    assert_eq!(cells_spread("a"), 1);
    assert_eq!(cells_spread("日本"), 4);
    assert_eq!(cells_spread("ﾊﾟﾎﾞ"), 4);
    assert_eq!(cells_spread(&"ｶﾞ".repeat(40_000)), 80_000);
    assert_eq!(cells_spread(&"x".repeat(65_600)), 65_600);
    assert_eq!(cells_drawn(&"x".repeat(65_600)), 64);
}

#[test]
fn an_open_question_has_a_mark_of_its_own_in_the_gutter() {
    let mut a = open();
    let mut scroll = Anchor::default();
    let dots = |a: &mut App, s: &mut Anchor| {
        let v = source_view(a, s, area(0, 0, 120, 30));
        v.rows.iter().map(|r| r.dot).collect::<Vec<_>>()
    };
    let open = dots(&mut a, &mut scroll);
    assert_eq!(open.iter().position(|d| *d == "?"), Some(5));
    a.cursor = Pos::new(6, 1);
    comment(&mut a, "answered");
    let done = dots(&mut a, &mut scroll);
    assert_eq!(done.iter().position(|d| *d == "●"), Some(5));
    assert!(!done.contains(&"?"));
}

#[test]
fn the_cursor_row_is_always_on_screen() {
    let mut a = open();
    for viewport in 1..8 {
        for line in 1..=10 {
            for start in 1..=10 {
                a.cursor = Pos::new(line, 1);
                let mut scroll = Anchor { line: start, row: 0 };
                keep_cursor_visible(&a, &mut scroll, viewport);
                let cur = Anchor { line, row: a.cursor_row() };
                let hit = (0..viewport).any(|n| a.walk_rows(scroll, n, true) == cur);
                assert!(hit, "viewport {viewport}, line {line}, from {start}: {scroll:?}");
            }
        }
    }
}

#[test]
fn a_view_left_on_a_row_that_is_gone_still_shows_the_cursor() {
    let mut a = open();
    for viewport in 1..8 {
        for line in 1..=10 {
            for start in 0..=12 {
                for gone in [0, 1, 7, 40] {
                    a.cursor = Pos::new(line, 1);
                    let mut scroll = Anchor { line: start, row: gone };
                    keep_cursor_visible(&a, &mut scroll, viewport);
                    let cur = Anchor { line, row: a.cursor_row() };
                    assert!((0..viewport).any(|n| a.walk_rows(scroll, n, true) == cur));
                    let mut again = scroll;
                    keep_cursor_visible(&a, &mut again, viewport);
                    assert_eq!(again, scroll, "viewport {viewport}, line {line}, {start}/{gone}");
                }
            }
        }
    }
}

#[test]
fn a_shortened_path_keeps_the_longest_tail_that_fits() {
    let path = "/tmp/日本/file.md";
    for max in 1..20 {
        let s = shorten_path(path, max);
        assert!(cells_claimed(&s) <= max, "{max}: {s}");
        if let Some(tail) = s.strip_prefix('…') {
            assert!(path.ends_with(tail));
            let more = path[..path.len() - tail.len()].chars().last().unwrap();
            assert!(cells_claimed(&format!("…{more}{tail}")) > max, "{max}: {s}");
        }
    }
    assert_eq!(shorten_path(path, 12), "…本/file.md");
}

#[test]
fn a_hint_is_shown_whole_or_not_at_all() {
    let a = open();
    for width in 8..160u16 {
        let v = footer_view(&a, area(0, 0, width, 1));
        assert!(cells_drawn(&v.keys) <= usize::from(v.keys_area.width), "{width}: {:?}", v.keys);
        assert!(v.keys.ends_with("q quit"));
    }
    assert_eq!(footer_view(&a, area(0, 0, 7, 1)).keys, " q quit");
    assert_eq!(footer_view(&a, area(0, 0, 6, 1)).keys, " q");
    let wide = footer_view(&a, area(0, 0, 200, 1));
    assert_eq!((wide.keys_area.width, wide.status_area.width), (172, 28));
}
