use marginal::app::{Anchor, Annotation, App, Mode, Sel};
use marginal::blocks::Pos;
use marginal::wrap::{row_start, Piece};
use serde_json::Value;

/// The outcome of the session as the text of a JSON object.
fn json(app: &App) -> String {
    let out = app.result();
    let text = |s: &str| Value::from(s);
    let mut source = serde_json::Map::new();
    source.insert("path".into(), text(&out.source.path));
    if let Some(label) = &out.source.label {
        source.insert("label".into(), text(label));
    }
    source.insert("lines".into(), Value::from(out.source.lines));
    let annotation = |a: &Annotation| {
        let mut m = serde_json::Map::new();
        m.insert("id".into(), text(&a.id));
        m.insert("type".into(), text(a.kind));
        m.insert("blockKind".into(), text(&a.block_kind));
        m.insert("startLine".into(), Value::from(a.start_line));
        m.insert("startCol".into(), Value::from(a.start_col));
        m.insert("endLine".into(), Value::from(a.end_line));
        m.insert("endCol".into(), Value::from(a.end_col));
        m.insert("wholeLines".into(), Value::from(a.whole_lines));
        m.insert("originalText".into(), text(&a.original_text));
        m.insert("text".into(), text(&a.text));
        Value::Object(m)
    };
    let mut m = serde_json::Map::new();
    m.insert("version".into(), Value::from(out.version));
    m.insert("decision".into(), text(out.decision));
    m.insert("source".into(), Value::Object(source));
    m.insert("annotations".into(), Value::Array(out.annotations.iter().map(annotation).collect()));
    m.insert("feedbackMarkdown".into(), text(&out.feedback_markdown));
    Value::Object(m).to_string()
}

const DOC: &str = "\
# Steps

- [ ] Add validation to the login form
- [ ] Write tests for the validation

Use `parse_document` and the [comrak docs](https://docs.rs) here.
";

fn app() -> App {
    App::new("PLAN.md".into(), DOC)
}

fn commit(a: &mut App, text: &str) {
    a.begin_comment();
    a.editor.set(text);
    a.commit_comment();
}

#[test]
fn starts_on_the_first_block() {
    let a = app();
    assert_eq!(a.cursor, Pos::new(1, 1));
    assert_eq!(a.blocks[a.current_block().unwrap()].kind, "heading");
}

#[test]
fn block_movement_lands_on_block_starts() {
    let mut a = app();
    a.move_block(1);
    assert_eq!(a.cursor.line, 3);
    a.move_block(1);
    assert_eq!(a.cursor.line, 4);
    a.move_block(1);
    assert_eq!(a.cursor.line, 6);
}

#[test]
fn inline_motion_lands_inside_a_node_so_contract_can_narrow_to_it() {
    let mut a = app();
    a.cursor = Pos::new(6, 1);
    a.move_inline(1);
    a.contract();
    assert_eq!(a.selection_kind(), "code-span");
    let s = a.selection().unwrap();
    assert_eq!(a.slice(s), "`parse_document`");
}

#[test]
fn inline_motion_reports_where_it_landed_and_stops_at_the_ends() {
    let mut a = app();
    a.cursor = Pos::new(6, 1);
    a.move_inline(1);
    assert!(a.status.starts_with("code-span L6:5"), "{}", a.status);

    a.cursor = Pos::new(1, 1);
    a.move_inline(-1);
    assert_eq!(a.status, "no further inline node");
    assert_eq!(a.cursor, Pos::new(1, 1));
}

#[test]
fn inline_motion_drops_a_hierarchy_selection_like_every_other_move() {
    let mut a = app();
    a.cursor = Pos::new(6, 6);
    a.contract();
    assert!(matches!(a.sel, Sel::Region { .. }));
    a.move_inline(1);
    assert!(matches!(a.sel, Sel::Here));
}

#[test]
fn peek_shows_the_selection_and_refuses_when_there_is_none() {
    let mut a = app();
    a.cursor = Pos::new(6, 6);
    a.contract();
    a.toggle_peek();
    assert!(a.peek);
    assert_eq!(a.peek_text(), "`parse_document`");
    a.toggle_peek();
    assert!(!a.peek);

    let mut empty = App::new("empty.md".into(), "");
    empty.toggle_peek();
    assert!(!empty.peek);
    assert_eq!(empty.status, "nothing to peek at");
}

#[test]
fn paging_moves_by_half_and_whole_viewports() {
    let src: String = (1..=200).map(|i| format!("line {i}\n")).collect();
    let mut a = App::new("big.md".into(), &src);
    a.viewport = 20;
    a.cursor = Pos::new(1, 1);

    a.page(1, true); // C-d
    assert_eq!(a.cursor.line, 11);
    a.page(1, false); // C-f, two lines of overlap
    assert_eq!(a.cursor.line, 29);
    a.page(-1, true); // C-u
    assert_eq!(a.cursor.line, 19);
    a.page(-1, false); // C-b
    assert_eq!(a.cursor.line, 1);
}

fn wide_doc(lines: usize) -> String {
    (0..lines)
        .map(|_| format!("{}\n", "word ".repeat(20)))
        .collect()
}

#[test]
fn move_row_walks_inside_a_line_while_move_line_steps_over_it() {
    let mut a = App::new("w.md".into(), &wide_doc(3));
    a.body_width = 20;
    let (rows, _) = a.line_rows(1);
    assert!(rows.len() >= 4, "line did not wrap: {} rows", rows.len());

    a.cursor = Pos::new(1, 1);
    a.move_row(1);
    assert_eq!(a.cursor.line, 1, "C-n left the line");
    assert_eq!(a.cursor.col, row_start(&rows[1]) + 1);
    a.move_row(-1);
    assert_eq!((a.cursor.line, a.cursor.col), (1, 1));

    a.move_line(1);
    assert_eq!(a.cursor.line, 2, "j should clear the whole wrapped line");
}

#[test]
fn move_row_survives_an_indented_line_whose_first_word_overflows() {
    let doc = "- item\n\n    https://example.dev/docs/reference/config/advanced#section-42\n";
    for width in [20usize, 42, 72] {
        let mut a = App::new("w.md".into(), doc);
        a.body_width = width;

        for line in 1..=a.line_count() {
            let (rows, _) = a.line_rows(line);
            assert_eq!(
                row_start(&rows[0]),
                0,
                "line {line} at width {width} starts past byte 0"
            );
        }

        a.cursor = Pos::new(3, 1);
        a.move_row(1);
        let (rows, _) = a.line_rows(3);
        if rows.len() > 1 {
            assert_eq!(
                a.cursor.col,
                row_start(&rows[1]) + 1,
                "C-n landed off the row start at width {width}"
            );
        }
    }
}

#[test]
fn paging_counts_rows_not_lines_when_wrapped() {
    let mut a = App::new("w.md".into(), &wide_doc(50));
    a.body_width = 20;
    a.viewport = 20;
    a.cursor = Pos::new(1, 1);

    a.page(1, true); // half a viewport: 10 rows, not 10 lines
    assert!(a.cursor.line > 1, "paging stalled");
    assert!(
        a.cursor.line <= 3,
        "paged by lines, not rows: landed on line {}",
        a.cursor.line
    );

    let mut b = App::new("w.md".into(), &wide_doc(50));
    b.pretty = false;
    b.viewport = 20;
    b.cursor = Pos::new(1, 1);
    b.page(1, true);
    assert_eq!(b.cursor.line, 11);
}

#[test]
fn row_walking_terminates_on_a_pathologically_tall_line() {
    let src = format!("short\n{}\nshort\n", "x ".repeat(20_000));
    let mut a = App::new("huge.md".into(), &src);
    a.body_width = 40;
    assert!(a.row_count(2) > 900, "expected a very tall line");

    a.cursor = Pos::new(2, 1);
    a.move_line(1);
    assert_eq!(a.cursor.line, 3);
    let top = a.walk_rows(Anchor { line: 3, row: 0 }, 5, false);
    assert_eq!(top.line, 2, "walking back should land inside the tall line");
    assert_eq!(top.row, a.row_count(2) - 5);
}

#[test]
fn pretty_rows_concatenate_to_the_source_line() {
    let src = "\
# Table

| id | a very long description of the thing | ok |
|---|:---:|--:|
| 1 | short | y |
| 22 | a much longer description than the first one | n |
|日本|語のテキスト|x|

A paragraph long enough to wrap at any of the widths below, with a
https://example.dev/a/very/long/path in it as well.
";
    let mut a = App::new("t.md".into(), src);
    for width in [0usize, 12, 39, 60, 200] {
        a.body_width = width;
        for line in 1..=a.line_count() {
            let text = a.display_line(line);
            let (rows, _) = a.line_rows(line);
            let mut prev = 0;
            let mut kept = String::new();
            for r in &rows {
                for p in r {
                    if let Piece::Src(s, e) = *p {
                        assert!(s >= prev, "L{line} w{width}: rows go backwards");
                        assert!(s <= e && e <= text.len(), "L{line} w{width}: {s}..{e}");
                        assert!(text.is_char_boundary(s) && text.is_char_boundary(e));
                        kept.push_str(&text[s..e]);
                        prev = e;
                    }
                }
            }
            assert_eq!(
                kept.replace(' ', ""),
                text.replace(' ', ""),
                "L{line} w{width}: dropped or duplicated text"
            );
        }
    }
}

#[test]
fn a_padded_row_is_always_exactly_one_row() {
    let src = "| id | description | ok |\n|---|---|---|\n| 1 | short | y |\n";
    let mut a = App::new("t.md".into(), src);
    for width in 1..=80 {
        a.body_width = width;
        for line in 1..=3 {
            let (rows, _) = a.line_rows(line);
            let padded = rows
                .iter()
                .flatten()
                .any(|p| matches!(p, Piece::Pad { .. }));
            assert!(!padded || rows.len() == 1, "L{line} w{width}: {rows:?}");
        }
    }
}

#[test]
fn paging_is_clamped_and_never_stalls() {
    let src: String = (1..=30).map(|i| format!("line {i}\n")).collect();
    let mut a = App::new("big.md".into(), &src);
    a.cursor = Pos::new(1, 1);

    a.viewport = 0;
    a.page(1, true);
    assert_eq!(a.cursor.line, 2);
    a.page(1, false);
    assert_eq!(a.cursor.line, 3);

    a.viewport = 20;
    for _ in 0..10 {
        a.page(1, false);
    }
    assert_eq!(a.cursor.line, a.line_count());
    for _ in 0..10 {
        a.page(-1, false);
    }
    assert_eq!(a.cursor.line, 1);
}

#[test]
fn movement_is_clamped_at_both_ends() {
    let mut a = app();
    a.move_block(-5);
    assert_eq!(a.cursor.line, 1);
    a.move_block(99);
    assert_eq!(a.cursor.line, 6);
    a.move_line(-99);
    assert_eq!(a.cursor.line, 1);
    a.move_line(999);
    assert_eq!(a.cursor.line, a.line_count());
}

#[test]
fn tier1_table_rows_are_separate_navigation_units() {
    let src = "| a | b |\n|---|---|\n| 1 | 2 |\n| 3 | 4 |\n";
    let a = App::new("t.md".into(), src);
    let kinds: Vec<_> = a
        .blocks
        .iter()
        .map(|b| (b.kind, b.start(), b.end()))
        .collect();
    assert_eq!(
        kinds,
        vec![
            ("table-row", 1, 2),
            ("table-row", 3, 3),
            ("table-row", 4, 4)
        ]
    );
}

#[test]
fn tier1_line_selection_ignores_block_boundaries() {
    let mut a = app();
    a.cursor = Pos::new(3, 1);
    a.toggle_lines();
    a.move_line(1);
    a.move_line(1);
    let s = a.selection().unwrap();
    assert_eq!((s.start.line, s.end.line), (3, 5));
    assert!(a.line_selected(5));
    assert_eq!(a.selection_kind(), "lines");
}

#[test]
fn tier1_line_selection_extends_backwards() {
    let mut a = app();
    a.cursor = Pos::new(4, 1);
    a.toggle_lines();
    a.move_line(-2);
    let s = a.selection().unwrap();
    assert_eq!((s.start.line, s.end.line), (2, 4));
}

#[test]
fn tier3_char_movement_steps_over_multibyte_characters() {
    let mut a = App::new("u.md".into(), "Prüfen köde\n");
    a.cursor = Pos::new(1, 1);
    a.move_char(1); // P -> r
    assert_eq!(a.cursor.col, 2);
    a.move_char(1); // r -> ü  (2 bytes)
    assert_eq!(a.cursor.col, 3);
    a.move_char(1); // ü -> f, skipping the continuation byte
    assert_eq!(a.cursor.col, 5);
    a.move_char(-1);
    assert_eq!(a.cursor.col, 3);
}

#[test]
fn tier3_char_movement_is_clamped_to_the_line() {
    let mut a = app();
    a.cursor = Pos::new(1, 1);
    a.move_char(-5);
    assert_eq!(a.cursor.col, 1);
    a.move_char(500);
    assert_eq!(a.cursor.col, a.line_len(1));
}

#[test]
fn tier3_selected_bytes_land_on_character_boundaries() {
    let mut a = App::new("u.md".into(), "Prüfen `köde` hier.\n");
    a.cursor = Pos::new(1, 10);
    a.contract(); // paragraph -> the code span
    let (s, e) = a.selected_bytes_on(1).unwrap();
    let text = a.line_text(1);
    assert!(text.is_char_boundary(s) && text.is_char_boundary(e));
    assert_eq!(&text[s..e], "`köde`");
}

#[test]
fn tier3_annotation_records_columns_and_slices_exactly() {
    let mut a = app();
    a.cursor = Pos::new(6, 6); // inside `parse_document`
    a.contract(); // paragraph -> code span
    commit(&mut a, "call it once");
    let ann = &a.annotations[0];
    assert_eq!((ann.start_line, ann.end_line), (6, 6));
    assert_eq!(ann.original_text, "`parse_document`");
    assert!(!ann.whole_lines);
    assert_eq!(ann.block_kind, "code-span");
}

#[test]
fn tier3_whole_line_selections_are_flagged_as_such() {
    let mut a = app();
    a.move_block(1);
    commit(&mut a, "model layer");
    assert!(a.annotations[0].whole_lines);
    assert_eq!(
        a.annotations[0].original_text,
        "- [ ] Add validation to the login form"
    );
}

#[test]
fn tier4_expand_widens_step_by_step_to_the_document() {
    let mut a = app();
    a.cursor = Pos::new(6, 32); // inside the link label
    a.contract(); // the default selection is the whole paragraph
    assert_eq!(a.selection_kind(), "link");
    let mut seen = Vec::new();
    for _ in 0..5 {
        a.expand();
        seen.push(a.selection_kind());
    }
    assert_eq!(seen[0], "paragraph");
    assert_eq!(seen[1], "document");
    assert_eq!(seen[4], "document");
}

#[test]
fn tier4_expansion_is_monotonic() {
    let mut a = app();
    a.cursor = Pos::new(6, 32);
    a.contract();
    a.contract();
    let mut prev = a.selection().unwrap();
    for _ in 0..4 {
        a.expand();
        let now = a.selection().unwrap();
        assert!(now.start <= prev.start && now.end >= prev.end);
        prev = now;
    }
}

#[test]
fn tier4_contract_narrows_back_down() {
    let mut a = app();
    a.cursor = Pos::new(6, 32);
    assert_eq!(a.selection_kind(), "paragraph");
    a.contract();
    assert_eq!(a.selection_kind(), "link");
    a.contract();
    assert_eq!(a.selection_kind(), "text");
    a.contract(); // already innermost
    assert_eq!(a.selection_kind(), "text");
    a.expand();
    assert_eq!(a.selection_kind(), "link");
}

#[test]
fn tier4_expand_from_a_block_selection_widens_past_the_block() {
    let mut a = app();
    a.move_block(1); // the first list item
    assert_eq!(a.selection_kind(), "list-item");
    a.expand();
    let s = a.selection().unwrap();
    assert_eq!((s.start.line, s.end.line), (3, 4));
}

#[test]
fn tier4_contract_from_a_whole_block_reaches_an_inline_node() {
    let mut a = app();
    a.cursor = Pos::new(6, 6);
    assert_eq!(a.selection_kind(), "paragraph");
    a.contract();
    assert_eq!(a.selection_kind(), "code-span");
}

#[test]
fn tier4_moving_the_cursor_abandons_a_hierarchy_selection() {
    let mut a = app();
    a.cursor = Pos::new(6, 32);
    a.expand();
    assert!(matches!(a.sel, Sel::Region { .. }));
    a.move_line(-1);
    assert!(matches!(a.sel, Sel::Here));
}

#[test]
fn moving_away_clears_the_status_left_by_a_region_selection() {
    let mut a = app();
    a.cursor = Pos::new(6, 6);
    a.contract();
    assert!(a.status.contains("code-span"), "{}", a.status);

    a.goto_first();
    assert!(matches!(a.sel, Sel::Here));
    assert!(a.status.is_empty(), "stale status: {}", a.status);
}

#[test]
fn an_anchored_selection_keeps_its_status_while_being_extended() {
    let mut a = app();
    a.move_block(1);
    a.toggle_blocks();
    a.move_block(1);
    assert!(a.status.contains("J/K"), "{}", a.status);
}

#[test]
fn tier4_expand_on_a_blank_line_gives_the_document_without_panicking() {
    let mut a = app();
    a.cursor = Pos::new(2, 1);
    a.expand();
    assert_eq!(a.selection_kind(), "document");
}

#[test]
fn block_selection_extends_over_a_range() {
    let mut a = app();
    a.move_block(1);
    a.toggle_blocks();
    a.move_block(1);
    let s = a.selection().unwrap();
    assert_eq!((s.start.line, s.end.line), (3, 4));
    assert_eq!(a.selection_kind(), "list-item..list-item");
}

#[test]
fn empty_comment_is_discarded() {
    let mut a = app();
    commit(&mut a, "   ");
    assert!(a.annotations.is_empty());
    assert_eq!(a.mode, Mode::Normal);
}

#[test]
fn cancelling_input_leaves_no_annotation() {
    let mut a = app();
    a.begin_comment();
    a.editor.set("half typed");
    a.cancel_input();
    assert!(a.annotations.is_empty());
}

#[test]
fn removal_targets_the_annotation_under_the_cursor() {
    let mut a = app();
    a.move_block(1);
    commit(&mut a, "one");
    a.move_block(1);
    commit(&mut a, "two");
    a.cursor = Pos::new(3, 1);
    a.remove_at_cursor();
    assert_eq!(a.annotations.len(), 1);
    assert_eq!(a.annotations[0].text, "two");
    a.cursor = Pos::new(1, 1);
    a.remove_at_cursor();
    assert_eq!(a.annotations.len(), 1);
}

#[test]
fn decision_reflects_whether_anything_was_flagged() {
    let mut a = app();
    assert_eq!(a.result().decision, "approved");
    commit(&mut a, "nope");
    assert_eq!(a.result().decision, "changes-requested");
}

#[test]
fn feedback_uses_line_locations_for_whole_lines() {
    let mut a = app();
    a.move_block(1);
    a.toggle_blocks();
    a.move_block(1);
    commit(&mut a, "model layer");
    let md = a.feedback_markdown();
    assert!(md.contains("## PLAN.md:3-4 · list-item..list-item"), "{md}");
    assert!(md.contains("> - [ ] Add validation to the login form"));
}

#[test]
fn feedback_uses_column_locations_for_fragments() {
    let mut a = app();
    a.cursor = Pos::new(6, 6);
    a.contract();
    commit(&mut a, "call it once");
    let md = a.feedback_markdown();
    assert!(md.contains("## PLAN.md:6:5-20 · code-span"), "{md}");
    assert!(md.contains("> `parse_document`"));
}

#[test]
fn a_label_replaces_the_path_in_feedback_but_not_in_provenance() {
    let mut a = app();
    a.label = Some("assistant-message".into());
    a.cursor = Pos::new(6, 6);
    a.contract();
    commit(&mut a, "call it once");

    let md = a.feedback_markdown();
    assert!(
        md.starts_with("# Review feedback: assistant-message\n"),
        "{md}"
    );
    assert!(
        md.contains("## assistant-message:6:5-20 · code-span"),
        "{md}"
    );
    assert!(
        !md.contains("PLAN.md"),
        "path must not leak into feedback: {md}"
    );

    let json = json(&a);
    assert!(json.contains("\"path\":\"PLAN.md\""), "{json}");
    assert!(json.contains("\"label\":\"assistant-message\""), "{json}");
}

#[test]
fn no_label_leaves_the_path_and_omits_the_key() {
    let mut a = app();
    commit(&mut a, "x");
    assert_eq!(a.display_name(), "PLAN.md");
    assert!(a.feedback_markdown().contains("# Review feedback: PLAN.md"));
    let json = json(&a);
    assert!(!json.contains("label"), "{json}");
}

#[test]
fn result_serialises_with_columns() {
    let mut a = app();
    a.cursor = Pos::new(6, 6);
    a.contract();
    commit(&mut a, "x");
    let json = json(&a);
    assert!(json.contains("\"startCol\":5"));
    assert!(json.contains("\"endCol\":20"));
    assert!(json.contains("\"wholeLines\":false"));
}

#[test]
fn an_empty_file_does_not_panic() {
    let mut a = App::new("empty.md".into(), "");
    assert_eq!(a.current_block(), None);
    assert_eq!(a.selection(), None);
    a.begin_comment();
    assert_eq!(a.mode, Mode::Normal);
    a.move_block(1);
    a.move_char(1);
    a.expand();
    a.contract();
    a.remove_at_cursor();
    assert_eq!(a.result().decision, "approved");
}

#[test]
fn vertical_motion_on_an_empty_file_does_not_panic() {
    let mut a = App::new("empty.md".into(), "");
    assert_eq!(a.line_count(), 1, "the clamp upper bound must stay >= 1");

    a.move_line(1);
    a.move_line(-1);
    a.page(1, false);
    a.page(-1, true);
    a.goto_last();
    a.goto_first();
    assert_eq!(a.cursor, Pos::new(1, 1));
}
