use marginal::blocks::{
    block_at, containment_stack, is_inline, next_inline, normalised_lines, parse, parse_tree,
    prev_inline, questions, source_lines, Pos, Span, TreeNode,
};

/// Documents whose line endings disagree with each other.
const MIXED_ENDINGS: &[&str] = &[
    "# H\rpara\r",
    "intro\rrest\n\n# Heading\n\n- item one\n- item two\n",
    "| a | b |\r|---|---|\r| 1 | 2 |\n\npara\n",
    "> quote line\r   lazy continuation\n\n- item\r\n- second\r",
    "```\ncode a\rcode b\n```\n\nafter the fence\n",
    "    indented\rnot indented any more\n",
    "- one\r  - nested\r\n\n  tail para\n",
    "prüfen `köde`\rzweite Zeile mit `Umlaut ö`\n",
    "text\r\r\nblank line between\n",
];

const DOC: &str = "\
# Heading

Para one
still para.

- item a
- item b
  - nested

```go
# not a heading
```

| a | b |
|---|---|
| 1 | 2 |
";

fn flat(src: &str) -> Vec<(&'static str, usize, usize)> {
    parse(src)
        .into_iter()
        .map(|b| (b.kind, b.start(), b.end()))
        .collect()
}

#[test]
fn extracts_expected_navigation_units() {
    assert_eq!(
        flat(DOC),
        vec![
            ("heading", 1, 1),
            ("paragraph", 3, 4),
            ("list-item", 6, 6),
            ("list-item", 7, 7),
            ("list-item", 8, 8),
            ("code", 10, 12),
            ("table-row", 14, 15),
            ("table-row", 16, 16),
        ]
    );
}

#[test]
fn tier1_table_navigates_by_row_not_as_one_lump() {
    let rows: Vec<_> = parse(DOC)
        .into_iter()
        .filter(|b| b.kind == "table-row")
        .collect();
    assert_eq!(rows.len(), 2);
    assert_eq!((rows[0].start(), rows[0].end()), (14, 15));
    assert_eq!((rows[1].start(), rows[1].end()), (16, 16));
    assert!(!parse(DOC).iter().any(|b| b.kind == "table"));
}

#[test]
fn a_header_only_table_still_owns_its_delimiter_row() {
    let src = "| name | description |\n|---|---|\n\n# H\n";
    assert_eq!(
        flat(src),
        vec![("table-row", 1, 2), ("heading", 4, 4)],
        "delimiter row left uncovered"
    );
}

#[test]
fn tier1_blockquote_navigates_by_inner_block() {
    let src = "> First para.\n>\n> Second para.\n";
    assert_eq!(flat(src), vec![("paragraph", 1, 1), ("paragraph", 3, 3)]);
    assert!(!parse(src).iter().any(|b| b.kind == "blockquote"));
}

#[test]
fn navigation_units_never_overlap() {
    for src in [
        DOC,
        "> quote\n\n| a |\n|---|\n| 1 |\n",
        "- a\n  - b\n    - c\n",
    ] {
        let bs = parse(src);
        for w in bs.windows(2) {
            assert!(
                w[0].span.end < w[1].span.start,
                "overlap: {:?} then {:?}",
                w[0],
                w[1]
            );
        }
    }
}

#[test]
fn navigation_units_cover_every_non_blank_line_exactly_once() {
    for src in [
        DOC,
        "> quote\n\n| a |\n|---|\n| 1 |\n",
        "- a\n  - b\n    - c\n",
        "1. Bump the version\n   - Cargo.toml\n   - flake.nix\n\n   Remember the lock file.\n\n2. Tag and push\n",
        "- item\n\n  - sub\n\n  ```\n  code\n  ```\n",
        "- item\n  - sub\n\n  tail para\n\n  | a | b |\n  |---|---|\n  | 1 | 2 |\n",
    ]
    .into_iter()
    .chain(MIXED_ENDINGS.iter().copied())
    {
        let bs = parse(src);
        for (i, line) in source_lines(src).into_iter().enumerate() {
            if line.trim().is_empty() {
                continue;
            }
            let n = bs.iter().filter(|b| b.contains_line(i + 1)).count();
            assert_eq!(n, 1, "line {} {line:?} is in {n} units of {src:?}", i + 1);
        }
    }
}

#[test]
fn fence_contents_are_not_headings() {
    assert!(!parse(DOC)
        .iter()
        .any(|b| b.kind == "heading" && b.start() == 11));
}

#[test]
fn code_block_includes_both_fences() {
    let c = parse(DOC).into_iter().find(|b| b.kind == "code").unwrap();
    assert_eq!((c.start(), c.end()), (10, 12));
}

#[test]
fn nested_item_does_not_overlap_its_parent() {
    let items: Vec<_> = parse(DOC)
        .into_iter()
        .filter(|b| b.kind == "list-item")
        .collect();
    assert_eq!(items.len(), 3);
    assert_eq!((items[1].start(), items[1].end()), (7, 7));
    assert_eq!((items[2].start(), items[2].end()), (8, 8));
}

#[test]
fn task_items_are_list_items() {
    let src = "- [ ] Add validation\n- [x] Write tests\n";
    assert_eq!(flat(src), vec![("list-item", 1, 1), ("list-item", 2, 2)]);
}

#[test]
fn blocks_never_run_past_end_of_file() {
    let b = parse("para with no trailing newline");
    assert_eq!(b.len(), 1);
    assert_eq!((b[0].start(), b[0].end()), (1, 1));
}

#[test]
fn block_at_finds_container_and_falls_back_upward() {
    let b = parse(DOC);
    assert_eq!(b[block_at(&b, 1).unwrap()].kind, "heading");
    assert_eq!(b[block_at(&b, 11).unwrap()].kind, "code");
    assert_eq!(b[block_at(&b, 5).unwrap()].kind, "paragraph");
}

#[test]
fn empty_document_has_no_blocks() {
    assert!(parse("").is_empty());
    assert_eq!(block_at(&[], 1), None);
}

#[test]
fn crlf_line_endings_do_not_shift_ranges() {
    assert_eq!(
        flat("# H\r\n\r\npara\r\n"),
        vec![("heading", 1, 1), ("paragraph", 3, 3)]
    );
}

#[test]
fn source_lines_ends_a_line_where_commonmark_does() {
    let cases: &[(&str, &[&str])] = &[
        ("", &[]),
        ("a", &["a"]),
        ("a\n", &["a"]),
        ("a\n\n", &["a", ""]),
        ("a\nb\n", &["a", "b"]),
        ("a\r\nb\r\n", &["a", "b"]),
        ("a\rb\r", &["a", "b"]),
        ("para\r", &["para"]),
        ("a\r\r\nb\n", &["a", "", "b"]),
        ("a\n\rb\n", &["a", "", "b"]),
        ("prüfen\rköde\n", &["prüfen", "köde"]),
    ];
    for (src, want) in cases {
        assert_eq!(source_lines(src), *want, "{src:?}");
    }
}

#[test]
fn a_lone_carriage_return_ends_a_line_the_way_a_newline_does() {
    assert_eq!(
        flat("# H\rpara\r"),
        vec![("heading", 1, 1), ("paragraph", 2, 2)]
    );
    assert_eq!(
        flat("# H\r\n\r\npara\rtail\n"),
        vec![("heading", 1, 1), ("paragraph", 3, 4)]
    );
}

#[test]
fn source_lines_agrees_with_normalising_the_endings_first() {
    for src in MIXED_ENDINGS {
        assert_eq!(source_lines(src), normalised_lines(src), "{src:?}");
    }
}

const INLINE: &str =
    "Use `parse_document` and the [comrak docs](https://docs.rs) now.\n\nSecond paragraph.\n";

#[test]
fn tree_reaches_inline_nodes_with_columns() {
    let t = parse_tree(INLINE);
    let stack = containment_stack(&t, Pos::new(1, 32)); // inside "comrak docs"
    let kinds: Vec<_> = stack.iter().map(|(k, _)| *k).collect();
    assert_eq!(kinds, vec!["text", "link", "paragraph", "document"]);
}

#[test]
fn expanding_from_a_link_label_widens_to_the_whole_link() {
    let t = parse_tree(INLINE);
    let stack = containment_stack(&t, Pos::new(1, 32));
    let (_, label) = stack[0];
    let (_, link) = stack[1];
    assert!(link.start < label.start && link.end > label.end);
    assert_eq!(link.start.col, 30);
}

#[test]
fn code_span_is_reachable_and_includes_its_backticks() {
    let t = parse_tree(INLINE);
    let stack = containment_stack(&t, Pos::new(1, 8));
    let (kind, span) = stack.iter().find(|(k, _)| *k == "code-span").unwrap();
    assert_eq!(*kind, "code-span");
    assert_eq!(span.start.col, 5);
    assert_eq!(
        &INLINE[span.start.col - 1..span.end.col],
        "`parse_document`"
    );
}

#[test]
fn blocks_identical_spans_collapse_so_expansion_always_visibly_moves() {
    let t = parse_tree("Just one paragraph.\n");
    let stack = containment_stack(&t, Pos::new(1, 3));
    let kinds: Vec<_> = stack.iter().map(|(k, _)| *k).collect();
    assert_eq!(kinds, vec!["document"]);
}

#[test]
fn columns_are_byte_offsets_not_character_offsets() {
    let src = "Prüfen `köde` hier.\n";
    let t = parse_tree(src);
    let stack = containment_stack(&t, Pos::new(1, 10));
    let (_, span) = stack.iter().find(|(k, _)| *k == "code-span").unwrap();
    assert_eq!(span.start.col, 9);
    assert_eq!(&src[span.start.col - 1..span.end.col], "`köde`");
}

#[test]
fn table_cells_are_reachable_through_the_hierarchy() {
    let t = parse_tree(DOC);
    let kinds: Vec<_> = containment_stack(&t, Pos::new(14, 3))
        .iter()
        .map(|(k, _)| *k)
        .collect();
    assert!(kinds.contains(&"table-cell"));
    assert!(kinds.contains(&"table-row"));
    assert!(kinds.contains(&"table"));
}

fn gather(n: &TreeNode, lines: &[&str], out: &mut Vec<(&'static str, String)>) {
    if is_inline(n.kind) && n.span.start.line == n.span.end.line {
        let line = lines[n.span.start.line - 1];
        out.push((
            n.kind,
            line[n.span.start.col - 1..n.span.end.col].to_string(),
        ));
    }
    for c in &n.children {
        gather(c, lines, out);
    }
}

fn inline_slices(src: &str) -> Vec<(&'static str, String)> {
    let lines = source_lines(src);
    let mut out = Vec::new();
    gather(&parse_tree(src), &lines, &mut out);
    out
}

fn slices(src: &str) -> Vec<String> {
    inline_slices(src).into_iter().map(|(_, s)| s).collect()
}

#[test]
fn an_escaped_pipe_does_not_shift_what_an_inline_span_quotes() {
    assert_eq!(
        slices("| a \\| b | c *em* d |\n|---|---|\n"),
        ["a \\| b", "c ", "*em*", "em", " d"]
    );
    assert_eq!(
        slices("| a \\| b \\| c *em* tail | z |\n|---|---|\n"),
        ["a \\| b \\| c ", "*em*", "em", " tail", "z"]
    );
    assert_eq!(
        slices("| `x \\| y` then *em* z |\n|---|\n"),
        ["`x \\| y`", " then ", "*em*", "em", " z"]
    );
    assert_eq!(
        slices("| a *em* b \\| |\n|---|\n"),
        ["a ", "*em*", "em", " b \\|"]
    );
    assert_eq!(
        slices("| \\| | *em* b |\n|---|---|\n"),
        ["|", "*em*", "em", " b"]
    );
    assert_eq!(
        slices("> | a \\| b *em* c |\n> |---|\n"),
        ["a \\| b ", "*em*", "em", " c"]
    );
}

#[test]
fn the_shift_stops_at_the_edge_of_the_cell_that_causes_it() {
    assert_eq!(
        slices("| a \\| b | c *em* d |\n|---|---|\n"),
        ["a \\| b", "c ", "*em*", "em", " d"]
    );
    assert_eq!(
        slices("| a \\| b | c \\| d *em* e |\n|---|---|\n"),
        ["a \\| b", "c \\| d ", "*em*", "em", " e"]
    );
    assert_eq!(
        slices("| h |\n|---|\n| a \\| b *em* c |\n| p *em* q |\n"),
        ["h", "a \\| b ", "*em*", "em", " c", "p ", "*em*", "em", " q"]
    );
}

#[test]
fn only_the_pipe_escape_shifts_a_column() {
    assert_eq!(
        slices("| a \\* b \\_ c \\\\ d \\[ e *em* f |\n|---|\n"),
        ["a \\* b \\_ c \\\\ d \\[ e ", "*em*", "em", " f"]
    );
    assert_eq!(
        slices("| a \\\\| b *em* c |\n|---|\n"),
        ["a \\\\| b ", "*em*", "em", " c"]
    );
    for src in [
        "para a \\| b *em* c\n",
        "# head a \\| b *em* c\n",
        "- item a \\| b *em* c\n",
    ] {
        let got = slices(src);
        assert!(got.contains(&"*em*".to_string()), "{src:?} -> {got:?}");
        assert!(
            got.iter().any(|s| s.ends_with("a \\| b ")),
            "{src:?} -> {got:?}"
        );
    }
}

#[test]
fn a_paragraph_a_table_absorbed_shifts_the_same_way_a_cell_does() {
    assert_eq!(
        slices("intro \\| text *em* tail\n| a | b |\n|---|---|\n"),
        ["intro \\| text ", "*em*", "em", " tail", "a", "b"]
    );
    assert_eq!(
        slices("first \\| line *em* one\nsecond *em* line\n| a | b |\n|---|---|\n"),
        [
            "first \\| line ",
            "*em*",
            "em",
            " one",
            "second ",
            "*em*",
            "em",
            " line",
            "a",
            "b"
        ]
    );
    assert_eq!(
        slices("first *em* line\nsecond \\| line *em* two\n| a | b |\n|---|---|\n"),
        [
            "first ",
            "*em*",
            "em",
            " line",
            "second \\| line ",
            "*em*",
            "em",
            " two",
            "a",
            "b"
        ]
    );
    assert_eq!(
        slices("intro \\| text *em* tail\n\n| a | b |\n|---|---|\n"),
        ["intro \\| text ", "*em*", "em", " tail", "a", "b"]
    );
}

#[test]
fn a_corrected_column_is_still_a_byte_offset_on_a_boundary() {
    assert_eq!(
        slices("| Prüfen \\| köde *em* x |\n|---|\n"),
        ["Prüfen \\| köde ", "*em*", "em", " x"]
    );
    assert_eq!(
        slices("| \\| ö *em* ü |\n|---|\n"),
        ["| ö ", "*em*", "em", " ü"]
    );
}

const BODIES: [&str; 8] = [
    "plain text",
    "a *em* b",
    "a **strong** b",
    "a `code` b",
    "see [lbl](http://x) end",
    "a ~~gone~~ b",
    "Prüfen `köde` ü",
    "a <b>x</b> c",
];
const ESCAPES: [&str; 6] = ["", " \\| ", " \\* ", " \\\\| ", " \\\\ ", " \\[ "];

#[test]
fn a_cell_quotes_what_the_same_text_quotes_outside_a_table() {
    let mut checked = 0;
    for body in BODIES {
        for head in ESCAPES {
            for tail in ESCAPES {
                let cell = format!("{head}{body}{tail}");
                let reference = cell.trim_matches(|c: char| c == ' ' || c == '\t');
                let doc = format!("|{cell}| second *em* cell |\n|---|---|\n");
                let want = slices(reference);
                let got = slices(&doc);
                assert!(
                    got.starts_with(&want),
                    "cell {cell:?}\n  in a table: {got:?}\n  standalone: {want:?}"
                );
                checked += 1;
            }
        }
    }
    assert_eq!(checked, BODIES.len() * ESCAPES.len() * ESCAPES.len());
}

#[test]
fn stack_is_strictly_widening_and_ends_at_the_document() {
    let t = parse_tree(DOC);
    let stack = containment_stack(&t, Pos::new(3, 2));
    assert_eq!(stack.last().unwrap().0, "document");
    for w in stack.windows(2) {
        assert!(w[1].1.start <= w[0].1.start && w[1].1.end >= w[0].1.end);
        assert_ne!(w[0].1, w[1].1, "identical spans should have been collapsed");
    }
}

#[test]
fn stack_outside_any_content_still_yields_the_document() {
    let t = parse_tree(DOC);
    let stack = containment_stack(&t, Pos::new(2, 1)); // the blank line
    assert_eq!(stack.len(), 1);
    assert_eq!(stack[0].0, "document");
}

#[test]
fn byte_range_on_line_clips_to_the_line() {
    let s = Span {
        start: Pos::new(2, 3),
        end: Pos::new(4, 5),
    };
    assert_eq!(s.byte_range_on(1, 10), None);
    assert_eq!(s.byte_range_on(2, 10), Some((2, 10)));
    assert_eq!(s.byte_range_on(3, 10), Some((0, 10)));
    assert_eq!(s.byte_range_on(4, 10), Some((0, 5)));
    assert_eq!(s.byte_range_on(4, 3), Some((0, 3)));
    assert_eq!(s.byte_range_on(5, 10), None);
}

#[test]
fn inline_motions_step_through_the_nodes_of_a_line() {
    let t = parse_tree(INLINE);
    let mut p = Pos::new(1, 1);
    let mut cols = Vec::new();
    while let Some(next) = next_inline(&t, p) {
        cols.push((next.line, next.col));
        p = next;
    }
    assert!(cols.contains(&(1, 5)), "the code span: {cols:?}");
    assert!(cols.contains(&(1, 30)), "the link: {cols:?}");
    assert!(cols.iter().any(|(l, _)| *l == 3), "{cols:?}");
}

#[test]
fn inline_motions_are_inverses_and_terminate() {
    let t = parse_tree(INLINE);
    let a = next_inline(&t, Pos::new(1, 1)).unwrap();
    let b = next_inline(&t, a).unwrap();
    assert_eq!(prev_inline(&t, b), Some(a));
    assert_eq!(prev_inline(&t, Pos::new(1, 1)), None);
    let mut last = Pos::new(1, 1);
    while let Some(n) = next_inline(&t, last) {
        last = n;
    }
    assert_eq!(next_inline(&t, last), None);
}

#[test]
fn inline_motions_reach_a_node_far_past_the_right_edge_of_any_pane() {
    let filler = "word ".repeat(45);
    let src = format!("{filler}[label](https://example.dev) tail.\n");
    let t = parse_tree(&src);
    let link = next_inline(&t, Pos::new(1, 2)).unwrap();
    assert!(link.col > 200, "expected a far column, got {}", link.col);
    let stack = containment_stack(&t, link);
    assert!(
        stack.iter().any(|(k, _)| *k == "link"),
        "cursor should land inside the link: {stack:?}"
    );
}

#[test]
fn inline_motions_on_a_file_without_inline_content_do_nothing() {
    let t = parse_tree("---\n");
    assert_eq!(next_inline(&t, Pos::new(1, 1)), None);
    assert_eq!(prev_inline(&t, Pos::new(9, 9)), None);
}

const QDOC: &str = "\
Should I add validation?

Two on one line? Or not? Yes.

A glob `ls *.rs?` is quiet, and https://docs.rs/?q=1 too.

```sh
test -f x && echo ?
```

Is it worth it (really?) and \"is it?\" too.

Really??
";

fn qlines(src: &str) -> Vec<usize> {
    questions(&parse_tree(src), src)
        .iter()
        .map(|p| p.line)
        .collect()
}

#[test]
fn questions_are_sentence_terminators_not_every_question_mark() {
    assert_eq!(qlines(QDOC), vec![1, 3, 3, 11, 11, 13]);
}

#[test]
fn a_question_mark_inside_a_code_span_or_block_is_not_a_question() {
    assert!(!qlines(QDOC).contains(&5), "code span on line 5");
    assert!(!qlines(QDOC).contains(&8), "fenced block on line 8");
}

#[test]
fn a_query_string_is_not_a_question() {
    assert!(qlines("See https://docs.rs/?q=1 for more.\n").is_empty());
}

#[test]
fn closing_punctuation_may_sit_between_the_mark_and_the_space() {
    assert_eq!(qlines("Is it (really?) so?\n"), vec![1, 1]);
    assert_eq!(qlines("She asked \"why?\" twice.\n"), vec![1]);
    assert_eq!(qlines("*Really?* he said.\n"), vec![1]);
}

#[test]
fn a_run_of_question_marks_yields_one_stop() {
    let q = questions(&parse_tree("Really??\n"), "Really??\n");
    assert_eq!(q, vec![Pos::new(1, 8)]);
}

#[test]
fn columns_are_byte_offsets_so_umlauts_do_not_shift_them() {
    let src = "Wieso Ünicode?\n";
    let q = questions(&parse_tree(src), src);
    assert_eq!(q, vec![Pos::new(1, src.find('?').unwrap() + 1)]);
}

#[test]
fn a_question_after_a_bare_carriage_return_is_on_the_line_it_is_on() {
    let src = "x\ry? yes\n";
    assert_eq!(questions(&parse_tree(src), src), vec![Pos::new(2, 2)]);
    let src = "# Heading\r\n\r\nIs it?\rAnd this one?\n";
    assert_eq!(
        questions(&parse_tree(src), src),
        vec![Pos::new(3, 6), Pos::new(4, 13)]
    );
}

#[test]
fn every_reported_position_names_a_question_mark_in_the_line_it_names() {
    let corpus: Vec<String> = MIXED_ENDINGS
        .iter()
        .map(|s| format!("{s}\nAnd a trailing question?\n"))
        .chain(
            [
                QDOC,
                "x\ry? yes\n",
                "Is it?\rReally?\r\nOr not?\n",
                "prüfen — köde?\rzweite Zeile ö?\n",
                "no questions here at all\r\n",
            ]
            .iter()
            .map(ToString::to_string),
        )
        .collect();

    for src in &corpus {
        let lines = source_lines(src);
        for p in questions(&parse_tree(src), src) {
            let line = lines
                .get(p.line - 1)
                .unwrap_or_else(|| panic!("{src:?}: {p:?} names no line"));
            assert_eq!(
                line.as_bytes().get(p.col - 1).copied(),
                Some(b'?'),
                "{src:?}: {p:?} names {line:?}"
            );
        }
    }
}
