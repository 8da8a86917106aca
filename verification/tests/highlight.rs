use marginal::blocks::parse_tree;
use marginal::highlight::{marks, LineMarks};

fn tags(src: &str, line: usize) -> LineMarks {
    marks(&parse_tree(src), src)
        .get(line - 1)
        .cloned()
        .unwrap_or_default()
}

fn every_case(cases: &[(&str, LineMarks)]) {
    let bad: Vec<String> = cases
        .iter()
        .filter(|(src, want)| tags(src, 1) != *want)
        .map(|(src, want)| format!("{src:?}\n    want {want:?}\n     got {:?}", tags(src, 1)))
        .collect();
    assert!(bad.is_empty(), "\n{}", bad.join("\n"));
}

#[test]
fn heading_is_tagged_and_its_hashes_are_separate() {
    assert_eq!(
        tags("## Steps here\n", 1),
        vec![(0, 13, "heading"), (0, 3, "heading-marker")]
    );
}

#[test]
fn a_heading_that_is_not_flush_left_still_has_a_marker() {
    every_case(&[
        (
            "## Steps\n",
            vec![(0, 8, "heading"), (0, 3, "heading-marker")],
        ),
        (
            "  # Indented\n",
            vec![(2, 12, "heading"), (2, 4, "heading-marker")],
        ),
        (
            "   # three spaces\n",
            vec![(3, 17, "heading"), (3, 5, "heading-marker")],
        ),
        ("    # four spaces\n", vec![(4, 17, "code")]),
        (
            "> # Quoted\n",
            vec![
                (0, 10, "quote"),
                (2, 10, "heading"),
                (2, 4, "heading-marker"),
            ],
        ),
        (
            "- # In a list item\n",
            vec![
                (0, 2, "list-marker"),
                (2, 18, "heading"),
                (2, 4, "heading-marker"),
            ],
        ),
    ]);
}

#[test]
fn a_setext_heading_has_no_hashes_to_dim() {
    every_case(&[
        ("Setext\n===\n", vec![(0, 6, "heading")]),
        ("#hashtag\n===\n", vec![(0, 8, "heading")]),
        ("  #not-atx\n  ---\n", vec![(2, 10, "heading")]),
        (
            "> #hashtag\n> ===\n",
            vec![(0, 10, "quote"), (2, 10, "heading")],
        ),
        (
            "> ####### seven\n> ===\n",
            vec![(0, 15, "quote"), (2, 15, "heading")],
        ),
        (
            "- #hashtag\n  ===\n",
            vec![(0, 2, "list-marker"), (2, 10, "heading")],
        ),
    ]);
}

#[test]
fn list_marker_is_separated_from_the_item_text() {
    let src = "- item a\n";
    assert!(tags(src, 1).contains(&(0, 2, "list-marker")));
}

#[test]
fn task_checkbox_counts_as_part_of_the_marker() {
    every_case(&[
        ("- [ ] Add validation\n", vec![(0, 6, "list-marker")]),
        ("- [x] Done\n", vec![(0, 6, "list-marker")]),
        ("- [X] Done\n", vec![(0, 6, "list-marker")]),
        ("1. [x] ordered\n", vec![(0, 7, "list-marker")]),
        (
            "> - [x] quoted\n",
            vec![(0, 14, "quote"), (2, 8, "list-marker")],
        ),
    ]);
    assert_eq!(
        tags("- outer\n  - [x] inner\n", 2),
        vec![(2, 8, "list-marker")]
    );
}

#[test]
fn a_checkbox_needs_whitespace_after_it_to_be_one() {
    every_case(&[
        ("- [x]and\n", vec![(0, 2, "list-marker")]),
        ("- [a] text\n", vec![(0, 2, "list-marker")]),
        ("- [x](b) t\n", vec![(0, 2, "list-marker"), (2, 8, "link")]),
        (
            "-     [x] a\n",
            vec![(0, 6, "list-marker"), (6, 11, "code")],
        ),
        ("-\t[x] a\n", vec![(0, 6, "list-marker")]),
        ("- [x]\ttab after\n", vec![(0, 6, "list-marker")]),
        ("-  [x]  a\n", vec![(0, 7, "list-marker")]),
        ("- [x]\n", vec![(0, 5, "list-marker")]),
        ("-\n", vec![(0, 1, "list-marker")]),
    ]);
}

#[test]
fn a_one_character_link_label_is_not_a_checkbox() {
    assert_eq!(tags("- [a] text\n", 1), vec![(0, 2, "list-marker")]);
    assert_eq!(tags("- [ab] text\n", 1), vec![(0, 2, "list-marker")]);
}

#[test]
fn ordered_list_markers_are_recognised() {
    assert!(tags("1. first\n", 1).contains(&(0, 3, "list-marker")));
    assert!(tags("12) twelfth\n", 1).contains(&(0, 4, "list-marker")));
}

#[test]
fn nested_item_marker_starts_at_its_own_indent() {
    let src = "- outer\n  - inner\n";
    let m = tags(src, 2);
    assert!(m.contains(&(2, 4, "list-marker")), "{m:?}");
}

#[test]
fn inline_spans_are_tagged_with_their_delimiters() {
    let src = "Use `code` and **bold** and *soft*.\n";
    let m = tags(src, 1);
    assert!(m
        .iter()
        .any(|(a, b, t)| *t == "code-span" && &src[*a..*b] == "`code`"));
    assert!(m
        .iter()
        .any(|(a, b, t)| *t == "strong" && &src[*a..*b] == "**bold**"));
    assert!(m
        .iter()
        .any(|(a, b, t)| *t == "emph" && &src[*a..*b] == "*soft*"));
}

#[test]
fn links_are_tagged_across_label_and_target() {
    let src = "See [the docs](https://example.com) now.\n";
    let m = tags(src, 1);
    assert!(m
        .iter()
        .any(|(a, b, t)| *t == "link" && &src[*a..*b] == "[the docs](https://example.com)"));
}

#[test]
fn a_fence_is_tagged_on_every_line_including_both_delimiters() {
    let src = "```go\nfmt.Println()\n```\n";
    for line in 1..=3 {
        assert!(
            tags(src, line).iter().any(|(_, _, t)| *t == "code"),
            "line {line} untagged"
        );
    }
}

#[test]
fn a_heading_inside_a_fence_is_code_not_heading() {
    let src = "```\n# not a heading\n```\n";
    let m = tags(src, 2);
    assert!(m.iter().any(|(_, _, t)| *t == "code"));
    assert!(!m.iter().any(|(_, _, t)| t.starts_with("heading")));
}

#[test]
fn nested_emphasis_is_emitted_after_its_container_so_it_wins() {
    let src = "> quoted **bold** text\n";
    let m = tags(src, 1);
    let quote = m.iter().position(|(_, _, t)| *t == "quote").unwrap();
    let strong = m.iter().position(|(_, _, t)| *t == "strong").unwrap();
    assert!(quote < strong, "container must come first: {m:?}");
}

#[test]
fn table_cells_are_emitted_after_their_row() {
    let src = "| a | b |\n|---|---|\n| 1 | 2 |\n";
    let m = tags(src, 1);
    let row = m.iter().position(|(_, _, t)| *t == "table").unwrap();
    let cell = m.iter().position(|(_, _, t)| *t == "cell").unwrap();
    assert!(row < cell, "{m:?}");
}

#[test]
fn multibyte_lines_produce_valid_byte_ranges() {
    let src = "Prüfen `köde` — ✓ fertig.\n";
    for (a, b, _) in tags(src, 1) {
        assert!(
            src.is_char_boundary(a) && src.is_char_boundary(b),
            "{a}..{b}"
        );
    }
}

#[test]
fn every_mark_stays_within_its_line() {
    let src = "# H\n\nPara with `code`.\n\n- item\n\n> quote\n";
    let lines: Vec<&str> = src.lines().collect();
    for (i, row) in marks(&parse_tree(src), src).iter().enumerate() {
        for (a, b, t) in row {
            assert!(a <= b, "inverted {t} on line {}", i + 1);
            assert!(*b <= lines[i].len(), "{t} overruns line {}", i + 1);
        }
    }
}

#[test]
fn empty_input_yields_no_marks() {
    assert!(marks(&parse_tree(""), "").is_empty());
}
