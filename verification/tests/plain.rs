use marginal::blocks::{block_at, containment_stack, next_inline, prev_inline, source_lines, Pos};
use marginal::plain::{marks, parse, parse_tree};

/// Documents whose line endings disagree with each other.
const MIXED_ENDINGS: &[&str] = &[
    "# H\rpara\r",
    "intro\rrest\n\n# Heading\n\n- item one\n- item two\n",
    "| a | b |\r|---|---|\r| 1 | 2 |\n\npara\n",
    "> quote line\r   lazy continuation\n\n- item\r\n- second\r",
    "```\ncode a\rcode b\n```\n\nafter the fence\n",
    "    indented\rnot indented any more\n",
    "- one\r  - nested\r\n\n  tail para\n",
    "prüfen `köde`\rzweite Zeile mit `Umlaut ö`\n",
    "text\r\r\nblank line between\n",
];

const TEX: &str = "\
\\section{Introduction}

This is a paragraph that runs
across two source lines.

\\begin{itemize}
  \\item first
  \\item second
\\end{itemize}
";

fn flat(src: &str) -> Vec<(&'static str, usize, usize)> {
    parse(src)
        .into_iter()
        .map(|b| (b.kind, b.start(), b.end()))
        .collect()
}

#[test]
fn a_paragraph_is_a_run_of_non_blank_lines() {
    assert_eq!(
        flat(TEX),
        vec![
            ("paragraph", 1, 1),
            ("paragraph", 3, 4),
            ("paragraph", 6, 9),
        ]
    );
}

#[test]
fn every_non_blank_line_is_in_exactly_one_unit() {
    for src in [
        TEX,
        "",
        "\n\n\n",
        "one line",
        "no trailing newline",
        "   \nleading blank\n",
        "a\r\rb\n",
        "tabs\t\n \t \nafter a whitespace-only line\n",
    ]
    .into_iter()
    .chain(MIXED_ENDINGS.iter().copied())
    {
        let bs = parse(src);
        for (i, line) in source_lines(src).into_iter().enumerate() {
            if line.trim().is_empty() {
                continue;
            }
            let n = bs.iter().filter(|b| b.contains_line(i + 1)).count();
            assert_eq!(n, 1, "line {} {line:?} is in {n} units of {src:?}", i + 1);
        }
    }
}

#[test]
fn units_never_overlap_and_stay_ordered() {
    for src in [TEX, "a\nb\n\nc\n"]
        .into_iter()
        .chain(MIXED_ENDINGS.iter().copied())
    {
        for w in parse(src).windows(2) {
            assert!(w[0].span.end < w[1].span.start, "{:?} {:?}", w[0], w[1]);
        }
    }
}

#[test]
fn a_span_ends_on_the_last_byte_of_its_line_not_the_last_character() {
    let src = "prüfen\n";
    let b = parse(src);
    assert_eq!(b[0].span.end.col, 7, "6 characters, 7 bytes");
    assert_eq!(&src[b[0].span.start.col - 1..b[0].span.end.col], "prüfen");
}

#[test]
fn a_document_with_nothing_in_it_has_no_units_but_still_has_a_tree() {
    for src in ["", "\n", "   \n\t\n"] {
        assert!(parse(src).is_empty(), "{src:?}");
        assert_eq!(block_at(&parse(src), 1), None, "{src:?}");
        let t = parse_tree(src);
        assert_eq!(t.kind, "document");
        assert!(t.children.is_empty(), "{src:?}");
        assert_eq!(t.span.start, Pos::new(1, 1), "{src:?}");
    }
}

#[test]
fn contracting_narrows_from_the_paragraph_to_the_line_under_the_cursor() {
    let t = parse_tree(TEX);
    let kinds: Vec<_> = containment_stack(&t, Pos::new(4, 3))
        .iter()
        .map(|(k, _)| *k)
        .collect();
    assert_eq!(kinds, vec!["text", "paragraph", "document"]);
}

#[test]
fn plain_identical_spans_collapse_so_expansion_always_visibly_moves() {
    let t = parse_tree("just one line\n");
    let kinds: Vec<_> = containment_stack(&t, Pos::new(1, 3))
        .iter()
        .map(|(k, _)| *k)
        .collect();
    assert_eq!(kinds, vec!["document"]);
}

#[test]
fn a_cursor_on_a_blank_line_still_resolves_to_the_document() {
    let t = parse_tree(TEX);
    let stack = containment_stack(&t, Pos::new(2, 1));
    assert_eq!(stack.len(), 1);
    assert_eq!(stack[0].0, "document");
}

#[test]
fn inline_motions_step_between_line_starts_and_terminate() {
    let t = parse_tree(TEX);
    let mut p = Pos::new(1, 1);
    let mut seen = Vec::new();
    while let Some(next) = next_inline(&t, p) {
        seen.push(next);
        p = next;
    }
    assert_eq!(
        seen,
        vec![
            Pos::new(3, 1),
            Pos::new(4, 1),
            Pos::new(6, 1),
            Pos::new(7, 1),
            Pos::new(8, 1),
            Pos::new(9, 1),
        ],
        "blank lines have no node, so they are stepped over"
    );
    assert_eq!(next_inline(&t, p), None);
    assert_eq!(prev_inline(&t, Pos::new(3, 1)), Some(Pos::new(1, 1)));
    assert_eq!(prev_inline(&t, Pos::new(1, 1)), None);
}

#[test]
fn there_is_nothing_to_highlight_but_one_entry_per_line_all_the_same() {
    let m = marks(TEX);
    assert_eq!(m.len(), source_lines(TEX).len());
    assert!(m.iter().all(Vec::is_empty));
}
