//! The parsed document as plain values: nodes in, units and a hierarchy out.
use marginal::blocks::{
    block_at, hierarchy_of, next_inline, parse, parse_tree, prev_inline, questions, source_lines,
    units_of, PipeShift, Pos, Span, TreeNode, Unescaped,
};
use marginal::highlight::marks;
use marginal::md::{assemble, options, read, Md, MdNode};
use marginal::plain;

fn at(l0: usize, c0: usize, l1: usize, c1: usize) -> Span {
    Span { start: Pos::new(l0, c0), end: Pos::new(l1, c1) }
}

fn node(name: &'static str, at: Span, kids: usize) -> MdNode {
    MdNode { name, level: 0, setext: false, at, kids }
}

fn leaf(kind: &'static str, span: Span) -> TreeNode {
    TreeNode { kind, span, setext: false, children: Vec::new() }
}

#[test]
fn every_extension_is_on() {
    let o = options();
    assert!(o.table && o.tasklist && o.strikethrough && o.autolink && o.footnotes);
}

#[test]
fn nodes_in_document_order_become_a_tree() {
    let nodes = vec![
        node("document", at(1, 1, 3, 4), 2),
        node("paragraph", at(1, 1, 1, 4), 2),
        node("text", at(1, 1, 1, 2), 0),
        node("code", at(1, 3, 1, 4), 0),
        node("thematic_break", at(3, 1, 3, 3), 0),
    ];
    let tree = assemble(&nodes);
    let names: Vec<_> = tree.iter().map(|m| (m.node.name, m.kids.len())).collect();
    assert_eq!(names, [("paragraph", 2), ("thematic_break", 0)]);
    let inner: Vec<_> = tree[0].kids.iter().map(|m| m.node.name).collect();
    assert_eq!(inner, ["text", "code"]);
    assert!(assemble(&Vec::new()).is_empty());
}

#[test]
fn a_list_that_ends_early_makes_a_smaller_tree() {
    let nodes = vec![
        node("document", at(1, 1, 1, 1), 3),
        node("paragraph", at(1, 1, 1, 1), 9),
        node("text", at(1, 1, 1, 1), 0),
    ];
    let tree = assemble(&nodes);
    assert_eq!(tree.len(), 1);
    assert_eq!(tree[0].kids.len(), 1);
}

#[test]
fn the_parser_reads_a_heading_with_its_level_and_place() {
    let tree = read("text\n\n## Steps\n\nSetext\n---\n");
    let got: Vec<_> = tree
        .iter()
        .map(|m: &Md| (m.node.name, m.node.level, m.node.setext, m.node.at))
        .collect();
    assert_eq!(
        got,
        [
            ("paragraph", 0, false, at(1, 1, 1, 4)),
            ("heading", 2, false, at(3, 1, 3, 8)),
            ("heading", 2, true, at(5, 1, 6, 3)),
        ]
    );
}

#[test]
fn a_reported_span_is_pulled_into_the_file() {
    let lines = vec!["## ab", "text"];
    let nodes = vec![
        node("document", at(1, 1, 2, 4), 3),
        MdNode { level: 2, ..node("heading", at(1, 1, 1, 5), 0) },
        node("paragraph", at(2, 0, 9, 9), 0),
        node("thematic_break", at(7, 1, 3, 1), 0),
    ];
    let units = units_of(&assemble(&nodes), &lines);
    let got: Vec<_> = units.iter().map(|b| (b.id, b.kind, b.span, b.level)).collect();
    assert_eq!(
        got,
        [
            (0, "heading", at(1, 1, 1, 5), 2),
            (1, "hr", at(2, 1, 2, 1), 0),
            (2, "paragraph", at(2, 1, 2, 4), 0),
        ]
    );
}

#[test]
fn an_end_in_column_zero_is_the_end_of_the_line_before() {
    let lines = vec!["abc", "defg", "h"];
    let nodes = vec![
        node("document", at(1, 1, 3, 1), 1),
        node("paragraph", at(1, 1, 3, 0), 0),
    ];
    assert_eq!(units_of(&assemble(&nodes), &lines)[0].span, at(1, 1, 2, 4));
}

#[test]
fn units_come_out_in_order_whatever_order_they_were_found_in() {
    let src = "1. Bump\n   - Cargo.toml\n\n   Remember the lock file.\n\n2. Tag\n";
    let units = parse(src);
    assert!(units.windows(2).all(|w| w[0].span.start <= w[1].span.start));
    let total = source_lines(src).len();
    for (i, b) in units.iter().enumerate() {
        assert_eq!(b.id, i);
        assert!(1 <= b.start() && b.start() <= b.end() && b.end() <= total, "{b:?}");
    }
}

#[test]
fn the_hierarchy_of_no_nodes_is_the_document_alone() {
    let t = hierarchy_of(&Vec::new(), &vec!["one", "two"]);
    assert_eq!(t, leaf("document", at(1, 1, 2, 3)));
    assert_eq!(parse_tree(""), leaf("document", at(1, 1, 1, 1)));
}

#[test]
fn a_hole_belongs_to_the_unit_above_it_and_the_top_to_the_first() {
    let units = parse("\n\npara\n\n\nlast\n");
    let got: Vec<_> = (1..=7).map(|l| block_at(&units, l)).collect();
    assert_eq!(
        got,
        [Some(0), Some(0), Some(0), Some(0), Some(0), Some(1), Some(1)]
    );
}

#[test]
fn union_is_the_least_span_that_covers_both() {
    let (a, b) = (at(2, 5, 3, 1), at(1, 9, 3, 7));
    assert_eq!(a.union(b), at(1, 9, 3, 7));
    assert_eq!(a.union(at(4, 1, 4, 2)), at(2, 5, 4, 2));
    assert!(a.union(b).contains(Pos::new(2, 5)) && a.union(b).contains(Pos::new(3, 7)));
}

#[test]
fn a_dropped_backslash_moves_the_columns_behind_it_within_its_run() {
    let shift = PipeShift {
        runs: vec![
            Unescaped { line: 1, start: 3, end: 12, dropped: vec![5, 8] },
            Unescaped { line: 4, start: 2, end: 6, dropped: vec![2] },
        ],
    };
    let cols: Vec<_> = (1..=13).map(|c| shift.source_column(1, c)).collect();
    assert_eq!(cols, [1, 2, 3, 4, 6, 7, 9, 10, 11, 12, 13, 14, 13]);
    assert_eq!(shift.source_column(2, 5), 5);
    assert_eq!(shift.source_column(4, 1), 1);
    assert_eq!(shift.source_column(4, 2), 3);
}

#[test]
fn stepping_between_inline_nodes_goes_to_the_nearest_and_back() {
    let t = parse_tree("a `b` c **d**\n");
    let mut stops = Vec::new();
    let mut p = Pos::new(1, 1);
    while let Some(n) = next_inline(&t, p) {
        stops.push(n.col);
        p = n;
    }
    assert_eq!(stops, [2 + 1, 6, 9, 11]);
    for w in stops.windows(2) {
        assert_eq!(next_inline(&t, Pos::new(1, w[0])), Some(Pos::new(1, w[1])));
        assert_eq!(prev_inline(&t, Pos::new(1, w[1])), Some(Pos::new(1, w[0])));
    }
}

#[test]
fn questions_come_in_order_and_each_once() {
    let src = "Why? `not this?`\n\nAnd (this?) too?\n";
    let q = questions(&parse_tree(src), src);
    assert_eq!(q, [Pos::new(1, 4), Pos::new(3, 10), Pos::new(3, 16)]);
}

#[test]
fn a_plain_hierarchy_nests_lines_in_paragraphs() {
    let t = plain::parse_tree("one\ntwo\n\nthree\n");
    let two = vec![leaf("text", at(1, 1, 1, 3)), leaf("text", at(2, 1, 2, 3))];
    let three = vec![leaf("text", at(4, 1, 4, 5))];
    assert_eq!(
        t,
        TreeNode {
            kind: "document",
            span: at(1, 1, 4, 5),
            setext: false,
            children: vec![
                TreeNode { children: two, ..leaf("paragraph", at(1, 1, 2, 3)) },
                TreeNode { children: three, ..leaf("paragraph", at(4, 1, 4, 5)) },
            ],
        }
    );
}

#[test]
fn a_mark_of_a_node_that_reaches_past_its_line_is_cut_to_the_line() {
    let t = TreeNode {
        kind: "document",
        span: at(1, 1, 2, 2),
        setext: false,
        children: vec![leaf("code", at(1, 2, 2, 99))],
    };
    assert_eq!(marks(&t, "abc\nde\n"), [vec![(1, 3, "code")], vec![(0, 2, "code")]]);
}

#[test]
fn a_copied_hierarchy_is_the_same_hierarchy() {
    let t = parse_tree("- a `b`\n  - **c**\n");
    assert!(t.children.len() == 1 && t.children[0].children.len() == 1);
    assert_eq!(t.clone(), t);
}
