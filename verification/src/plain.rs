//! The fallback backend: a document no format-specific parser owns.
//!
//! One rule -- a *paragraph* is a maximal run of consecutive non-blank lines -- because that is the
//! only structure every plain-text format agrees on. The units are a partition of the non-blank
//! lines, whatever the input.
//!
//! The hierarchy is `document` > `paragraph` > `text`, one `text` node per line.
use vstd::prelude::*;
use vstd::string::*;
use crate::blocks::{
    all_on_file, end_of, in_file, last_col, line_len, line_total, lines_of, nested, source_lines,
    tree_shapes, within, Block, Pos, Span, Tree, TreeNode,
};
use crate::highlight::{mark_views, LineMarks};
use crate::text::{blank, is_blank, slices};

verus! {

fn end_col(lines: &Vec<&str>, line: usize) -> (r: usize)
    ensures
        r == last_col(slices(lines@), line as int),
        r >= 1,
{
    let n: usize = line_len(lines, line);
    if n >= 1 {
        n
    } else {
        1
    }
}

/// Maximal runs of consecutive non-blank lines among the first `n`, as 1-based inclusive
/// `(first, last)` pairs.
pub open spec fn runs_of(lines: Seq<Seq<char>>, n: int) -> Seq<(int, int)>
    decreases n,
{
    if n <= 0 {
        Seq::empty()
    } else {
        let before = runs_of(lines, n - 1);
        if is_blank(lines[n - 1]) {
            before
        } else if before.len() > 0 && before.last().1 + 1 == n {
            before.drop_last().push((before.last().0, n))
        } else {
            before.push((n, n))
        }
    }
}

pub open spec fn run_pairs(v: Seq<(usize, usize)>) -> Seq<(int, int)> {
    v.map_values(|t: (usize, usize)| (t.0 as int, t.1 as int))
}

/// `runs` are in order, no two touch, and every line of `1..=n` is in one exactly where it is not
/// blank.
pub open spec fn runs_partition(lines: Seq<Seq<char>>, runs: Seq<(int, int)>, n: int) -> bool {
    &&& forall|i: int| 0 <= i < runs.len() ==> 1 <= (#[trigger] runs[i]).0 <= runs[i].1 <= n
    &&& forall|i: int, j: int|
        0 <= i < j < runs.len() ==> (#[trigger] runs[i]).1 + 1 < (#[trigger] runs[j]).0
    &&& forall|i: int, l: int|
        0 <= i < runs.len() && (#[trigger] runs[i]).0 <= l <= runs[i].1 ==> !is_blank(
            #[trigger] lines[l - 1],
        )
    &&& forall|l: int|
        1 <= l <= n && !is_blank(#[trigger] lines[l - 1]) ==> exists|i: int|
            0 <= i < runs.len() && (#[trigger] runs[i]).0 <= l <= runs[i].1
}

proof fn lemma_runs(lines: Seq<Seq<char>>, n: int)
    requires
        0 <= n <= lines.len(),
    ensures
        runs_partition(lines, runs_of(lines, n), n),
    decreases n,
{
    if n > 0 {
        lemma_runs(lines, n - 1);
        let b = runs_of(lines, n - 1);
        let r = runs_of(lines, n);
        if is_blank(lines[n - 1]) {
            assert forall|l: int| 1 <= l <= n && !is_blank(#[trigger] lines[l - 1]) implies exists|
                i: int,
            | 0 <= i < r.len() && (#[trigger] r[i]).0 <= l <= r[i].1 by {
                assert(l <= n - 1);
            }
        } else {
            let m = r.len() - 1;
            let joins = b.len() > 0 && b.last().1 + 1 == n;
            assert(forall|i: int| 0 <= i < m ==> r[i] == b[i]);
            assert forall|i: int, j: int| 0 <= i < j < r.len() implies (#[trigger] r[i]).1 + 1 < (
            #[trigger] r[j]).0 by {
                if j < m {
                    assert(b[i].1 + 1 < b[j].0);
                } else if joins {
                    assert(b[i].1 + 1 < b[m].0);
                } else {
                    assert(b[i].1 <= n - 1);
                    if i < b.len() - 1 {
                        assert(b[i].1 + 1 < b[b.len() - 1].0);
                    }
                }
            }
            assert forall|i: int, l: int| 0 <= i < r.len() && (#[trigger] r[i]).0 <= l <= r[i].1 implies
                !is_blank(#[trigger] lines[l - 1]) by {
                if i < m {
                    assert(b[i].0 <= l <= b[i].1);
                } else if joins && l < n {
                    assert(b[m].0 <= l <= b[m].1);
                }
            }
            assert forall|l: int| 1 <= l <= n && !is_blank(#[trigger] lines[l - 1]) implies exists|
                i: int,
            | 0 <= i < r.len() && (#[trigger] r[i]).0 <= l <= r[i].1 by {
                if l == n {
                    assert(r[m].0 <= l <= r[m].1);
                } else {
                    let i = choose|i: int| 0 <= i < b.len() && (#[trigger] b[i]).0 <= l <= b[i].1;
                    if i < m {
                        assert(r[i] == b[i]);
                    } else {
                        assert(r[m].0 <= l <= r[m].1);
                    }
                }
            }
        }
    }
}

fn runs(lines: &Vec<&str>) -> (r: Vec<(usize, usize)>)
    ensures
        run_pairs(r@) == runs_of(slices(lines@), lines@.len() as int),
{
    let ghost ls = slices(lines@);
    let mut out: Vec<(usize, usize)> = Vec::new();
    let mut i: usize = 0;
    proof {
        assert(run_pairs(out@) =~= runs_of(ls, 0));
    }
    while i < lines.len()
        invariant
            i <= lines@.len(),
            ls == slices(lines@),
            run_pairs(out@) == runs_of(ls, i as int),
        decreases lines@.len() - i,
    {
        let ghost before = run_pairs(out@);
        let ghost held = out@;
        let l: usize = i + 1;
        if !blank(lines[i]) {
            let n: usize = out.len();
            proof {
                if n > 0 {
                    assert(before.last() == (held.last().0 as int, held.last().1 as int));
                }
            }
            if n > 0 && out[n - 1].1 == l - 1 {
                let first: usize = out[n - 1].0;
                out.set(n - 1, (first, l));
                proof {
                    assert(run_pairs(out@) =~= before.drop_last().push((first as int, l as int)));
                }
            } else {
                out.push((l, l));
                proof {
                    assert(run_pairs(out@) =~= before.push((l as int, l as int)));
                }
            }
        }
        i += 1;
    }
    out
}

/// Whole lines `first..=last`.
pub open spec fn span_over(lines: Seq<Seq<char>>, first: int, last: int) -> Span {
    Span { start: Pos { line: first as usize, col: 1 }, end: end_of(lines, last) }
}

fn span_of(lines: &Vec<&str>, first: usize, last: usize) -> (r: Span)
    ensures
        r == span_over(slices(lines@), first as int, last as int),
        first <= last ==> r.start.le(r.end),
{
    Span { start: Pos::new(first, 1), end: Pos::new(last, end_col(lines, last)) }
}

/// The paragraphs of a document.
pub open spec fn paragraphs(lines: Seq<Seq<char>>) -> Seq<Block> {
    let runs = runs_of(lines, lines.len() as int);
    Seq::new(
        runs.len(),
        |i: int|
            Block {
                id: i as usize,
                kind: "paragraph",
                span: span_over(lines, runs[i].0, runs[i].1),
                level: 0,
            },
    )
}

/// The flat list of navigation units: one per paragraph, in order.
pub fn parse(src: &str) -> (r: Vec<Block>)
    ensures
        r@ == paragraphs(lines_of(src@)),
{
    let lines = source_lines(src);
    let ghost ls = lines_of(src@);
    let rs = runs(&lines);
    let mut out: Vec<Block> = Vec::new();
    let mut i: usize = 0;
    while i < rs.len()
        invariant
            i <= rs@.len(),
            ls == slices(lines@),
            run_pairs(rs@) == runs_of(ls, ls.len() as int),
            out@ =~= paragraphs(ls).take(i as int),
        decreases rs@.len() - i,
    {
        let (first, last) = rs[i];
        proof {
            assert(run_pairs(rs@)[i as int] == (first as int, last as int));
        }
        out.push(
            Block { id: i, kind: "paragraph", span: span_of(&lines, first, last), level: 0 },
        );
        i += 1;
    }
    proof {
        assert(paragraphs(ls).take(i as int) =~= paragraphs(ls));
    }
    out
}

/// Whatever the input, every line that is not blank is in exactly one unit, no blank line is in
/// any, and the units come in order with a blank line between any two of them.
pub proof fn law_paragraphs_partition_the_lines(lines: Seq<Seq<char>>)
    requires
        lines.len() <= usize::MAX,
    ensures
        forall|l: int|
            1 <= l <= lines.len() ==> (!is_blank(#[trigger] lines[l - 1]) <==> exists|i: int|
                0 <= i < paragraphs(lines).len() && (#[trigger] paragraphs(lines)[i]).span.on_line(l)),
        forall|i: int, j: int|
            0 <= i < j < paragraphs(lines).len() ==> (#[trigger] paragraphs(lines)[i]).span.end.line
                + 1 < (#[trigger] paragraphs(lines)[j]).span.start.line,
        all_on_file(paragraphs(lines), line_total(lines)),
{
    let n = lines.len() as int;
    lemma_runs(lines, n);
    let runs = runs_of(lines, n);
    let ps = paragraphs(lines);
    assert forall|i: int| 0 <= i < ps.len() implies (#[trigger] ps[i]).span.start.line == runs[i].0
        && ps[i].span.end.line == runs[i].1 && ps[i].span.start.col == 1 && 1 <= runs[i].0
        <= runs[i].1 <= n by {}
    assert forall|l: int| 1 <= l <= lines.len() implies (!is_blank(#[trigger] lines[l - 1])
        <==> exists|i: int| 0 <= i < ps.len() && (#[trigger] ps[i]).span.on_line(l)) by {
        if !is_blank(lines[l - 1]) {
            let i = choose|i: int| 0 <= i < runs.len() && (#[trigger] runs[i]).0 <= l <= runs[i].1;
            assert(ps[i].span.on_line(l));
        }
        if exists|i: int| 0 <= i < ps.len() && (#[trigger] ps[i]).span.on_line(l) {
            let i = choose|i: int| 0 <= i < ps.len() && (#[trigger] ps[i]).span.on_line(l);
            assert(runs[i].0 <= l <= runs[i].1);
        }
    }
    assert forall|i: int, j: int| 0 <= i < j < ps.len() implies (#[trigger] ps[i]).span.end.line + 1
        < (#[trigger] ps[j]).span.start.line by {
        assert(runs[i].1 + 1 < runs[j].0);
    }
}

/// The lines `first..=last`, one text node each.
pub open spec fn text_nodes(lines: Seq<Seq<char>>, first: int, last: int) -> Seq<Tree> {
    Seq::new(
        if last >= first {
            (last - first + 1) as nat
        } else {
            0
        },
        |i: int|
            Tree {
                kind: "text",
                span: span_over(lines, first + i, first + i),
                setext: false,
                kids: Seq::empty(),
            },
    )
}

/// The hierarchy of a plain document.
pub open spec fn plain_tree(lines: Seq<Seq<char>>) -> Tree {
    let runs = runs_of(lines, lines.len() as int);
    Tree {
        kind: "document",
        span: span_over(lines, 1, line_total(lines)),
        setext: false,
        kids: Seq::new(
            runs.len(),
            |i: int|
                Tree {
                    kind: "paragraph",
                    span: span_over(lines, runs[i].0, runs[i].1),
                    setext: false,
                    kids: text_nodes(lines, runs[i].0, runs[i].1),
                },
        ),
    }
}

/// The hierarchy of a plain document is nested: no node reaches beyond its parent and no two
/// siblings share a position.
pub proof fn law_a_plain_hierarchy_is_nested(lines: Seq<Seq<char>>)
    requires
        lines.len() <= usize::MAX,
    ensures
        nested(plain_tree(lines)),
{
    let n = lines.len() as int;
    lemma_runs(lines, n);
    let runs = runs_of(lines, n);
    let t = plain_tree(lines);
    assert forall|i: int| 0 <= i < t.kids.len() implies within((#[trigger] t.kids[i]).span, t.span)
        && nested(t.kids[i]) by {
        let p = t.kids[i];
        assert(1 <= runs[i].0 <= runs[i].1 <= n);
        assert forall|k: int| 0 <= k < p.kids.len() implies within((#[trigger] p.kids[k]).span, p.span)
            && nested(p.kids[k]) by {
            assert(p.kids[k].span == span_over(lines, runs[i].0 + k, runs[i].0 + k));
            assert(p.kids[k].kids.len() == 0);
        }
        assert forall|k: int, m: int, q: Pos| 0 <= k < m < p.kids.len() implies !(
        (#[trigger] p.kids[k]).span.has(q) && (#[trigger] p.kids[m]).span.has(q))
            || !#[trigger] p.span.has(q) by {
            assert(p.kids[k].span.end.line < p.kids[m].span.start.line);
        }
    }
    assert forall|i: int, j: int, q: Pos| 0 <= i < j < t.kids.len() implies !(
    (#[trigger] t.kids[i]).span.has(q) && (#[trigger] t.kids[j]).span.has(q))
        || !#[trigger] t.span.has(q) by {
        assert(runs[i].1 + 1 < runs[j].0);
        assert(1 <= runs[i].0 && runs[j].1 <= n);
    }
}

fn text_children(lines: &Vec<&str>, first: usize, last: usize) -> (r: Vec<TreeNode>)
    requires
        1 <= first <= last <= lines@.len(),
    ensures
        tree_shapes(r@) == text_nodes(slices(lines@), first as int, last as int),
        forall|i: int|
            0 <= i < r@.len() ==> in_file((#[trigger] r@[i]).shape(), line_total(slices(lines@))),
{
    let ghost ls = slices(lines@);
    let ghost all = text_nodes(ls, first as int, last as int);
    let mut out: Vec<TreeNode> = Vec::new();
    let mut k: usize = first - 1;
    proof {
        assert(tree_shapes(out@) =~= all.take(0));
    }
    while k < last
        invariant
            1 <= first <= k + 1 <= last + 1,
            last <= lines@.len(),
            ls == slices(lines@),
            all == text_nodes(ls, first as int, last as int),
            tree_shapes(out@) == all.take(k + 1 - first),
            forall|i: int|
                0 <= i < out@.len() ==> in_file((#[trigger] out@[i]).shape(), line_total(ls)),
        decreases last - k,
    {
        let ghost before = out@;
        let n = TreeNode {
            kind: "text",
            span: span_of(lines, k + 1, k + 1),
            setext: false,
            children: Vec::new(),
        };
        proof {
            assert(n.shape().kids =~= Seq::<Tree>::empty());
            assert(tree_shapes(before.push(n)) =~= tree_shapes(before).push(n.shape()));
            assert(all.take(k + 2 - first) =~= all.take(k + 1 - first).push(all[k + 1 - first]));
        }
        out.push(n);
        k += 1;
    }
    proof {
        assert(all.take(k + 1 - first) =~= all);
    }
    out
}

/// The whole document as a containment hierarchy.
pub fn parse_tree(src: &str) -> (r: TreeNode)
    ensures
        r.shape() == plain_tree(lines_of(src@)),
        in_file(r.shape(), line_total(lines_of(src@))),
{
    let lines = source_lines(src);
    let ghost ls = lines_of(src@);
    let total: usize = if lines.len() >= 1 {
        lines.len()
    } else {
        1
    };
    let rs = runs(&lines);
    let ghost all = plain_tree(ls).kids;
    let mut children: Vec<TreeNode> = Vec::new();
    let mut i: usize = 0;
    proof {
        assert(tree_shapes(children@) =~= all.take(0));
        lemma_runs(ls, ls.len() as int);
    }
    while i < rs.len()
        invariant
            i <= rs@.len(),
            ls == slices(lines@),
            run_pairs(rs@) == runs_of(ls, ls.len() as int),
            runs_partition(ls, runs_of(ls, ls.len() as int), ls.len() as int),
            all == plain_tree(ls).kids,
            tree_shapes(children@) == all.take(i as int),
            forall|j: int|
                0 <= j < children@.len() ==> in_file(
                    (#[trigger] children@[j]).shape(),
                    line_total(ls),
                ),
        decreases rs@.len() - i,
    {
        let (first, last) = rs[i];
        let ghost before = children@;
        proof {
            assert(run_pairs(rs@)[i as int] == (first as int, last as int));
        }
        let kids = text_children(&lines, first, last);
        let n = TreeNode {
            kind: "paragraph",
            span: span_of(&lines, first, last),
            setext: false,
            children: kids,
        };
        proof {
            assert(n.shape().kids =~= tree_shapes(kids@));
            assert forall|j: int| 0 <= j < n.shape().kids.len() implies in_file(
                #[trigger] n.shape().kids[j],
                line_total(ls),
            ) by {
                assert(n.shape().kids[j] == kids@[j].shape());
            }
            assert(tree_shapes(before.push(n)) =~= tree_shapes(before).push(n.shape()));
            assert(all.take(i + 1) =~= all.take(i as int).push(all[i as int]));
        }
        children.push(n);
        i += 1;
    }
    let r = TreeNode {
        kind: "document",
        span: span_of(&lines, 1, total),
        setext: false,
        children,
    };
    proof {
        assert(all.take(i as int) =~= all);
        assert(r.shape().kids =~= tree_shapes(children@));
        assert forall|j: int| 0 <= j < r.shape().kids.len() implies in_file(
            #[trigger] r.shape().kids[j],
            line_total(ls),
        ) by {
            assert(r.shape().kids[j] == children@[j].shape());
        }
    }
    r
}

/// No syntax to highlight -- but still one entry per source line.
pub fn marks(src: &str) -> (r: Vec<LineMarks>)
    ensures
        r@.len() == lines_of(src@).len(),
        mark_views(r@) == Seq::new(
            lines_of(src@).len(),
            |i: int| Seq::<(usize, usize, &'static str)>::empty(),
        ),
{
    let n: usize = source_lines(src).len();
    let mut out: Vec<LineMarks> = Vec::new();
    while out.len() < n
        invariant
            out@.len() <= n,
            mark_views(out@) == Seq::new(
                out@.len(),
                |i: int| Seq::<(usize, usize, &'static str)>::empty(),
            ),
        decreases n - out@.len(),
    {
        let ghost before = out@;
        let empty: LineMarks = Vec::new();
        proof {
            assert(mark_views(before.push(empty)) =~= mark_views(before).push(empty@));
            assert(empty@ =~= Seq::<(usize, usize, &'static str)>::empty());
        }
        out.push(empty);
        proof {
            assert(mark_views(out@) =~= Seq::new(
                out@.len(),
                |i: int| Seq::<(usize, usize, &'static str)>::empty(),
            ));
        }
    }
    out
}

/// The hierarchy of a plain document has a paragraph for each of its units, with the span of the
/// unit, and in each paragraph a text for each of its lines, which is all of that line.
pub proof fn law_a_plain_hierarchy_is_its_paragraphs_and_lines(lines: Seq<Seq<char>>, i: int, line: int)
    requires
        lines.len() <= usize::MAX,
        0 <= i < paragraphs(lines).len(),
        paragraphs(lines)[i].span.start.line <= line <= paragraphs(lines)[i].span.end.line,
    ensures
        ({
            let t = plain_tree(lines);
            let p = t.kids[i];
            let x = p.kids[line - p.span.start.line];
            &&& t.kind@ == "document"@ && t.kids.len() == paragraphs(lines).len()
            &&& p.kind@ == "paragraph"@ && p.span == paragraphs(lines)[i].span
            &&& p.kids.len() == p.span.end.line - p.span.start.line + 1
            &&& x.kind@ == "text"@ && x.kids.len() == 0
            &&& x.span.start == (Pos { line: line as usize, col: 1 })
            &&& x.span.end == end_of(lines, line)
            &&& t.span.start == (Pos { line: 1, col: 1 }) && t.span.end.line == lines.len()
        }),
{
    lemma_runs(lines, lines.len() as int);
    let runs = runs_of(lines, lines.len() as int);
    assert(1 <= runs[i].0 <= runs[i].1 <= lines.len());
    let p = plain_tree(lines).kids[i];
    assert(p.span == span_over(lines, runs[i].0, runs[i].1));
}

} // verus!
