//! Markdown syntax highlighting, taken from the hierarchy of the document.
//!
//! No second parser: the hierarchy already knows where every heading, fence, link and emphasis run
//! is, to the byte. This turns that into per-line byte ranges tagged with a style name.
//!
//! Marks are emitted parent-before-child, and the renderer lets later marks win, so a `strong` run
//! inside a blockquote overrides the quote's styling.
use vstd::prelude::*;
use vstd::string::*;
use crate::blocks::{
    lines_of, occurs, positioned, source_lines, tree_shapes, Span, Tree, TreeNode,
};
use crate::text::{
    blen, byte_len, char_index, front_run, get_from, lemma_boundary_is_offset,
    lemma_front_run_exists, lemma_offset_cut, lemma_offset_ends, lemma_offset_mono,
    lemma_strip_front, slices, str_eq, tail_at, Laid,
};
use crate::wrap::{is_digit, space};

verus! {

/// `(start_byte, end_byte, tag)` ranges for one line.
pub type LineMarks = Vec<(usize, usize, &'static str)>;

/// Styling of a node; `None` for one that would flatten everything nested inside.
pub open spec fn tag(kind: Seq<char>) -> Option<&'static str> {
    if kind == "heading"@ {
        Some("heading")
    } else if kind == "code"@ {
        Some("code")
    } else if kind == "code-span"@ {
        Some("code-span")
    } else if kind == "link"@ {
        Some("link")
    } else if kind == "image"@ {
        Some("image")
    } else if kind == "strong"@ {
        Some("strong")
    } else if kind == "emph"@ {
        Some("emph")
    } else if kind == "strike"@ {
        Some("strike")
    } else if kind == "html"@ || kind == "html-inline"@ {
        Some("html")
    } else if kind == "hr"@ {
        Some("hr")
    } else if kind == "blockquote"@ {
        Some("quote")
    } else if kind == "table-row"@ {
        Some("table")
    } else if kind == "table-cell"@ {
        Some("cell")
    } else {
        None
    }
}

fn tag_of(kind: &str) -> (r: Option<&'static str>)
    ensures
        r == tag(kind@),
{
    if str_eq(kind, "heading") {
        Some("heading")
    } else if str_eq(kind, "code") {
        Some("code")
    } else if str_eq(kind, "code-span") {
        Some("code-span")
    } else if str_eq(kind, "link") {
        Some("link")
    } else if str_eq(kind, "image") {
        Some("image")
    } else if str_eq(kind, "strong") {
        Some("strong")
    } else if str_eq(kind, "emph") {
        Some("emph")
    } else if str_eq(kind, "strike") {
        Some("strike")
    } else if str_eq(kind, "html") || str_eq(kind, "html-inline") {
        Some("html")
    } else if str_eq(kind, "hr") {
        Some("hr")
    } else if str_eq(kind, "blockquote") {
        Some("quote")
    } else if str_eq(kind, "table-row") {
        Some("table")
    } else if str_eq(kind, "table-cell") {
        Some("cell")
    } else {
        None
    }
}

pub open spec fn is_hash(c: char) -> bool {
    c == '#'
}

/// Length of a heading's leading `#` run and the spaces after it; 0 without a `#`.
pub open spec fn hash_len(s: Seq<char>) -> int {
    let n = front_run(s, |c: char| is_hash(c));
    if n == 0 {
        0
    } else {
        n + front_run(s.skip(n), |c: char| space(c))
    }
}

/// Byte length of an ATX heading's leading `#` run plus the spaces after it.
fn heading_marker_len(line: &str) -> (r: usize)
    ensures
        r == hash_len(line@),
        r <= line@.len(),
{
    let l = Laid::new(line);
    let len: usize = l.chars.len();
    let mut n: usize = 0;
    while n < len && l.chars[n] == '#'
        invariant
            l.wf(),
            l.text@ == line@,
            len == line@.len(),
            n <= len,
            forall|i: int| 0 <= i < n ==> is_hash(#[trigger] line@[i]),
        decreases len - n,
    {
        n += 1;
    }
    let mut k: usize = n;
    while k < len && l.chars[k] == ' '
        invariant
            l.wf(),
            l.text@ == line@,
            len == line@.len(),
            n <= k <= len,
            forall|i: int| n <= i < k ==> space(#[trigger] line@[i]),
        decreases len - k,
    {
        k += 1;
    }
    proof {
        lemma_strip_front(line@, |c: char| is_hash(c), n as int);
        let t = line@.skip(n as int);
        assert forall|i: int| 0 <= i < k - n implies space(#[trigger] t[i]) by {
            assert(t[i] == line@[i + n]);
        }
        lemma_strip_front(t, |c: char| space(c), k - n);
    }
    if n == 0 {
        0
    } else {
        k
    }
}

pub open spec fn is_gap(c: char) -> bool {
    c == ' ' || c == '\t'
}

/// `i` and the spaces and tabs from there on.
pub open spec fn past_gap(s: Seq<char>, i: int) -> int {
    i + front_run(s.skip(i), |c: char| is_gap(c))
}

/// Length of a bullet or ordinal at the front of `s`; 0 where there is none.
pub open spec fn bullet_len(s: Seq<char>) -> int {
    let d = front_run(s, |c: char| is_digit(c));
    if s.len() > 0 && (s[0] == '-' || s[0] == '*' || s[0] == '+') {
        1
    } else if 0 < d < s.len() && (s[d] == '.' || s[d] == ')') {
        d + 1
    } else {
        0
    }
}

/// A task checkbox stands at `i`: brackets around a task marker, with whitespace or the end of the
/// line behind them.
pub open spec fn checkbox_at(s: Seq<char>, i: int) -> bool {
    &&& i + 2 < s.len()
    &&& s[i] == '['
    &&& s[i + 1] == ' ' || s[i + 1] == 'x' || s[i + 1] == 'X'
    &&& s[i + 2] == ']'
    &&& i + 3 >= s.len() || is_gap(s[i + 3])
}

/// Length of a list item's marker: bullet or ordinal, the gap behind it, and a task checkbox with
/// its own gap where there is one.
pub open spec fn item_marker_len(s: Seq<char>) -> int {
    let b = bullet_len(s);
    if b == 0 {
        0
    } else {
        let i = past_gap(s, b);
        if checkbox_at(s, i) {
            past_gap(s, i + 3)
        } else {
            i
        }
    }
}

fn skip_gap(l: &Laid, from: usize) -> (r: usize)
    requires
        l.wf(),
        from <= l.text@.len(),
    ensures
        r == past_gap(l.text@, from as int),
        from <= r <= l.text@.len(),
{
    let n: usize = l.chars.len();
    let mut k: usize = from;
    while k < n && (l.chars[k] == ' ' || l.chars[k] == '\t')
        invariant
            l.wf(),
            n == l.text@.len(),
            from <= k <= n,
            forall|i: int| from <= i < k ==> is_gap(#[trigger] l.text@[i]),
        decreases n - k,
    {
        k += 1;
    }
    proof {
        let t = l.text@.skip(from as int);
        assert forall|i: int| 0 <= i < k - from implies is_gap(#[trigger] t[i]) by {
            assert(t[i] == l.text@[i + from]);
        }
        lemma_strip_front(t, |c: char| is_gap(c), k - from);
    }
    k
}

fn marker_at_front(rest: &str) -> (r: usize)
    ensures
        r == item_marker_len(rest@),
        r <= rest@.len(),
{
    let l = Laid::new(rest);
    let n: usize = l.chars.len();
    let mut d: usize = 0;
    while d < n && '0' <= l.chars[d] && l.chars[d] <= '9'
        invariant
            l.wf(),
            l.text@ == rest@,
            n == rest@.len(),
            d <= n,
            forall|i: int| 0 <= i < d ==> is_digit(#[trigger] rest@[i]),
        decreases n - d,
    {
        d += 1;
    }
    proof {
        lemma_strip_front(rest@, |c: char| is_digit(c), d as int);
    }
    let b: usize = if n > 0 && (l.chars[0] == '-' || l.chars[0] == '*' || l.chars[0] == '+') {
        1
    } else if 0 < d && d < n && (l.chars[d] == '.' || l.chars[d] == ')') {
        d + 1
    } else {
        0
    };
    if b == 0 {
        return 0;
    }
    let i: usize = skip_gap(&l, b);
    if n - i >= 3 && l.chars[i] == '[' && (l.chars[i + 1] == ' ' || l.chars[i + 1] == 'x'
        || l.chars[i + 1] == 'X') && l.chars[i + 2] == ']' && (n - i == 3 || l.chars[i + 3] == ' '
        || l.chars[i + 3] == '\t') {
        return skip_gap(&l, i + 3);
    }
    i
}

/// Byte length of a list item's marker, measured from `from` within `line`.
fn list_marker_len(line: &str, from: usize) -> (r: usize)
    ensures
        r == match tail_at(line@, from as int) {
            Some(t) => item_marker_len(t),
            None => 0,
        },
        from + r <= usize::MAX,
{
    match get_from(line, from) {
        Some(rest) => {
            let _n: usize = byte_len(line);
            proof {
                lemma_offset_ends(rest@);
                lemma_offset_mono(rest@, 0, rest@.len() as int);
            }
            marker_at_front(rest)
        },
        None => 0,
    }
}

/// The text of a line counted from 1, empty where it is not there.
pub open spec fn line_text(lines: Seq<Seq<char>>, line: int) -> Seq<char> {
    if 1 <= line <= lines.len() {
        lines[line - 1]
    } else {
        Seq::empty()
    }
}

pub open spec fn some_mark(a: int, b: int, tag: &'static str) -> Seq<(usize, usize, &'static str)> {
    if b > a {
        seq![(a as usize, b as usize, tag)]
    } else {
        Seq::empty()
    }
}

/// The mark of a span on `line`, which is `len` bytes long.
pub open spec fn own_bytes(span: Span, line: int, len: int, tag: &'static str) -> Seq<
    (usize, usize, &'static str),
> {
    match span.bytes_on(line, len) {
        Some(r) => some_mark(r.0, r.1, tag),
        None => Seq::empty(),
    }
}

/// The mark of the node itself on `line`.
pub open spec fn own_mark(t: Tree, lines: Seq<Seq<char>>, line: int) -> Seq<
    (usize, usize, &'static str),
> {
    match tag(t.kind@) {
        Some(name) => own_bytes(t.span, line, blen(line_text(lines, line)), name),
        None => Seq::empty(),
    }
}

/// The mark of a heading's hashes, which a setext heading has none of, or of a list item's marker,
/// on the line the node starts on. An item's marker ends where its content begins; one without
/// content on that line is measured.
pub open spec fn marker_mark(t: Tree, lines: Seq<Seq<char>>, line: int) -> Seq<
    (usize, usize, &'static str),
> {
    let text = line_text(lines, line);
    let from = t.span.start.col - 1;
    if line != t.span.start.line {
        Seq::empty()
    } else if t.kind@ == "heading"@ && !t.setext {
        let n = match tail_at(text, from) {
            Some(rest) => hash_len(rest),
            None => 0,
        };
        some_mark(from, from + n, "heading-marker")
    } else if t.kind@ == "list-item"@ {
        let end = if t.kids.len() > 0 && t.kids[0].span.start.line == line {
            t.kids[0].span.start.col - 1
        } else {
            from + match tail_at(text, from) {
                Some(rest) => item_marker_len(rest),
                None => 0,
            }
        };
        some_mark(
            from,
            if end <= blen(text) {
                end
            } else {
                blen(text)
            },
            "list-marker",
        )
    } else {
        Seq::empty()
    }
}

/// The marks on `line` of the first `n` of `kids` and everything below them, parents first.
pub open spec fn marks_on(kids: Seq<Tree>, n: int, lines: Seq<Seq<char>>, line: int) -> Seq<
    (usize, usize, &'static str),
>
    decreases kids, n,
{
    if n <= 0 || n > kids.len() {
        Seq::empty()
    } else {
        let t = kids[n - 1];
        marks_on(kids, n - 1, lines, line) + own_mark(t, lines, line) + marker_mark(t, lines, line)
            + marks_on(t.kids, t.kids.len() as int, lines, line)
    }
}

/// One list of marks per line.
pub open spec fn all_marks(t: Tree, lines: Seq<Seq<char>>) -> Seq<
    Seq<(usize, usize, &'static str)>,
> {
    Seq::new(lines.len(), |i: int| marks_on(t.kids, t.kids.len() as int, lines, i + 1))
}

pub open spec fn mark_views(v: Seq<LineMarks>) -> Seq<Seq<(usize, usize, &'static str)>> {
    v.map_values(|m: LineMarks| m@)
}

fn add_mark(out: &mut Vec<LineMarks>, line: usize, a: usize, b: usize, tag: &'static str)
    requires
        line >= 1,
    ensures
        final(out)@.len() == old(out)@.len(),
        forall|i: int|
            0 <= i < old(out)@.len() ==> (#[trigger] final(out)@[i])@ == if i == line - 1 {
                old(out)@[i]@ + some_mark(a as int, b as int, tag)
            } else {
                old(out)@[i]@
            },
{
    if b > a && line <= out.len() {
        let ghost before = out@;
        let mut row: LineMarks = Vec::new();
        let i: usize = line - 1;
        std::mem::swap(&mut row, &mut out[i]);
        row.push((a, b, tag));
        out.set(i, row);
    }
}

/// The node's own mark on every line it covers.
fn mark_lines(span: Span, lines: &Vec<&str>, out: &mut Vec<LineMarks>, name: &'static str)
    requires
        span.start.line >= 1,
        old(out)@.len() == lines@.len(),
    ensures
        final(out)@.len() == old(out)@.len(),
        forall|i: int|
            0 <= i < old(out)@.len() ==> (#[trigger] final(out)@[i])@ == old(out)@[i]@ + own_bytes(
                span,
                i + 1,
                blen(slices(lines@)[i]),
                name,
            ),
{
    let n: usize = lines.len();
    let last: usize = if span.end.line < n {
        span.end.line
    } else {
        n
    };
    let ghost start = out@;
    let ghost ls = slices(lines@);
    let mut k: usize = span.start.line - 1;
    while k < last
        invariant
            n == lines@.len(),
            out@.len() == n,
            start.len() == n,
            ls == slices(lines@),
            last <= n,
            last <= span.end.line,
            last < n ==> last == span.end.line,
            1 <= span.start.line <= k + 1,
            forall|i: int|
                0 <= i < n ==> (#[trigger] out@[i])@ == start[i]@ + (if i < k {
                    own_bytes(span, i + 1, blen(ls[i]), name)
                } else {
                    Seq::empty()
                }),
        decreases last - k,
    {
        let len: usize = byte_len(lines[k]);
        let ghost before = out@;
        let r = span.byte_range_on(k + 1, len);
        if let Some((a, b)) = r {
            add_mark(out, k + 1, a, b, name);
        }
        proof {
            assert(ls[k as int] == lines@[k as int]@);
            assert forall|i: int| 0 <= i < n implies (#[trigger] out@[i])@ == start[i]@ + (if i < k
                + 1 {
                own_bytes(span, i + 1, blen(ls[i]), name)
            } else {
                Seq::empty()
            }) by {
                assert(before[i]@ == start[i]@ + (if i < k {
                    own_bytes(span, i + 1, blen(ls[i]), name)
                } else {
                    Seq::empty()
                }));
            }
        }
        k += 1;
    }
}

/// The mark of a heading's hashes or of a list item's marker.
fn mark_marker(child: &TreeNode, lines: &Vec<&str>, out: &mut Vec<LineMarks>)
    requires
        positioned(child.shape()),
        old(out)@.len() == lines@.len(),
    ensures
        final(out)@.len() == old(out)@.len(),
        forall|i: int|
            0 <= i < old(out)@.len() ==> (#[trigger] final(out)@[i])@ == old(out)@[i]@ + marker_mark(
                child.shape(),
                slices(lines@),
                i + 1,
            ),
{
    let ghost t = child.shape();
    let ghost ls = slices(lines@);
    let line: usize = child.span.start.line;
    let from: usize = child.span.start.col - 1;
    if line > lines.len() {
        return;
    }
    let text = lines[line - 1];
    proof {
        assert(ls[line - 1] == text@);
    }
    if str_eq(child.kind, "heading") && !child.setext {
        let n: usize = match get_from(text, from) {
            Some(rest) => {
                let _n: usize = byte_len(text);
                proof {
                    lemma_offset_ends(rest@);
                    lemma_offset_mono(rest@, 0, rest@.len() as int);
                }
                heading_marker_len(rest)
            },
            None => 0,
        };
        add_mark(out, line, from, from + n, "heading-marker");
    } else if str_eq(child.kind, "list-item") {
        proof {
            if child.children@.len() > 0 {
                assert(t.kids[0] == child.children@[0].shape());
                assert(positioned(t.kids[0]));
            }
        }
        let end: usize = if child.children.len() > 0 && child.children[0].span.start.line == line {
            child.children[0].span.start.col - 1
        } else {
            from + list_marker_len(text, from)
        };
        let len: usize = byte_len(text);
        add_mark(
            out,
            line,
            from,
            if end <= len {
                end
            } else {
                len
            },
            "list-marker",
        );
    }
}

/// The marks of one node: its own, its marker's, and those of the nodes in it.
fn walk_node(child: &TreeNode, lines: &Vec<&str>, out: &mut Vec<LineMarks>)
    requires
        positioned(child.shape()),
        old(out)@.len() == lines@.len(),
    ensures
        final(out)@.len() == old(out)@.len(),
        forall|i: int|
            0 <= i < old(out)@.len() ==> (#[trigger] final(out)@[i])@ == old(out)@[i]@ + own_mark(
                child.shape(),
                slices(lines@),
                i + 1,
            ) + marker_mark(child.shape(), slices(lines@), i + 1) + marks_on(
                child.shape().kids,
                child.shape().kids.len() as int,
                slices(lines@),
                i + 1,
            ),
    decreases child, 0int,
{
    let ghost t = child.shape();
    let ghost ls = slices(lines@);
    let ghost o0 = out@;
    proof {
        assert(t.kids =~= tree_shapes(child.children@));
    }
    let name = tag_of(child.kind);
    if let Some(name) = name {
        mark_lines(child.span, lines, out, name);
    }
    let ghost o1 = out@;
    mark_marker(child, lines, out);
    let ghost o2 = out@;
    proof {
        assert forall|i: int| 0 <= i < child.children@.len() implies positioned(
            (#[trigger] child.children@[i]).shape(),
        ) by {
            assert(t.kids[i] == child.children@[i].shape());
        }
    }
    walk(&child.children, lines, out);
    proof {
        assert forall|i: int| 0 <= i < o0.len() implies (#[trigger] out@[i])@ == o0[i]@ + own_mark(
            t,
            ls,
            i + 1,
        ) + marker_mark(t, ls, i + 1) + marks_on(t.kids, t.kids.len() as int, ls, i + 1) by {
            assert(out@[i]@ == o2[i]@ + marks_on(t.kids, t.kids.len() as int, ls, i + 1));
            assert(o2[i]@ == o1[i]@ + marker_mark(t, ls, i + 1));
            assert(o1[i]@ =~= o0[i]@ + own_mark(t, ls, i + 1));
        }
    }
}

proof fn lemma_regroup<T>(s: Seq<T>, a: Seq<T>, b: Seq<T>, c: Seq<T>, d: Seq<T>)
    ensures
        s + a + b + c + d == s + (a + b + c + d),
{
    assert(s + a + b + c + d =~= s + (a + b + c + d));
}

fn walk(kids: &Vec<TreeNode>, lines: &Vec<&str>, out: &mut Vec<LineMarks>)
    requires
        forall|i: int| 0 <= i < kids@.len() ==> positioned((#[trigger] kids@[i]).shape()),
        old(out)@.len() == lines@.len(),
    ensures
        final(out)@.len() == old(out)@.len(),
        forall|i: int|
            0 <= i < old(out)@.len() ==> (#[trigger] final(out)@[i])@ == old(out)@[i]@ + marks_on(
                tree_shapes(kids@),
                kids@.len() as int,
                slices(lines@),
                i + 1,
            ),
    decreases kids, 1int,
{
    let ghost start = out@;
    let ghost ts = tree_shapes(kids@);
    let ghost ls = slices(lines@);
    let mut k: usize = 0;
    while k < kids.len()
        invariant
            k <= kids@.len(),
            ts == tree_shapes(kids@),
            ls == slices(lines@),
            start.len() == lines@.len(),
            out@.len() == lines@.len(),
            forall|i: int| 0 <= i < kids@.len() ==> positioned((#[trigger] kids@[i]).shape()),
            forall|i: int|
                0 <= i < start.len() ==> (#[trigger] out@[i])@ == start[i]@ + marks_on(
                    ts,
                    k as int,
                    ls,
                    i + 1,
                ),
        decreases kids@.len() - k,
    {
        let ghost t = ts[k as int];
        let ghost before = out@;
        walk_node(&kids[k], lines, out);
        proof {
            assert(t == kids@[k as int].shape());
            assert forall|i: int| 0 <= i < start.len() implies (#[trigger] out@[i])@ == start[i]@
                + marks_on(ts, k + 1, ls, i + 1) by {
                lemma_regroup(
                    start[i]@,
                    marks_on(ts, k as int, ls, i + 1),
                    own_mark(t, ls, i + 1),
                    marker_mark(t, ls, i + 1),
                    marks_on(t.kids, t.kids.len() as int, ls, i + 1),
                );
                assert(before[i]@ == start[i]@ + marks_on(ts, k as int, ls, i + 1));
            }
        }
        k += 1;
    }
}

/// One entry per source line, in order.
pub fn marks(tree: &TreeNode, src: &str) -> (r: Vec<LineMarks>)
    requires
        forall|i: int| 0 <= i < tree.shape().kids.len() ==> positioned(#[trigger] tree.shape().kids[i]),
    ensures
        mark_views(r@) == all_marks(tree.shape(), lines_of(src@)),
{
    let lines = source_lines(src);
    let ghost ls = lines_of(src@);
    let n: usize = lines.len();
    let mut out: Vec<LineMarks> = Vec::new();
    while out.len() < n
        invariant
            out@.len() <= n,
            forall|i: int| 0 <= i < out@.len() ==> (#[trigger] out@[i])@.len() == 0,
        decreases n - out@.len(),
    {
        out.push(Vec::new());
    }
    proof {
        assert(tree.shape().kids =~= tree_shapes(tree.children@));
        assert forall|i: int| 0 <= i < tree.children@.len() implies positioned(
            (#[trigger] tree.children@[i]).shape(),
        ) by {
            assert(tree.shape().kids[i] == tree.children@[i].shape());
        }
    }
    let ghost empty = out@;
    walk(&tree.children, &lines, &mut out);
    proof {
        assert forall|i: int| 0 <= i < out@.len() implies mark_views(out@)[i] == all_marks(
            tree.shape(),
            ls,
        )[i] by {
            assert(empty[i]@.len() == 0);
            assert(out@[i]@ =~= marks_on(
                tree.shape().kids,
                tree.shape().kids.len() as int,
                ls,
                i + 1,
            ));
        }
        assert(mark_views(out@) =~= all_marks(tree.shape(), ls));
    }
    out
}

proof fn lemma_marks_within(kids: Seq<Tree>, n: int, lines: Seq<Seq<char>>, line: int)
    requires
        1 <= line <= lines.len(),
        blen(lines[line - 1]) <= usize::MAX,
        forall|i: int| 0 <= i < kids.len() ==> positioned(#[trigger] kids[i]),
    ensures
        forall|i: int|
            0 <= i < marks_on(kids, n, lines, line).len() ==> (#[trigger] marks_on(
                kids,
                n,
                lines,
                line,
            )[i]).0 < marks_on(kids, n, lines, line)[i].1 <= blen(lines[line - 1]),
    decreases kids, n,
{
    if 0 < n <= kids.len() {
        let t = kids[n - 1];
        let text = lines[line - 1];
        assert(positioned(t));
        lemma_marks_within(kids, n - 1, lines, line);
        lemma_marks_within(t.kids, t.kids.len() as int, lines, line);
        let a = marks_on(kids, n - 1, lines, line);
        let b = own_mark(t, lines, line);
        let c = marker_mark(t, lines, line);
        let d = marks_on(t.kids, t.kids.len() as int, lines, line);
        let r = marks_on(kids, n, lines, line);
        let from = t.span.start.col - 1;
        if let Some(rest) = tail_at(text, from) {
            lemma_tail_blen(text, from);
            lemma_hash_len(rest);
            lemma_offset_ends(rest);
            lemma_offset_mono(rest, 0, rest.len() as int);
        }
        assert forall|i: int| 0 <= i < r.len() implies (#[trigger] r[i]).0 < r[i].1 <= blen(text) by {
            if i < a.len() {
                assert(r[i] == a[i]);
            } else if i < a.len() + b.len() {
                assert(r[i] == b[i - a.len()]);
            } else if i < a.len() + b.len() + c.len() {
                assert(r[i] == c[i - a.len() - b.len()]);
            } else {
                assert(r[i] == d[i - a.len() - b.len() - c.len()]);
            }
        }
    }
}

proof fn lemma_tail_blen(s: Seq<char>, i: int)
    requires
        tail_at(s, i) is Some,
    ensures
        blen(tail_at(s, i)->0) == blen(s) - i,
{
    let k = char_index(s, i);
    lemma_boundary_is_offset(s, i);
    lemma_offset_ends(s);
    lemma_offset_cut(s, k, s.len() as int);
    assert(s.subrange(k, s.len() as int) =~= s.skip(k));
}

proof fn lemma_hash_len(s: Seq<char>)
    ensures
        0 <= hash_len(s) <= s.len(),
{
    lemma_front_run_exists(s, |c: char| is_hash(c));
    let n = front_run(s, |c: char| is_hash(c));
    lemma_front_run_exists(s.skip(n), |c: char| space(c));
}

/// No mark is inverted or empty, and none runs past the end of its line.
pub proof fn law_marks_stay_within_their_line(t: Tree, lines: Seq<Seq<char>>, i: int, k: int)
    requires
        0 <= i < lines.len(),
        blen(lines[i]) <= usize::MAX,
        positioned(t),
        0 <= k < all_marks(t, lines)[i].len(),
    ensures
        all_marks(t, lines)[i][k].0 < all_marks(t, lines)[i][k].1 <= blen(lines[i]),
{
    lemma_marks_within(t.kids, t.kids.len() as int, lines, i + 1);
}

proof fn lemma_marks_hold(
    kids: Seq<Tree>,
    n: int,
    lines: Seq<Seq<char>>,
    line: int,
    i: int,
    x: Tree,
) -> (r: (Seq<(usize, usize, &'static str)>, Seq<(usize, usize, &'static str)>))
    requires
        0 <= i < n <= kids.len(),
        occurs(kids[i], x),
    ensures
        marks_on(kids, n, lines, line) == r.0 + (own_mark(x, lines, line) + marker_mark(x, lines, line)
            + marks_on(x.kids, x.kids.len() as int, lines, line)) + r.1,
    decreases kids, n,
{
    let t = kids[n - 1];
    let before = marks_on(kids, n - 1, lines, line);
    let own = own_mark(t, lines, line) + marker_mark(t, lines, line);
    let below = marks_on(t.kids, t.kids.len() as int, lines, line);
    let mine = own_mark(x, lines, line) + marker_mark(x, lines, line) + marks_on(
        x.kids,
        x.kids.len() as int,
        lines,
        line,
    );
    let all = marks_on(kids, n, lines, line);
    assert(all =~= before + own + below);
    if i < n - 1 {
        let (a, b) = lemma_marks_hold(kids, n - 1, lines, line, i, x);
        assert(all =~= a + mine + (b + own + below));
        (a, b + own + below)
    } else if t == x {
        assert(all =~= before + mine + Seq::empty());
        (before, Seq::empty())
    } else {
        let j = choose|j: int| 0 <= j < t.kids.len() && occurs(#[trigger] t.kids[j], x);
        let (a, b) = lemma_marks_hold(t.kids, t.kids.len() as int, lines, line, j, x);
        assert(all =~= (before + own + a) + mine + b);
        (before + own + a, b)
    }
}

/// `part` is a stretch of `all`.
pub open spec fn part_of(
    all: Seq<(usize, usize, &'static str)>,
    part: Seq<(usize, usize, &'static str)>,
) -> bool {
    exists|k: int|
        0 <= k && k + part.len() <= all.len() && #[trigger] all.subrange(k, k + part.len()) == part
}

proof fn lemma_part_of(
    a: Seq<(usize, usize, &'static str)>,
    part: Seq<(usize, usize, &'static str)>,
    b: Seq<(usize, usize, &'static str)>,
)
    ensures
        part_of(a + part + b, part),
{
    let all = a + part + b;
    let k = a.len() as int;
    assert(all.subrange(k, k + part.len()) =~= part);
}

/// Every node below the document is marked, on every line, however deep it stands: the marks of a
/// line hold the node's own mark, then that of its marker, then the marks of everything below it, so
/// that what stands inside comes later and wins.
pub proof fn law_every_node_is_marked(
    t: Tree,
    lines: Seq<Seq<char>>,
    line: int,
    i: int,
    x: Tree,
)
    requires
        1 <= line <= lines.len(),
        0 <= i < t.kids.len(),
        occurs(t.kids[i], x),
    ensures
        part_of(
            all_marks(t, lines)[line - 1],
            own_mark(x, lines, line) + marker_mark(x, lines, line) + marks_on(
                x.kids,
                x.kids.len() as int,
                lines,
                line,
            ),
        ),
{
    let (a, b) = lemma_marks_hold(t.kids, t.kids.len() as int, lines, line, i, x);
    lemma_part_of(
        a,
        own_mark(x, lines, line) + marker_mark(x, lines, line) + marks_on(
            x.kids,
            x.kids.len() as int,
            lines,
            line,
        ),
        b,
    );
}

/// The mark of a node has the node's tag and covers what the node covers of the line: from its first
/// column on the line it starts on, to its last on the line it ends on, all of the line in between.
pub proof fn law_a_mark_covers_its_node(t: Tree, lines: Seq<Seq<char>>, line: int, name: &'static str)
    requires
        1 <= line <= lines.len(),
        blen(lines[line - 1]) <= usize::MAX,
        tag(t.kind@) == Some(name),
        t.span.start.col >= 1,
    ensures
        ({
            let n = blen(lines[line - 1]);
            let a = if line == t.span.start.line {
                t.span.start.col - 1
            } else {
                0
            };
            let b = if line == t.span.end.line && t.span.end.col < n {
                t.span.end.col as int
            } else {
                n
            };
            &&& t.span.start.line <= line <= t.span.end.line && a < b ==> own_mark(t, lines, line)
                == seq![(a as usize, b as usize, name)]
            &&& !(t.span.start.line <= line <= t.span.end.line && a < b) ==> own_mark(
                t,
                lines,
                line,
            ).len() == 0
        }),
{
    lemma_offset_ends(lines[line - 1]);
}

/// The marker of a heading is its run of hashes and the spaces behind it.
pub proof fn law_a_heading_marker_is_its_hashes(hashes: Seq<char>, gap: Seq<char>, rest: Seq<char>)
    requires
        hashes.len() > 0,
        forall|i: int| 0 <= i < hashes.len() ==> #[trigger] hashes[i] == '#',
        forall|i: int| 0 <= i < gap.len() ==> #[trigger] gap[i] == ' ',
        rest.len() > 0 ==> rest[0] != ' ' && rest[0] != '#',
    ensures
        hash_len(hashes + gap + rest) == hashes.len() + gap.len(),
        rest.len() > 0 ==> hash_len(rest) == 0,
{
    let s = hashes + gap + rest;
    let n = hashes.len() as int;
    let m = gap.len() as int;
    assert forall|i: int| 0 <= i < n implies is_hash(#[trigger] s[i]) by {
        assert(s[i] == hashes[i]);
    }
    if n < s.len() {
        if m > 0 {
            assert(s[n] == gap[0]);
        } else {
            assert(s[n] == rest[0]);
        }
    }
    lemma_strip_front(s, |c: char| is_hash(c), n);
    let t = s.skip(n);
    assert forall|i: int| 0 <= i < m implies space(#[trigger] t[i]) by {
        assert(t[i] == gap[i]);
    }
    if m < t.len() {
        assert(t[m] == rest[0]);
    }
    lemma_strip_front(t, |c: char| space(c), m);
    if rest.len() > 0 {
        lemma_strip_front(rest, |c: char| is_hash(c), 0);
    }
}

/// The marker of a list item is its bullet and the gap behind it, and a checkbox with its own gap
/// where there is one.
pub proof fn law_an_item_marker_is_bullet_and_checkbox(bullet: char, gap: Seq<char>, rest: Seq<char>)
    requires
        bullet == '-' || bullet == '*' || bullet == '+',
        forall|i: int| 0 <= i < gap.len() ==> #[trigger] gap[i] == ' ' || gap[i] == '\t',
        rest.len() > 0,
        rest[0] != ' ',
        rest[0] != '\t',
    ensures
        rest[0] != '[' ==> item_marker_len(seq![bullet] + gap + rest) == 1 + gap.len(),
        rest.len() > 4 && rest[0] == '[' && (rest[1] == ' ' || rest[1] == 'x' || rest[1] == 'X') && rest[2]
            == ']' && rest[3] == ' ' && rest[4] != ' ' && rest[4] != '\t' ==> item_marker_len(
            seq![bullet] + gap + rest,
        ) == 1 + gap.len() + 4,
{
    let s = seq![bullet] + gap + rest;
    let m = gap.len() as int;
    assert(s[0] == bullet);
    let t = s.skip(1);
    assert forall|i: int| 0 <= i < m implies is_gap(#[trigger] t[i]) by {
        assert(t[i] == gap[i]);
    }
    assert(t[m] == rest[0]);
    lemma_strip_front(t, |c: char| is_gap(c), m);
    assert(past_gap(s, 1) == 1 + m);
    assert(s[1 + m] == rest[0]);
    if rest.len() > 4 && rest[3] == ' ' && rest[4] != ' ' && rest[4] != '\t' {
        assert(s[1 + m + 1] == rest[1] && s[1 + m + 2] == rest[2] && s[1 + m + 3] == rest[3]);
        let u = s.skip(1 + m + 3);
        assert(u[0] == rest[3] && u[1] == rest[4]);
        lemma_strip_front(u, |c: char| is_gap(c), 1);
    }
}

} // verus!
