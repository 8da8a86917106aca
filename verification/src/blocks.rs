//! Markdown structure.
//!
//! Two views of the same parse, for two different jobs:
//!
//! * [`parse`] -- a flat list of *navigation units*, ordered by position.
//! * [`parse_tree`] -- the full containment hierarchy, block **and** inline.
//!
//! Positions are 1-based lines and 1-based **byte** columns, end inclusive.
//! comrak reports them; inside a table its columns index text from which the
//! `\|` escapes were already taken out, and [`PipeShift`] maps them back so that
//! everything downstream indexes the file.
use vstd::prelude::*;
use vstd::string::*;
use vstd::utf8::*;
use crate::md::{comrak_nodes, document, extensions, read, shapes, Md, MdNode, MdTree};
use crate::order::{
    insert_by, law_sort_orders_the_same_items, lemma_insert_at, ordered, sort_by,
};
use crate::text::{
    blen, byte_len, is_white, lemma_offset_mono, lemma_offset_step, offset, slices, str_eq,
    strip_front, white, Laid,
};
use crate::text::{lemma_split_peel, lemma_split_whole, pieces, split_on, texts};
use crate::text::{lemma_char_bytes, lemma_strip_front};

verus! {

#[derive(Debug, Clone, Copy, PartialEq, Eq, PartialOrd, Ord, Structural)]
pub struct Pos {
    pub line: usize,
    /// 1-based byte column.
    pub col: usize,
}

impl Pos {
    pub fn new(line: usize, col: usize) -> (r: Self)
        ensures
            r == (Pos { line, col }),
    {
        Pos { line, col }
    }

    /// Document order.
    pub open spec fn le(self, other: Pos) -> bool {
        self.line < other.line || (self.line == other.line && self.col <= other.col)
    }

    /// Strict document order.
    pub open spec fn lt(self, other: Pos) -> bool {
        self.line < other.line || (self.line == other.line && self.col < other.col)
    }

    pub fn at_or_before(self, other: Pos) -> (r: bool)
        ensures
            r == self.le(other),
    {
        self.line < other.line || (self.line == other.line && self.col <= other.col)
    }

    pub fn before(self, other: Pos) -> (r: bool)
        ensures
            r == self.lt(other),
    {
        self.line < other.line || (self.line == other.line && self.col < other.col)
    }
}

/// The earlier of two positions.
pub open spec fn pos_min(a: Pos, b: Pos) -> Pos {
    if a.le(b) {
        a
    } else {
        b
    }
}

/// The later of two positions.
pub open spec fn pos_max(a: Pos, b: Pos) -> Pos {
    if a.le(b) {
        b
    } else {
        a
    }
}

/// An inclusive range of source text.
#[derive(Debug, Clone, Copy, PartialEq, Eq, Structural)]
pub struct Span {
    pub start: Pos,
    pub end: Pos,
}

impl Span {
    pub open spec fn has(self, p: Pos) -> bool {
        self.start.le(p) && p.le(self.end)
    }

    pub open spec fn on_line(self, line: int) -> bool {
        self.start.line <= line <= self.end.line
    }

    /// `other` lies within this span.
    pub open spec fn covers(self, other: Span) -> bool {
        self.start.le(other.start) && other.end.le(self.end)
    }

    /// The bytes of `line`, which is `line_len` bytes long, that the span covers.
    pub open spec fn bytes_on(self, line: int, line_len: int) -> Option<(int, int)> {
        if !self.on_line(line) {
            None
        } else {
            let s: int = if line == self.start.line && self.start.col >= 1 {
                self.start.col - 1
            } else {
                0
            };
            let e: int = if line == self.end.line {
                self.end.col as int
            } else {
                line_len
            };
            Some(
                (
                    if s <= line_len {
                        s
                    } else {
                        line_len
                    },
                    if e <= line_len {
                        e
                    } else {
                        line_len
                    },
                ),
            )
        }
    }

    pub open spec fn join(self, other: Span) -> Span {
        Span { start: pos_min(self.start, other.start), end: pos_max(self.end, other.end) }
    }

    pub fn contains(&self, p: Pos) -> (r: bool)
        ensures
            r == self.has(p),
    {
        self.start.at_or_before(p) && p.at_or_before(self.end)
    }

    pub fn touches_line(&self, line: usize) -> (r: bool)
        ensures
            r == self.on_line(line as int),
    {
        line >= self.start.line && line <= self.end.line
    }

    /// Byte range `[start, end)` of this span within `line`, given that line's byte length.
    /// `None` when the span does not reach the line.
    pub fn byte_range_on(&self, line: usize, line_len: usize) -> (r: Option<(usize, usize)>)
        ensures
            match self.bytes_on(line as int, line_len as int) {
                None => r is None,
                Some(p) => r matches Some(q) && q.0 == p.0 && q.1 == p.1,
            },
    {
        if !self.touches_line(line) {
            return None;
        }
        let s: usize = if line == self.start.line {
            self.start.col.saturating_sub(1)
        } else {
            0
        };
        let e: usize = if line == self.end.line {
            self.end.col
        } else {
            line_len
        };
        let s: usize = if s <= line_len {
            s
        } else {
            line_len
        };
        let e: usize = if e <= line_len {
            e
        } else {
            line_len
        };
        Some((s, e))
    }

    pub fn union(self, other: Self) -> (r: Self)
        ensures
            r == self.join(other),
    {
        Span {
            start: if self.start.at_or_before(other.start) {
                self.start
            } else {
                other.start
            },
            end: if self.end.at_or_before(other.end) {
                other.end
            } else {
                self.end
            },
        }
    }
}

/// Joining two spans covers both, and nothing smaller does.
pub proof fn law_union_is_least_cover(a: Span, b: Span, c: Span)
    ensures
        a.join(b).covers(a),
        a.join(b).covers(b),
        c.covers(a) && c.covers(b) ==> c.covers(a.join(b)),
{
}

#[derive(Debug, Clone, Copy, PartialEq, Eq)]
pub struct Block {
    pub id: usize,
    pub kind: &'static str,
    pub span: Span,
    /// Heading level, or list nesting depth. 0 when not applicable.
    pub level: usize,
}

impl Block {
    pub fn start(&self) -> (r: usize)
        ensures
            r == self.span.start.line,
    {
        self.span.start.line
    }

    pub fn end(&self) -> (r: usize)
        ensures
            r == self.span.end.line,
    {
        self.span.end.line
    }

    pub fn contains_line(&self, line: usize) -> (r: bool)
        ensures
            r == self.span.on_line(line as int),
    {
        self.span.touches_line(line)
    }
}

/// A node in the containment hierarchy -- block level and inline level alike.
#[derive(Debug, PartialEq, Eq)]
pub struct TreeNode {
    pub kind: &'static str,
    pub span: Span,
    /// True only for a setext heading, whose first line is ordinary text with no marker on it.
    pub setext: bool,
    pub children: Vec<TreeNode>,
}

/// The containment hierarchy as a mathematical tree.
pub struct Tree {
    pub kind: &'static str,
    pub span: Span,
    pub setext: bool,
    pub kids: Seq<Tree>,
}

impl TreeNode {
    pub open spec fn shape(self) -> Tree
        decreases self,
    {
        Tree {
            kind: self.kind,
            span: self.span,
            setext: self.setext,
            kids: Seq::new(
                self.children@.len(),
                |i: int|
                    if 0 <= i < self.children@.len() {
                        self.children@[i].shape()
                    } else {
                        arbitrary()
                    },
            ),
        }
    }
}

impl Clone for TreeNode {
    fn clone(&self) -> (r: Self)
        ensures
            r.shape() == self.shape(),
        decreases self,
    {
        let ghost kids = self.shape().kids;
        let mut children: Vec<TreeNode> = Vec::new();
        let mut i: usize = 0;
        proof {
            assert(tree_shapes(children@) =~= kids.take(0));
        }
        while i < self.children.len()
            invariant
                i <= self.children@.len(),
                kids == self.shape().kids,
                tree_shapes(children@) == kids.take(i as int),
            decreases self.children@.len() - i,
        {
            let ghost before = children@;
            let c = self.children[i].clone();
            proof {
                assert(tree_shapes(before.push(c)) =~= tree_shapes(before).push(c.shape()));
                assert(kids.take(i + 1) =~= kids.take(i as int).push(kids[i as int]));
            }
            children.push(c);
            i += 1;
        }
        let r = TreeNode { kind: self.kind, span: self.span, setext: self.setext, children };
        proof {
            assert(kids.take(i as int) =~= kids);
            assert(r.shape().kids =~= tree_shapes(children@));
        }
        r
    }
}

// ---------------------------------------------------------------------------
// Lines
// ---------------------------------------------------------------------------

pub open spec fn ends_line(c: char) -> bool {
    c == '\r' || c == '\n'
}

/// Characters before the first line ending.
pub open spec fn first_line_len(s: Seq<char>) -> int
    decreases s.len(),
{
    if s.len() == 0 || ends_line(s[0]) {
        0
    } else {
        1 + first_line_len(s.drop_first())
    }
}

/// Length of the line ending at `i`: a carriage return and the line feed after it are one.
pub open spec fn ending_len(s: Seq<char>, i: int) -> int {
    if s[i] == '\r' && i + 1 < s.len() && s[i + 1] == '\n' {
        2
    } else {
        1
    }
}

/// The lines of `s`, where a line feed, a carriage return and a pair of both each end one. The
/// ending belongs to no line, and a text that ends with one does not open another line.
pub open spec fn lines_of(s: Seq<char>) -> Seq<Seq<char>>
    decreases s.len(),
{
    let i = first_line_len(s);
    if s.len() == 0 {
        Seq::empty()
    } else if i < 0 || i >= s.len() {
        seq![s]
    } else {
        seq![s.take(i)] + lines_of(s.skip(i + ending_len(s, i)))
    }
}

proof fn lemma_first_line_len(s: Seq<char>, n: int)
    requires
        0 <= n <= s.len(),
        forall|i: int| 0 <= i < n ==> !ends_line(#[trigger] s[i]),
        n < s.len() ==> ends_line(s[n]),
    ensures
        first_line_len(s) == n,
    decreases n,
{
    if n > 0 {
        assert(!ends_line(s[0]));
        lemma_first_line_len(s.drop_first(), n - 1);
    }
}

proof fn lemma_first_line_bound(s: Seq<char>)
    ensures
        0 <= first_line_len(s) <= s.len(),
        forall|i: int| 0 <= i < first_line_len(s) ==> !ends_line(#[trigger] s[i]),
        first_line_len(s) < s.len() ==> ends_line(s[first_line_len(s)]),
    decreases s.len(),
{
    if s.len() > 0 && !ends_line(s[0]) {
        let t = s.drop_first();
        lemma_first_line_bound(t);
        assert forall|i: int| 0 <= i < first_line_len(s) implies !ends_line(#[trigger] s[i]) by {
            if i > 0 {
                assert(s[i] == t[i - 1]);
            }
        }
    }
}

/// The document split into lines the way markdown ends one.
///
/// Every vector that a position's line indexes has to come from here.
pub fn source_lines<'a>(src: &'a str) -> (r: Vec<&'a str>)
    ensures
        slices(r@) == lines_of(src@),
{
    let l = Laid::new(src);
    let n: usize = l.chars.len();
    let mut out: Vec<&'a str> = Vec::new();
    let mut from: usize = 0;
    proof {
        assert(src@.skip(0) =~= src@);
        assert(slices(out@) + lines_of(src@) =~= lines_of(src@));
    }
    while from < n
        invariant
            l.wf(),
            l.text@ == src@,
            n == src@.len(),
            from <= n,
            slices(out@) + lines_of(src@.skip(from as int)) == lines_of(src@),
        decreases n - from,
    {
        let ghost rest = src@.skip(from as int);
        let ghost before = slices(out@);
        let mut i: usize = from;
        while i < n && l.chars[i] != '\r' && l.chars[i] != '\n'
            invariant
                l.wf(),
                l.text@ == src@,
                n == src@.len(),
                from <= i <= n,
                forall|j: int| from <= j < i ==> !ends_line(#[trigger] src@[j]),
            decreases n - i,
        {
            i += 1;
        }
        proof {
            assert forall|j: int| 0 <= j < i - from implies !ends_line(#[trigger] rest[j]) by {
                assert(rest[j] == src@[from + j]);
            }
            lemma_first_line_len(rest, i - from);
            assert(rest.take(i - from) =~= src@.subrange(from as int, i as int));
        }
        let piece = l.sub(from, i);
        out.push(piece);
        proof {
            assert(slices(out@) =~= before.push(piece@));
        }
        if i == n {
            proof {
                assert(rest =~= piece@);
                assert(src@.skip(n as int) =~= Seq::<char>::empty());
                assert(slices(out@) + lines_of(src@.skip(n as int)) =~= before + seq![rest]);
            }
            from = n;
        } else {
            let two = l.chars[i] == '\r' && i + 1 < n && l.chars[i + 1] == '\n';
            let next: usize = if two {
                i + 2
            } else {
                i + 1
            };
            proof {
                assert(rest[i - from] == src@[i as int]);
                if i + 1 < n {
                    assert(rest[i - from + 1] == src@[i + 1]);
                }
                assert(rest.skip(next - from) =~= src@.skip(next as int));
                assert(slices(out@) + lines_of(src@.skip(next as int)) =~= before + (seq![piece@]
                    + lines_of(src@.skip(next as int))));
            }
            from = next;
        }
    }
    proof {
        assert(src@.skip(n as int) =~= Seq::<char>::empty());
        assert(slices(out@) + lines_of(src@.skip(n as int)) =~= slices(out@));
    }
    out
}

/// No line holds a line ending.
pub proof fn law_lines_hold_no_ending(s: Seq<char>, i: int, k: int)
    requires
        0 <= i < lines_of(s).len(),
        0 <= k < lines_of(s)[i].len(),
    ensures
        !ends_line(lines_of(s)[i][k]),
    decreases s.len(),
{
    lemma_first_line_bound(s);
    let n = first_line_len(s);
    if n < s.len() {
        let t = s.skip(n + ending_len(s, n));
        if i > 0 {
            assert(lines_of(s)[i] == lines_of(t)[i - 1]);
            law_lines_hold_no_ending(t, i - 1, k);
        }
    }
}

/// Every line ending rewritten to a line feed.
pub open spec fn with_line_feeds(s: Seq<char>) -> Seq<char>
    decreases s.len(),
{
    if s.len() == 0 {
        Seq::empty()
    } else if s[0] == '\r' {
        seq!['\n'] + with_line_feeds(s.skip(ending_len(s, 0)))
    } else {
        seq![s[0]] + with_line_feeds(s.drop_first())
    }
}

pub open spec fn without_last_feed(s: Seq<char>) -> Seq<char> {
    if s.len() > 0 && s.last() == '\n' {
        s.drop_last()
    } else {
        s
    }
}

/// The same lines, reached the other way round: rewrite every ending to a line feed first, drop
/// the last one, and split on it.
pub open spec fn normalised(s: Seq<char>) -> Seq<Seq<char>> {
    if s.len() == 0 {
        Seq::empty()
    } else {
        split_on(without_last_feed(with_line_feeds(s)), '\n')
    }
}

proof fn lemma_feeds_of_first_line(s: Seq<char>)
    ensures
        first_line_len(s) < s.len() ==> with_line_feeds(s) == s.take(first_line_len(s)) + seq!['\n']
            + with_line_feeds(s.skip(first_line_len(s) + ending_len(s, first_line_len(s)))),
        first_line_len(s) >= s.len() ==> with_line_feeds(s) == s,
    decreases s.len(),
{
    lemma_first_line_bound(s);
    let n = first_line_len(s);
    if s.len() == 0 {
    } else if n == 0 {
        assert(s.take(0) + seq!['\n'] =~= seq!['\n']);
        if s[0] == '\n' {
            assert(s.skip(1) =~= s.drop_first());
        }
    } else {
        let t = s.drop_first();
        lemma_feeds_of_first_line(t);
        if n < s.len() {
            assert(ending_len(s, n) == ending_len(t, n - 1));
            assert(s.skip(n + ending_len(s, n)) =~= t.skip(n - 1 + ending_len(t, n - 1)));
            let r = with_line_feeds(s.skip(n + ending_len(s, n)));
            assert(seq![s[0]] + (t.take(n - 1) + seq!['\n'] + r) =~= s.take(n) + seq!['\n'] + r);
        } else {
            assert(seq![s[0]] + t =~= s);
        }
    }
}

/// Splitting on every kind of line ending agrees with normalising the endings first.
pub proof fn law_lines_agree_with_normalising_first(s: Seq<char>)
    ensures
        lines_of(s) == normalised(s),
    decreases s.len(),
{
    lemma_first_line_bound(s);
    lemma_feeds_of_first_line(s);
    let n = first_line_len(s);
    if s.len() == 0 {
    } else if n >= s.len() {
        assert forall|i: int| 0 <= i < s.len() implies #[trigger] s[i] != '\n' by {
            assert(!ends_line(s[i]));
        }
        lemma_split_whole(s, '\n');
    } else {
        let head = s.take(n);
        let rest = s.skip(n + ending_len(s, n));
        let f = with_line_feeds(rest);
        law_lines_agree_with_normalising_first(rest);
        assert forall|i: int| 0 <= i < head.len() implies #[trigger] head[i] != '\n' by {
            assert(!ends_line(s[i]));
        }
        if rest.len() == 0 {
            assert(head + seq!['\n'] + f =~= head.push('\n'));
            assert(without_last_feed(head.push('\n')) =~= head);
            lemma_split_whole(head, '\n');
            assert(seq![head] + lines_of(rest) =~= seq![head]);
        } else {
            assert(f.len() > 0);
            assert(without_last_feed(head + seq!['\n'] + f) =~= head + seq!['\n']
                + without_last_feed(f));
            lemma_split_peel(head, '\n', without_last_feed(f));
        }
    }
}

/// The lines of `src`, computed by rewriting every ending to a line feed and splitting on that.
pub fn normalised_lines(src: &str) -> (r: Vec<String>)
    ensures
        texts(r@) == normalised(src@),
{
    let l = Laid::new(src);
    let n: usize = l.chars.len();
    let mut out: Vec<String> = Vec::new();
    if n == 0 {
        proof {
            assert(texts(out@) =~= Seq::<Seq<char>>::empty());
        }
        return out;
    }
    let mut flat = String::new();
    let mut i: usize = 0;
    proof {
        assert(src@.skip(0) =~= src@);
        assert(flat@ + with_line_feeds(src@) =~= with_line_feeds(src@));
    }
    while i < n
        invariant
            l.wf(),
            l.text@ == src@,
            n == src@.len(),
            i <= n,
            flat@ + with_line_feeds(src@.skip(i as int)) == with_line_feeds(src@),
        decreases n - i,
    {
        let c = l.chars[i];
        let ghost rest = src@.skip(i as int);
        let ghost before = flat@;
        let next: usize = if c == '\r' && i + 1 < n && l.chars[i + 1] == '\n' {
            i + 2
        } else {
            i + 1
        };
        flat.push(
            if c == '\r' {
                '\n'
            } else {
                c
            },
        );
        proof {
            assert(rest[0] == src@[i as int]);
            if i + 1 < n {
                assert(rest[1] == src@[i + 1]);
            }
            assert(rest.skip(next - i) =~= src@.skip(next as int));
            if c != '\r' {
                assert(rest.drop_first() =~= rest.skip(1));
            }
            let r = with_line_feeds(src@.skip(next as int));
            assert(flat@ + r =~= before + (seq![flat@.last()] + r));
        }
        i = next;
    }
    proof {
        assert(src@.skip(n as int) =~= Seq::<char>::empty());
        assert(flat@ =~= with_line_feeds(src@));
    }
    let f = Laid::new(flat.as_str());
    let m: usize = f.chars.len();
    let body = if m > 0 && f.chars[m - 1] == '\n' {
        f.sub(0, m - 1)
    } else {
        f.sub(0, m)
    };
    proof {
        assert(body@ =~= without_last_feed(flat@));
    }
    let parts = pieces(body, '\n');
    let mut j: usize = 0;
    while j < parts.len()
        invariant
            j <= parts@.len(),
            texts(out@) == slices(parts@).take(j as int),
        decreases parts@.len() - j,
    {
        let p = parts[j].to_owned();
        let ghost before = texts(out@);
        out.push(p);
        j += 1;
        proof {
            assert(texts(out@) =~= before.push(p@));
            assert(texts(out@) =~= slices(parts@).take(j as int));
        }
    }
    proof {
        assert(slices(parts@).take(j as int) =~= slices(parts@));
    }
    out
}

// ---------------------------------------------------------------------------
// Positions within the bounds of the file
// ---------------------------------------------------------------------------

/// Bytes in a line, counted from 1; 0 for a line that is not there.
pub open spec fn len_of_line(lines: Seq<Seq<char>>, line: int) -> int {
    let i = if line >= 1 {
        line - 1
    } else {
        0
    };
    if i < lines.len() {
        blen(lines[i])
    } else {
        0
    }
}

/// The last column of a line: an empty one still has a column 1 for a span to end on.
pub open spec fn last_col(lines: Seq<Seq<char>>, line: int) -> int {
    if len_of_line(lines, line) >= 1 {
        len_of_line(lines, line)
    } else {
        1
    }
}

pub open spec fn clamp(x: int, low: int, high: int) -> int {
    if x < low {
        low
    } else if x > high {
        high
    } else {
        x
    }
}

pub open spec fn line_total(lines: Seq<Seq<char>>) -> int {
    if lines.len() >= 1 {
        lines.len() as int
    } else {
        1
    }
}

/// A reported span pulled into the file. A block that the start of the next line ends is reported
/// with end column 0 there; it ends with the line before. No span runs past the file or backwards.
pub open spec fn bounded(at: Span, lines: Seq<Seq<char>>) -> Span {
    let total = line_total(lines);
    let first = clamp(at.start.line as int, 1, total);
    let start = Pos {
        line: first as usize,
        col: if at.start.col >= 1 {
            at.start.col
        } else {
            1
        },
    };
    let end = if at.end.col == 0 && at.end.line > at.start.line {
        let l = clamp(at.end.line - 1, first, total);
        Pos { line: l as usize, col: last_col(lines, l) as usize }
    } else {
        let l = clamp(at.end.line as int, first, total);
        Pos { line: l as usize, col: clamp(at.end.col as int, 1, last_col(lines, l)) as usize }
    };
    Span { start, end: pos_max(start, end) }
}

pub fn line_len(lines: &Vec<&str>, line: usize) -> (r: usize)
    ensures
        r == len_of_line(slices(lines@), line as int),
{
    let i: usize = line.saturating_sub(1);
    if i < lines.len() {
        byte_len(lines[i])
    } else {
        0
    }
}

fn end_col(lines: &Vec<&str>, line: usize) -> (r: usize)
    ensures
        r == last_col(slices(lines@), line as int),
        r >= 1,
{
    let n: usize = line_len(lines, line);
    if n >= 1 {
        n
    } else {
        1
    }
}

fn clamped(x: usize, low: usize, high: usize) -> (r: usize)
    ensures
        r == clamp(x as int, low as int, high as int),
{
    if x < low {
        low
    } else if x > high {
        high
    } else {
        x
    }
}

fn norm(at: Span, lines: &Vec<&str>) -> (r: Span)
    ensures
        r == bounded(at, slices(lines@)),
        1 <= r.start.line <= line_total(slices(lines@)),
        r.start.line <= r.end.line <= line_total(slices(lines@)),
        r.start.col >= 1,
        r.start.le(r.end),
{
    let total: usize = if lines.len() >= 1 {
        lines.len()
    } else {
        1
    };
    let start = Pos::new(
        clamped(at.start.line, 1, total),
        if at.start.col >= 1 {
            at.start.col
        } else {
            1
        },
    );
    let end = if at.end.col == 0 && at.end.line > at.start.line {
        let l: usize = clamped(at.end.line - 1, start.line, total);
        Pos::new(l, end_col(lines, l))
    } else {
        let l: usize = clamped(at.end.line, start.line, total);
        Pos::new(l, clamped(at.end.col, 1, end_col(lines, l)))
    };
    Span {
        start,
        end: if start.at_or_before(end) {
            end
        } else {
            start
        },
    }
}

// ---------------------------------------------------------------------------
// The escaped-pipe column shift
// ---------------------------------------------------------------------------

/// One run of text that the table extension unescaped before its inlines were parsed, and the
/// source columns of the backslashes that cost it.
#[derive(Debug)]
pub struct Unescaped {
    pub line: usize,
    /// 1-based byte column of the run's first byte, in the source.
    pub start: usize,
    /// 1-based byte column of its last byte, in the source.
    pub end: usize,
    /// Source columns of the dropped backslashes, ascending. Never empty.
    pub dropped: Vec<usize>,
}

/// The map from the inline columns comrak reports back to source columns.
///
/// `\|` is how a table cell holds a literal pipe, and the backslash is taken out of the text
/// **before** that text is handed to the inline parser, whose columns are then short by one byte
/// per `\|` dropped ahead of them. The shift starts over in each cell. A paragraph absorbed above
/// a table's header row goes through the same rewrite.
#[derive(Debug)]
pub struct PipeShift {
    pub runs: Vec<Unescaped>,
}

/// The mathematical form of [`Unescaped`].
pub struct Run {
    pub line: int,
    pub start: int,
    pub end: int,
    pub dropped: Seq<int>,
}

pub open spec fn ints(v: Seq<usize>) -> Seq<int> {
    v.map_values(|x: usize| x as int)
}

impl Unescaped {
    pub open spec fn model(self) -> Run {
        Run {
            line: self.line as int,
            start: self.start as int,
            end: self.end as int,
            dropped: ints(self.dropped@),
        }
    }
}

impl PipeShift {
    pub open spec fn model(self) -> Seq<Run> {
        self.runs@.map_values(|u: Unescaped| u.model())
    }
}

/// The last run that starts at or before column `col` of `line`.
pub open spec fn run_at(runs: Seq<Run>, line: int, col: int) -> Option<Run>
    decreases runs.len(),
{
    if runs.len() == 0 {
        None
    } else {
        let r = runs.last();
        if r.line < line || (r.line == line && r.start <= col) {
            Some(r)
        } else {
            run_at(runs.drop_last(), line, col)
        }
    }
}

/// A column moved right past each dropped backslash at or before the position built so far.
pub open spec fn past_dropped(dropped: Seq<int>, col: int) -> int
    decreases dropped.len(),
{
    if dropped.len() > 0 && dropped[0] <= col && col < usize::MAX {
        past_dropped(dropped.drop_first(), col + 1)
    } else {
        col
    }
}

/// The source column that column `col` of `line`, as reported for an inline node, names.
pub open spec fn source_col(runs: Seq<Run>, line: int, col: int) -> int {
    match run_at(runs, line, col) {
        Some(r) => if r.line == line && col <= r.end {
            past_dropped(r.dropped, col)
        } else {
            col
        },
        None => col,
    }
}

proof fn lemma_past_dropped_bound(dropped: Seq<int>, col: int)
    requires
        0 <= col <= usize::MAX,
    ensures
        col <= past_dropped(dropped, col) <= usize::MAX,
        past_dropped(dropped, col) <= col + dropped.len(),
    decreases dropped.len(),
{
    if dropped.len() > 0 && dropped[0] <= col && col < usize::MAX {
        lemma_past_dropped_bound(dropped.drop_first(), col + 1);
    }
}

proof fn lemma_past_dropped_mono(dropped: Seq<int>, a: int, b: int)
    requires
        0 <= a <= b <= usize::MAX,
    ensures
        past_dropped(dropped, a) <= past_dropped(dropped, b),
    decreases dropped.len(),
{
    lemma_past_dropped_bound(dropped, b);
    if dropped.len() > 0 && dropped[0] <= a && a < usize::MAX {
        if b < usize::MAX {
            lemma_past_dropped_mono(dropped.drop_first(), a + 1, b + 1);
        } else {
            lemma_past_dropped_bound(dropped.drop_first(), a + 1);
        }
    }
}

/// Within one run the correction never moves a column left, never swaps two columns, and moves a
/// column by at most one byte per dropped backslash. Outside every run it is the identity.
pub proof fn law_shift_keeps_order_within_a_run(runs: Seq<Run>, line: int, a: int, b: int)
    requires
        0 <= a <= b <= usize::MAX,
    ensures
        source_col(runs, line, a) >= a,
        run_at(runs, line, a) is None ==> source_col(runs, line, a) == a,
        run_at(runs, line, a) matches Some(r) ==> source_col(runs, line, a) <= a + r.dropped.len(),
        run_at(runs, line, a) == run_at(runs, line, b) && (run_at(runs, line, b) matches Some(r) ==> b
            <= r.end) ==> source_col(runs, line, a) <= source_col(runs, line, b),
{
    if let Some(r) = run_at(runs, line, a) {
        lemma_past_dropped_bound(r.dropped, a);
        lemma_past_dropped_mono(r.dropped, a, b);
    }
}

impl PipeShift {
    /// The source column that a column reported on `line` names. Identity outside a run.
    pub fn source_column(&self, line: usize, col: usize) -> (r: usize)
        ensures
            r == source_col(self.model(), line as int, col as int),
    {
        let mut n: usize = self.runs.len();
        proof {
            assert(self.model().take(n as int) =~= self.model());
        }
        while n > 0 && !(self.runs[n - 1].line < line || (self.runs[n - 1].line == line
            && self.runs[n - 1].start <= col))
            invariant
                n <= self.runs@.len(),
                run_at(self.model().take(n as int), line as int, col as int) == run_at(
                    self.model(),
                    line as int,
                    col as int,
                ),
            decreases n,
        {
            proof {
                let t = self.model().take(n as int);
                assert(t.last() == self.runs@[n - 1].model());
                assert(t.drop_last() =~= self.model().take(n - 1));
            }
            n -= 1;
        }
        if n == 0 {
            return col;
        }
        let ghost run = self.runs@[n - 1].model();
        proof {
            assert(self.model().take(n as int).last() == run);
        }
        let r = &self.runs[n - 1];
        if r.line != line || col > r.end {
            return col;
        }
        let mut out: usize = col;
        let mut i: usize = 0;
        proof {
            assert(run.dropped.skip(0) =~= run.dropped);
        }
        while i < r.dropped.len() && r.dropped[i] <= out && out < usize::MAX
            invariant
                i <= r.dropped@.len(),
                run.dropped == ints(r.dropped@),
                past_dropped(run.dropped.skip(i as int), out as int) == past_dropped(
                    run.dropped,
                    col as int,
                ),
            decreases r.dropped@.len() - i,
        {
            proof {
                let d = run.dropped.skip(i as int);
                assert(d[0] == r.dropped@[i as int]);
                assert(d.drop_first() =~= run.dropped.skip(i + 1));
            }
            out += 1;
            i += 1;
        }
        proof {
            let d = run.dropped.skip(i as int);
            if d.len() > 0 {
                assert(d[0] == r.dropped@[i as int]);
            }
        }
        out
    }
}

/// The backslashes that unescaping drops from `s` from character `k` on, as 1-based byte columns.
/// A backslash is dropped when a pipe follows it and no pending backslash precedes it.
pub open spec fn dropped_from(s: Seq<char>, k: int) -> Seq<int>
    decreases s.len() - k,
{
    if k < 0 || k >= s.len() {
        Seq::empty()
    } else if s[k] == '\\' {
        if k + 1 >= s.len() {
            Seq::empty()
        } else if s[k + 1] == '|' {
            seq![offset(s, k + 1)] + dropped_from(s, k + 2)
        } else {
            dropped_from(s, k + 2)
        }
    } else {
        dropped_from(s, k + 1)
    }
}

fn dropped_backslashes(line: &str) -> (r: Vec<usize>)
    ensures
        ints(r@) == dropped_from(line@, 0),
{
    let l = Laid::new(line);
    let n: usize = l.chars.len();
    let mut out: Vec<usize> = Vec::new();
    let mut k: usize = 0;
    proof {
        assert(ints(out@) + dropped_from(line@, 0) =~= dropped_from(line@, 0));
    }
    while k < n
        invariant
            l.wf(),
            l.text@ == line@,
            n == line@.len(),
            k <= n,
            ints(out@) + dropped_from(line@, k as int) == dropped_from(line@, 0),
        decreases n - k,
    {
        let ghost before = ints(out@);
        if l.chars[k] == '\\' {
            if k + 1 < n {
                if l.chars[k + 1] == '|' {
                    let at: usize = l.offs[k + 1];
                    out.push(at);
                    proof {
                        assert(ints(out@) =~= before.push(at as int));
                        assert(ints(out@) + dropped_from(line@, k + 2) =~= before + (seq![at as int]
                            + dropped_from(line@, k + 2)));
                    }
                }
                k += 2;
            } else {
                k = n;
            }
        } else {
            k += 1;
        }
    }
    proof {
        assert(ints(out@) =~= ints(out@) + dropped_from(line@, k as int));
    }
    out
}

/// A paragraph is absorbed above a table when the table starts on the line after it ends.
pub open spec fn is_preface(kids: Seq<MdTree>, i: int) -> bool {
    &&& i + 1 < kids.len()
    &&& kids[i + 1].node.name@ == "table"@
    &&& kids[i + 1].node.at.start.line == kids[i].node.at.end.line + 1
}

/// Whole lines `from` to `to`, as `(line, first column, last column)`.
pub open spec fn whole_lines(from: int, to: int, lines: Seq<Seq<char>>) -> Seq<(int, int, int)>
    decreases to - from + 1,
{
    if from > to {
        Seq::empty()
    } else {
        whole_lines(from, to - 1, lines).push((to, 1, len_of_line(lines, to)))
    }
}

/// The ranges of text that one child contributes itself.
pub open spec fn own_ranges(kids: Seq<MdTree>, i: int, lines: Seq<Seq<char>>) -> Seq<
    (int, int, int),
> {
    let n = kids[i].node;
    if n.name@ == "table_cell"@ && n.at.start.line == n.at.end.line {
        seq![(n.at.start.line as int, n.at.start.col as int, n.at.end.col as int)]
    } else if n.name@ == "paragraph"@ && is_preface(kids, i) {
        whole_lines(n.at.start.line as int, n.at.end.line as int, lines)
    } else {
        Seq::empty()
    }
}

/// The ranges of text that were unescaped among the first `n` of `kids` and below them, in
/// document order.
pub open spec fn unescaped(kids: Seq<MdTree>, n: int, lines: Seq<Seq<char>>) -> Seq<(int, int, int)>
    decreases kids, n,
{
    if n <= 0 || n > kids.len() {
        Seq::empty()
    } else {
        unescaped(kids, n - 1, lines) + own_ranges(kids, n - 1, lines) + unescaped(
            kids[n - 1].kids,
            kids[n - 1].kids.len() as int,
            lines,
        )
    }
}

pub open spec fn ranges_of(v: Seq<(usize, usize, usize)>) -> Seq<(int, int, int)> {
    v.map_values(|t: (usize, usize, usize)| (t.0 as int, t.1 as int, t.2 as int))
}

fn unescaped_runs(kids: &Vec<Md>, lines: &Vec<&str>, out: &mut Vec<(usize, usize, usize)>)
    ensures
        ranges_of(final(out)@) == ranges_of(old(out)@) + unescaped(
            shapes(kids@),
            kids@.len() as int,
            slices(lines@),
        ),
    decreases kids,
{
    let ghost ls = slices(lines@);
    let ghost ks = shapes(kids@);
    let ghost start = ranges_of(out@);
    let mut i: usize = 0;
    proof {
        assert(ranges_of(out@) =~= start + unescaped(ks, 0, ls));
    }
    while i < kids.len()
        invariant
            i <= kids@.len(),
            ks == shapes(kids@),
            ls == slices(lines@),
            ranges_of(out@) == start + unescaped(ks, i as int, ls),
        decreases kids@.len() - i,
    {
        let ghost here = ranges_of(out@);
        let node = kids[i].node;
        let at = node.at;
        proof {
            assert(ks[i as int] == kids@[i as int].shape());
            assert(ks[i as int].node == node);
            assert(ks[i as int].kids =~= shapes(kids@[i as int].kids@));
            if i + 1 < kids@.len() {
                assert(ks[i + 1].node == kids@[i + 1].node);
            }
        }
        if str_eq(node.name, "table_cell") && at.start.line == at.end.line {
            out.push((at.start.line, at.start.col, at.end.col));
            proof {
                assert(ranges_of(out@) =~= here + own_ranges(ks, i as int, ls));
            }
        } else if str_eq(node.name, "paragraph") && i + 1 < kids.len() && str_eq(
            kids[i + 1].node.name,
            "table",
        ) && at.end.line < usize::MAX && kids[i + 1].node.at.start.line == at.end.line + 1 {
            let from: usize = at.start.line;
            let to: usize = at.end.line;
            let mut l: usize = from;
            proof {
                assert(ranges_of(out@) =~= here + whole_lines(from as int, from - 1, ls));
            }
            while l <= to
                invariant
                    to < usize::MAX,
                    from <= l,
                    l <= to + 1 || l == from,
                    ls == slices(lines@),
                    ranges_of(out@) == here + whole_lines(from as int, l - 1, ls),
                decreases to + 1 - l,
            {
                let w: usize = line_len(lines, l);
                let ghost before = ranges_of(out@);
                out.push((l, 1, w));
                proof {
                    assert(ranges_of(out@) =~= before.push((l as int, 1, w as int)));
                    assert(ranges_of(out@) =~= here + whole_lines(from as int, l as int, ls));
                }
                l += 1;
            }
            proof {
                if from > to {
                    assert(whole_lines(from as int, l - 1, ls) =~= whole_lines(from as int, to as int, ls));
                }
                assert(ranges_of(out@) == here + own_ranges(ks, i as int, ls));
            }
        } else {
            proof {
                assert(ranges_of(out@) =~= here + own_ranges(ks, i as int, ls));
            }
        }
        let ghost mid = ranges_of(out@);
        unescaped_runs(&kids[i].kids, lines, out);
        proof {
            assert(ranges_of(out@) =~= start + unescaped(ks, i + 1, ls));
        }
        i += 1;
    }
}

/// Order of `(line, start, end)` ranges.
pub open spec fn range_le() -> spec_fn((usize, usize, usize), (usize, usize, usize)) -> bool {
    |a: (usize, usize, usize), b: (usize, usize, usize)|
        a.0 < b.0 || (a.0 == b.0 && (a.1 < b.1 || (a.1 == b.1 && a.2 <= b.2)))
}

fn sort_ranges(v: Vec<(usize, usize, usize)>) -> (r: Vec<(usize, usize, usize)>)
    ensures
        r@ == sort_by(v@, range_le()),
{
    let mut out: Vec<(usize, usize, usize)> = Vec::new();
    let mut n: usize = 0;
    proof {
        assert(v@.take(0) =~= Seq::<(usize, usize, usize)>::empty());
        assert(out@ =~= sort_by(v@.take(0), range_le()));
    }
    while n < v.len()
        invariant
            n <= v@.len(),
            out@.len() == n,
            out@ == sort_by(v@.take(n as int), range_le()),
        decreases v@.len() - n,
    {
        let x = v[n];
        let mut i: usize = n;
        while i > 0 && !(out[i - 1].0 < x.0 || (out[i - 1].0 == x.0 && (out[i - 1].1 < x.1 || (out[i
            - 1].1 == x.1 && out[i - 1].2 <= x.2))))
            invariant
                i <= n,
                out@.len() == n,
                forall|j: int| i <= j < n ==> !(range_le())(#[trigger] out@[j], x),
            decreases i,
        {
            i -= 1;
        }
        proof {
            lemma_insert_at(out@, x, range_le(), i as int);
            assert(v@.take(n + 1).drop_last() =~= v@.take(n as int));
        }
        out.insert(i, x);
        n += 1;
    }
    proof {
        assert(v@.take(n as int) =~= v@);
    }
    out
}

/// The columns of `s` that lie in `from..=to`.
pub open spec fn columns_in(s: Seq<int>, from: int, to: int) -> Seq<int>
    decreases s.len(),
{
    if s.len() == 0 {
        s
    } else if from <= s.last() <= to {
        columns_in(s.drop_last(), from, to).push(s.last())
    } else {
        columns_in(s.drop_last(), from, to)
    }
}

/// The runs that lost a backslash, of ranges in order.
pub open spec fn runs_of(ranges: Seq<(usize, usize, usize)>, lines: Seq<Seq<char>>) -> Seq<Run>
    decreases ranges.len(),
{
    if ranges.len() == 0 {
        Seq::empty()
    } else {
        let before = runs_of(ranges.drop_last(), lines);
        let (line, start, end) = ranges.last();
        if 1 <= line <= lines.len() {
            let dropped = columns_in(dropped_from(lines[line - 1], 0), start as int, end as int);
            if dropped.len() > 0 {
                before.push(
                    Run { line: line as int, start: start as int, end: end as int, dropped },
                )
            } else {
                before
            }
        } else {
            before
        }
    }
}

pub open spec fn pair_up(v: Seq<(int, int, int)>) -> Seq<(usize, usize, usize)> {
    v.map_values(|t: (int, int, int)| (t.0 as usize, t.1 as usize, t.2 as usize))
}

/// The correction for a document.
pub open spec fn shift_of(kids: Seq<MdTree>, lines: Seq<Seq<char>>) -> Seq<Run> {
    runs_of(sort_by(pair_up(unescaped(kids, kids.len() as int, lines)), range_le()), lines)
}

fn kept_columns(all: &Vec<usize>, from: usize, to: usize) -> (r: Vec<usize>)
    ensures
        ints(r@) == columns_in(ints(all@), from as int, to as int),
{
    let mut out: Vec<usize> = Vec::new();
    let mut i: usize = 0;
    let ghost a = ints(all@);
    proof {
        assert(ints(out@) =~= columns_in(a.take(0), from as int, to as int));
    }
    while i < all.len()
        invariant
            i <= all@.len(),
            a == ints(all@),
            ints(out@) == columns_in(a.take(i as int), from as int, to as int),
        decreases all@.len() - i,
    {
        let ghost before = ints(out@);
        proof {
            assert(a.take(i + 1).drop_last() =~= a.take(i as int));
            assert(a.take(i + 1).last() == all@[i as int]);
        }
        if all[i] >= from && all[i] <= to {
            out.push(all[i]);
            proof {
                assert(ints(out@) =~= before.push(all@[i as int] as int));
            }
        }
        i += 1;
    }
    proof {
        assert(a.take(i as int) =~= a);
    }
    out
}

fn pipe_shift(kids: &Vec<Md>, lines: &Vec<&str>) -> (r: PipeShift)
    ensures
        r.model() == shift_of(shapes(kids@), slices(lines@)),
{
    let ghost ls = slices(lines@);
    let mut ranges: Vec<(usize, usize, usize)> = Vec::new();
    unescaped_runs(kids, lines, &mut ranges);
    proof {
        let u = unescaped(shapes(kids@), kids@.len() as int, ls);
        assert(ranges_of(ranges@) =~= u);
        assert(pair_up(u) =~= ranges@) by {
            assert forall|i: int| 0 <= i < ranges@.len() implies pair_up(u)[i] == ranges@[i] by {
                assert(u[i] == ranges_of(ranges@)[i]);
            }
        }
    }
    let sorted = sort_ranges(ranges);
    let mut runs: Vec<Unescaped> = Vec::new();
    let mut i: usize = 0;
    let ghost f = |u: Unescaped| u.model();
    proof {
        assert(runs@.map_values(f) =~= runs_of(sorted@.take(0), ls));
    }
    while i < sorted.len()
        invariant
            i <= sorted@.len(),
            ls == slices(lines@),
            f == (|u: Unescaped| u.model()),
            runs@.map_values(f) == runs_of(sorted@.take(i as int), ls),
        decreases sorted@.len() - i,
    {
        let (line, start, end) = sorted[i];
        let ghost before = runs@.map_values(f);
        proof {
            assert(sorted@.take(i + 1).drop_last() =~= sorted@.take(i as int));
        }
        if 1 <= line && line <= lines.len() {
            let all = dropped_backslashes(lines[line - 1]);
            let dropped = kept_columns(&all, start, end);
            if dropped.len() > 0 {
                let run = Unescaped { line, start, end, dropped };
                proof {
                    assert(runs@.push(run).map_values(f) =~= before.push(run.model()));
                }
                runs.push(run);
            }
        }
        i += 1;
    }
    proof {
        assert(sorted@.take(i as int) =~= sorted@);
    }
    PipeShift { runs }
}

// ---------------------------------------------------------------------------
// Kinds
// ---------------------------------------------------------------------------

/// The label of a node, `None` for one that is no place of its own.
pub open spec fn label(name: Seq<char>) -> Option<&'static str> {
    if name == "paragraph"@ {
        Some("paragraph")
    } else if name == "heading"@ {
        Some("heading")
    } else if name == "code_block"@ {
        Some("code")
    } else if name == "html_block"@ {
        Some("html")
    } else if name == "thematic_break"@ {
        Some("hr")
    } else if name == "table"@ {
        Some("table")
    } else if name == "table_row"@ {
        Some("table-row")
    } else if name == "table_cell"@ {
        Some("table-cell")
    } else if name == "block_quote"@ {
        Some("blockquote")
    } else if name == "footnote_definition"@ {
        Some("footnote")
    } else if name == "item"@ || name == "taskitem"@ {
        Some("list-item")
    } else if name == "list"@ {
        Some("list")
    } else if name == "code"@ {
        Some("code-span")
    } else if name == "link"@ {
        Some("link")
    } else if name == "image"@ {
        Some("image")
    } else if name == "strong"@ {
        Some("strong")
    } else if name == "emph"@ {
        Some("emph")
    } else if name == "strikethrough"@ {
        Some("strike")
    } else if name == "html_inline"@ {
        Some("html-inline")
    } else if name == "text"@ {
        Some("text")
    } else {
        None
    }
}

fn kind_of(name: &str) -> (r: Option<&'static str>)
    ensures
        r == label(name@),
{
    if str_eq(name, "paragraph") {
        Some("paragraph")
    } else if str_eq(name, "heading") {
        Some("heading")
    } else if str_eq(name, "code_block") {
        Some("code")
    } else if str_eq(name, "html_block") {
        Some("html")
    } else if str_eq(name, "thematic_break") {
        Some("hr")
    } else if str_eq(name, "table") {
        Some("table")
    } else if str_eq(name, "table_row") {
        Some("table-row")
    } else if str_eq(name, "table_cell") {
        Some("table-cell")
    } else if str_eq(name, "block_quote") {
        Some("blockquote")
    } else if str_eq(name, "footnote_definition") {
        Some("footnote")
    } else if str_eq(name, "item") || str_eq(name, "taskitem") {
        Some("list-item")
    } else if str_eq(name, "list") {
        Some("list")
    } else if str_eq(name, "code") {
        Some("code-span")
    } else if str_eq(name, "link") {
        Some("link")
    } else if str_eq(name, "image") {
        Some("image")
    } else if str_eq(name, "strong") {
        Some("strong")
    } else if str_eq(name, "emph") {
        Some("emph")
    } else if str_eq(name, "strikethrough") {
        Some("strike")
    } else if str_eq(name, "html_inline") {
        Some("html-inline")
    } else if str_eq(name, "text") {
        Some("text")
    } else {
        None
    }
}

pub open spec fn holds_items(name: Seq<char>) -> bool {
    name == "list"@ || name == "description_list"@
}

fn is_list(name: &str) -> (r: bool)
    ensures
        r == holds_items(name@),
{
    str_eq(name, "list") || str_eq(name, "description_list")
}

/// Inline labels: what a selection narrows onto, and therefore what is worth stepping between.
pub open spec fn inline_label(kind: Seq<char>) -> bool {
    kind == "code-span"@ || kind == "link"@ || kind == "image"@ || kind == "strong"@ || kind
        == "emph"@ || kind == "strike"@ || kind == "html-inline"@ || kind == "text"@
}

pub fn is_inline(kind: &str) -> (r: bool)
    ensures
        r == inline_label(kind@),
{
    str_eq(kind, "code-span") || str_eq(kind, "link") || str_eq(kind, "image") || str_eq(
        kind,
        "strong",
    ) || str_eq(kind, "emph") || str_eq(kind, "strike") || str_eq(kind, "html-inline") || str_eq(
        kind,
        "text",
    )
}

// ---------------------------------------------------------------------------
// Flat navigation units
// ---------------------------------------------------------------------------

pub open spec fn unit(kind: &'static str, span: Span, level: usize) -> Block {
    Block { id: 0, kind, span, level }
}

/// The end of `line`.
pub open spec fn end_of(lines: Seq<Seq<char>>, line: int) -> Pos {
    Pos { line: line as usize, col: last_col(lines, line) as usize }
}

/// One level further down.
pub open spec fn deeper(depth: usize) -> usize {
    if depth < usize::MAX {
        (depth + 1) as usize
    } else {
        depth
    }
}

/// Row `j` of a table that spans `whole`, stretched over the lines below it that belong to no row:
/// up to the next row, or to the end of the table. The delimiter row is such a line.
pub open spec fn row_span(rows: Seq<MdTree>, j: int, whole: Span, lines: Seq<Seq<char>>) -> Span {
    let own = bounded(rows[j].node.at, lines);
    if j + 1 < rows.len() {
        let next = bounded(rows[j + 1].node.at, lines).start.line;
        if next > own.end.line + 1 {
            Span { start: own.start, end: end_of(lines, next - 1) }
        } else {
            own
        }
    } else if whole.end.line > own.end.line {
        Span { start: own.start, end: end_of(lines, whole.end.line as int) }
    } else {
        own
    }
}

/// The units of a table: its rows.
pub open spec fn row_units(rows: Seq<MdTree>, whole: Span, lines: Seq<Seq<char>>) -> Seq<Block> {
    Seq::new(rows.len(), |j: int| unit("table-row", row_span(rows, j, whole, lines), 0))
}

/// Index of the first sublist at or after `i`, the number of children where there is none.
pub open spec fn sublist(kids: Seq<MdTree>, i: int) -> int
    decreases kids.len() - i,
{
    if i < 0 || i >= kids.len() {
        kids.len() as int
    } else if holds_items(kids[i].node.name@) {
        i
    } else {
        sublist(kids, i + 1)
    }
}

/// A list item's own lines: all of it, or up to the line its first sublist starts on.
pub open spec fn item_span(t: MdTree, lines: Seq<Seq<char>>) -> Span {
    let own = bounded(t.node.at, lines);
    let k = sublist(t.kids, 0);
    if 0 <= k < t.kids.len() {
        let above = bounded(t.kids[k].node.at, lines).start.line - 1;
        let l = if above >= own.start.line {
            above
        } else {
            own.start.line as int
        };
        Span { start: own.start, end: end_of(lines, l) }
    } else {
        own
    }
}

/// The units of the first `n` of `kids`.
pub open spec fn flat(kids: Seq<MdTree>, n: int, lines: Seq<Seq<char>>, depth: usize) -> Seq<Block>
    decreases kids, n,
{
    if n <= 0 || n > kids.len() {
        Seq::empty()
    } else {
        flat(kids, n - 1, lines, depth) + flat_child(kids[n - 1], lines, depth)
    }
}

/// The units of one child. Lists, block quotes and footnotes are gone through, a table counts by
/// row, an item is trimmed to the lines above its sublist and followed by what the trimming left.
pub open spec fn flat_child(t: MdTree, lines: Seq<Seq<char>>, depth: usize) -> Seq<Block>
    decreases t, 0int,
{
    let name = t.node.name@;
    let span = bounded(t.node.at, lines);
    if holds_items(name) || name == "block_quote"@ || name == "footnote_definition"@ {
        flat(t.kids, t.kids.len() as int, lines, depth)
    } else if name == "table"@ {
        row_units(t.kids, span, lines)
    } else if name == "item"@ || name == "taskitem"@ {
        seq![unit("list-item", item_span(t, lines), depth)] + flat_rest(
            t.kids,
            t.kids.len() as int,
            item_span(t, lines).end.line as int,
            lines,
            depth,
        )
    } else {
        match label(name) {
            Some(kind) => seq![
                unit(
                    kind,
                    span,
                    if name == "heading"@ {
                        t.node.level
                    } else {
                        0
                    },
                ),
            ],
            None => Seq::empty(),
        }
    }
}

/// The units of the first `n` children of a list item whose own lines end at `end`.
pub open spec fn flat_rest(
    kids: Seq<MdTree>,
    n: int,
    end: int,
    lines: Seq<Seq<char>>,
    depth: usize,
) -> Seq<Block>
    decreases kids, n,
{
    if n <= 0 || n > kids.len() {
        Seq::empty()
    } else {
        let t = kids[n - 1];
        flat_rest(kids, n - 1, end, lines, depth) + if holds_items(t.node.name@) {
            flat(t.kids, t.kids.len() as int, lines, deeper(depth))
        } else if bounded(t.node.at, lines).start.line > end {
            flat_child(t, lines, depth)
        } else {
            Seq::empty()
        }
    }
}

fn walk_flat(kids: &Vec<Md>, lines: &Vec<&str>, depth: usize, out: &mut Vec<Block>)
    ensures
        final(out)@ == old(out)@ + flat(shapes(kids@), kids@.len() as int, slices(lines@), depth),
    decreases kids, 0int,
{
    let ghost ks = shapes(kids@);
    let ghost ls = slices(lines@);
    let ghost start = out@;
    let mut i: usize = 0;
    while i < kids.len()
        invariant
            i <= kids@.len(),
            ks == shapes(kids@),
            ls == slices(lines@),
            out@ =~= start + flat(ks, i as int, ls, depth),
        decreases kids@.len() - i,
    {
        proof {
            assert(ks[i as int] == kids@[i as int].shape());
        }
        walk_child(&kids[i], lines, depth, out);
        i += 1;
    }
}

fn walk_rows(rows: &Vec<Md>, whole: Span, lines: &Vec<&str>, out: &mut Vec<Block>)
    ensures
        final(out)@ == old(out)@ + row_units(shapes(rows@), whole, slices(lines@)),
{
    let ghost rs = shapes(rows@);
    let ghost ls = slices(lines@);
    let ghost start = out@;
    let ghost all = row_units(rs, whole, ls);
    let mut j: usize = 0;
    while j < rows.len()
        invariant
            j <= rows@.len(),
            rs == shapes(rows@),
            ls == slices(lines@),
            all == row_units(rs, whole, ls),
            out@ =~= start + all.take(j as int),
        decreases rows@.len() - j,
    {
        proof {
            assert(rs[j as int].node == rows@[j as int].node);
            assert(all.take(j + 1) =~= all.take(j as int).push(all[j as int]));
        }
        let own = norm(rows[j].node.at, lines);
        let mut end = own.end;
        if j + 1 < rows.len() {
            proof {
                assert(rs[j + 1].node == rows@[j + 1].node);
            }
            let next: usize = norm(rows[j + 1].node.at, lines).start.line;
            if next - 1 > own.end.line {
                end = Pos::new(next - 1, end_col(lines, next - 1));
            }
        } else if whole.end.line > own.end.line {
            end = Pos::new(whole.end.line, end_col(lines, whole.end.line));
        }
        push(out, "table-row", Span { start: own.start, end }, 0);
        j += 1;
    }
    proof {
        assert(all.take(j as int) =~= all);
    }
}

fn walk_item(child: &Md, lines: &Vec<&str>) -> (r: Span)
    ensures
        r == item_span(child.shape(), slices(lines@)),
{
    let ghost ls = slices(lines@);
    let ghost ks = child.shape().kids;
    let own = norm(child.node.at, lines);
    let mut i: usize = 0;
    proof {
        assert forall|j: int| 0 <= j < ks.len() implies (#[trigger] ks[j]).node
            == child.kids@[j].node by {
            assert(ks[j] == child.kids@[j].shape());
        }
    }
    while i < child.kids.len() && !is_list(child.kids[i].node.name)
        invariant
            i <= child.kids@.len(),
            ks.len() == child.kids@.len(),
            forall|j: int| 0 <= j < ks.len() ==> (#[trigger] ks[j]).node == child.kids@[j].node,
            sublist(ks, i as int) == sublist(ks, 0),
        decreases child.kids@.len() - i,
    {
        i += 1;
    }
    if i < child.kids.len() {
        let at: usize = norm(child.kids[i].node.at, lines).start.line;
        let l: usize = if at - 1 >= own.start.line {
            at - 1
        } else {
            own.start.line
        };
        Span { start: own.start, end: Pos::new(l, end_col(lines, l)) }
    } else {
        own
    }
}

/// One child of a container, as navigation units.
fn walk_child(child: &Md, lines: &Vec<&str>, depth: usize, out: &mut Vec<Block>)
    ensures
        final(out)@ == old(out)@ + flat_child(child.shape(), slices(lines@), depth),
    decreases child, 0int,
{
    let ghost start = out@;
    let ghost t = child.shape();
    let ghost ls = slices(lines@);
    let node = child.node;
    let span = norm(node.at, lines);
    proof {
        assert(t.kids =~= shapes(child.kids@));
    }
    if is_list(node.name) || str_eq(node.name, "block_quote") || str_eq(
        node.name,
        "footnote_definition",
    ) {
        walk_flat(&child.kids, lines, depth, out);
        return;
    }
    if str_eq(node.name, "table") {
        walk_rows(&child.kids, span, lines, out);
        return;
    }
    if str_eq(node.name, "item") || str_eq(node.name, "taskitem") {
        let s = walk_item(child, lines);
        push(out, "list-item", s, depth);
        let ghost mid = out@;
        let down: usize = if depth < usize::MAX {
            depth + 1
        } else {
            depth
        };
        let mut i: usize = 0;
        while i < child.kids.len()
            invariant
                i <= child.kids@.len(),
                t == child.shape(),
                t.kids == shapes(child.kids@),
                ls == slices(lines@),
                down == deeper(depth),
                out@ =~= mid + flat_rest(t.kids, i as int, s.end.line as int, ls, depth),
            decreases child.kids@.len() - i,
        {
            let kid = &child.kids[i];
            proof {
                assert(t.kids[i as int] == kid.shape());
                assert(kid.shape().kids =~= shapes(kid.kids@));
            }
            if is_list(kid.node.name) {
                walk_flat(&kid.kids, lines, down, out);
            } else if norm(kid.node.at, lines).start.line > s.end.line {
                walk_child(kid, lines, depth, out);
            }
            i += 1;
        }
        proof {
            assert(out@ =~= start + flat_child(t, ls, depth));
        }
        return;
    }
    if let Some(kind) = kind_of(node.name) {
        let level: usize = if str_eq(node.name, "heading") {
            node.level
        } else {
            0
        };
        push(out, kind, span, level);
    }
    proof {
        assert(out@ =~= start + flat_child(t, ls, depth));
    }
}

fn push(out: &mut Vec<Block>, kind: &'static str, span: Span, level: usize)
    ensures
        final(out)@ == old(out)@.push(unit(kind, span, level)),
{
    out.push(Block { id: 0, kind, span, level });
}

/// Order of units: where they start, then where they end.
pub open spec fn block_le() -> spec_fn(Block, Block) -> bool {
    |a: Block, b: Block|
        a.span.start.lt(b.span.start) || (a.span.start == b.span.start && a.span.end.le(b.span.end))
}

/// Units with their places in the list as ids.
pub open spec fn numbered(s: Seq<Block>) -> Seq<Block> {
    Seq::new(s.len(), |i: int| Block { id: i as usize, ..s[i] })
}

/// The navigation units of a document.
pub open spec fn units(kids: Seq<MdTree>, lines: Seq<Seq<char>>) -> Seq<Block> {
    numbered(sort_by(flat(kids, kids.len() as int, lines, 0), block_le()))
}

fn sort_blocks(v: Vec<Block>) -> (r: Vec<Block>)
    ensures
        r@ == sort_by(v@, block_le()),
{
    let mut out: Vec<Block> = Vec::new();
    let mut n: usize = 0;
    proof {
        assert(v@.take(0) =~= Seq::<Block>::empty());
        assert(out@ =~= sort_by(v@.take(0), block_le()));
    }
    while n < v.len()
        invariant
            n <= v@.len(),
            out@.len() == n,
            out@ == sort_by(v@.take(n as int), block_le()),
        decreases v@.len() - n,
    {
        let x = v[n];
        let mut i: usize = n;
        while i > 0 && !(out[i - 1].span.start.before(x.span.start) || (out[i - 1].span.start
            == x.span.start && out[i - 1].span.end.at_or_before(x.span.end)))
            invariant
                i <= n,
                out@.len() == n,
                forall|j: int| i <= j < n ==> !(block_le())(#[trigger] out@[j], x),
            decreases i,
        {
            i -= 1;
        }
        proof {
            lemma_insert_at(out@, x, block_le(), i as int);
            assert(v@.take(n + 1).drop_last() =~= v@.take(n as int));
        }
        out.insert(i, x);
        n += 1;
    }
    proof {
        assert(v@.take(n as int) =~= v@);
    }
    out
}

/// The navigation units of a parsed document.
pub fn units_of(kids: &Vec<Md>, lines: &Vec<&str>) -> (r: Vec<Block>)
    ensures
        r@ == units(shapes(kids@), slices(lines@)),
{
    let mut flat_units: Vec<Block> = Vec::new();
    walk_flat(kids, lines, 0, &mut flat_units);
    proof {
        let ks = shapes(kids@);
        assert(flat_units@ =~= flat(ks, ks.len() as int, slices(lines@), 0));
    }
    let sorted = sort_blocks(flat_units);
    let mut out: Vec<Block> = Vec::new();
    let mut i: usize = 0;
    while i < sorted.len()
        invariant
            i <= sorted@.len(),
            out@ =~= numbered(sorted@).take(i as int),
        decreases sorted@.len() - i,
    {
        let b = sorted[i];
        out.push(Block { id: i, kind: b.kind, span: b.span, level: b.level });
        i += 1;
    }
    proof {
        assert(numbered(sorted@).take(i as int) =~= numbered(sorted@));
    }
    out
}

/// The flat list of navigation units, ordered by position, ids renumbered.
pub fn parse(src: &str) -> (r: Vec<Block>)
    ensures
        r@ == units(document(comrak_nodes(src@, extensions())), lines_of(src@)),
{
    let lines = source_lines(src);
    units_of(&read(src), &lines)
}

/// The units of any document are in document order, and each one's id is its place in the list.
pub proof fn law_units_are_ordered(kids: Seq<MdTree>, lines: Seq<Seq<char>>)
    ensures
        ordered(units(kids, lines), block_le()),
        forall|i: int| 0 <= i < units(kids, lines).len() && i <= usize::MAX ==> (#[trigger] units(kids, lines)[i]).id == i,
{
    let f = flat(kids, kids.len() as int, lines, 0);
    let s = sort_by(f, block_le());
    law_sort_orders_the_same_items(f, block_le());
    assert forall|i: int, j: int| 0 <= i < j < units(kids, lines).len() implies (block_le())(
        #[trigger] units(kids, lines)[i],
        #[trigger] units(kids, lines)[j],
    ) by {
        assert((block_le())(s[i], s[j]));
    }
}

/// The unit starts in the file, does not end above its start and does not run past the file.
pub open spec fn on_file(b: Block, total: int) -> bool {
    1 <= b.span.start.line <= b.span.end.line <= total && b.span.start.col >= 1
}

pub open spec fn all_on_file(s: Seq<Block>, total: int) -> bool {
    forall|i: int| 0 <= i < s.len() ==> on_file(#[trigger] s[i], total)
}

proof fn lemma_on_file_concat(a: Seq<Block>, b: Seq<Block>, total: int)
    requires
        all_on_file(a, total),
        all_on_file(b, total),
    ensures
        all_on_file(a + b, total),
{
    let r = a + b;
    assert forall|i: int| 0 <= i < r.len() implies on_file(#[trigger] r[i], total) by {
        if i < a.len() {
            assert(r[i] == a[i]);
        } else {
            assert(r[i] == b[i - a.len()]);
        }
    }
}

proof fn lemma_bounded_in_file(at: Span, lines: Seq<Seq<char>>)
    requires
        lines.len() <= usize::MAX,
    ensures
        1 <= bounded(at, lines).start.line <= bounded(at, lines).end.line <= line_total(lines),
        bounded(at, lines).start.col >= 1,
{
}

proof fn lemma_flat_in_file(kids: Seq<MdTree>, n: int, lines: Seq<Seq<char>>, depth: usize)
    requires
        lines.len() <= usize::MAX,
    ensures
        all_on_file(flat(kids, n, lines, depth), line_total(lines)),
    decreases kids, n,
{
    if 0 < n <= kids.len() {
        lemma_flat_in_file(kids, n - 1, lines, depth);
        lemma_flat_child_in_file(kids[n - 1], lines, depth);
        lemma_on_file_concat(
            flat(kids, n - 1, lines, depth),
            flat_child(kids[n - 1], lines, depth),
            line_total(lines),
        );
    }
}

proof fn lemma_flat_child_in_file(t: MdTree, lines: Seq<Seq<char>>, depth: usize)
    requires
        lines.len() <= usize::MAX,
    ensures
        all_on_file(flat_child(t, lines, depth), line_total(lines)),
    decreases t, 0int,
{
    let name = t.node.name@;
    let span = bounded(t.node.at, lines);
    let total = line_total(lines);
    lemma_bounded_in_file(t.node.at, lines);
    if holds_items(name) || name == "block_quote"@ || name == "footnote_definition"@ {
        lemma_flat_in_file(t.kids, t.kids.len() as int, lines, depth);
    } else if name == "table"@ {
        let r = row_units(t.kids, span, lines);
        assert forall|j: int| 0 <= j < r.len() implies on_file(#[trigger] r[j], total) by {
            lemma_bounded_in_file(t.kids[j].node.at, lines);
            if j + 1 < t.kids.len() {
                lemma_bounded_in_file(t.kids[j + 1].node.at, lines);
            }
        }
    } else if name == "item"@ || name == "taskitem"@ {
        let k = sublist(t.kids, 0);
        if 0 <= k < t.kids.len() {
            lemma_bounded_in_file(t.kids[k].node.at, lines);
        }
        let own = seq![unit("list-item", item_span(t, lines), depth)];
        let end = item_span(t, lines).end.line as int;
        lemma_flat_rest_in_file(t.kids, t.kids.len() as int, end, lines, depth);
        lemma_on_file_concat(
            own,
            flat_rest(t.kids, t.kids.len() as int, end, lines, depth),
            total,
        );
    }
}

proof fn lemma_flat_rest_in_file(
    kids: Seq<MdTree>,
    n: int,
    end: int,
    lines: Seq<Seq<char>>,
    depth: usize,
)
    requires
        lines.len() <= usize::MAX,
    ensures
        all_on_file(flat_rest(kids, n, end, lines, depth), line_total(lines)),
    decreases kids, n,
{
    if 0 < n <= kids.len() {
        let t = kids[n - 1];
        let before = flat_rest(kids, n - 1, end, lines, depth);
        lemma_flat_rest_in_file(kids, n - 1, end, lines, depth);
        lemma_flat_in_file(t.kids, t.kids.len() as int, lines, deeper(depth));
        lemma_flat_child_in_file(t, lines, depth);
        let more = if holds_items(t.node.name@) {
            flat(t.kids, t.kids.len() as int, lines, deeper(depth))
        } else if bounded(t.node.at, lines).start.line > end {
            flat_child(t, lines, depth)
        } else {
            Seq::empty()
        };
        lemma_on_file_concat(before, more, line_total(lines));
    }
}

/// Every unit of a document starts on a line of the file and ends at or below it, still in the
/// file.
pub proof fn law_units_lie_in_the_file(kids: Seq<MdTree>, lines: Seq<Seq<char>>)
    requires
        lines.len() <= usize::MAX,
    ensures
        all_on_file(units(kids, lines), line_total(lines)),
{
    broadcast use vstd::seq_lib::group_to_multiset_ensures;

    let total = line_total(lines);
    let f = flat(kids, kids.len() as int, lines, 0);
    let s = sort_by(f, block_le());
    let u = units(kids, lines);
    lemma_flat_in_file(kids, kids.len() as int, lines, 0);
    law_sort_orders_the_same_items(f, block_le());
    assert forall|i: int| 0 <= i < u.len() implies on_file(#[trigger] u[i], total) by {
        assert(s.contains(s[i]));
        assert(s.to_multiset().count(s[i]) > 0);
        assert(f.contains(s[i]));
        let k = choose|k: int| 0 <= k < f.len() && f[k] == s[i];
        assert(on_file(f[k], total));
    }
}

// ---------------------------------------------------------------------------
// What the units of a document are
// ---------------------------------------------------------------------------

pub open spec fn is_list_name(name: Seq<char>) -> bool {
    name == "list"@ || name == "description_list"@
}

pub open spec fn is_item_name(name: Seq<char>) -> bool {
    name == "item"@ || name == "taskitem"@
}

/// A node that is gone through and is no unit itself.
pub open spec fn is_passage_name(name: Seq<char>) -> bool {
    is_list_name(name) || name == "block_quote"@ || name == "footnote_definition"@
}

/// The label of a block that is a unit whole, `None` of any other node.
pub open spec fn whole_unit_label(name: Seq<char>) -> Option<Seq<char>> {
    if name == "paragraph"@ || name == "heading"@ {
        Some(name)
    } else if name == "code_block"@ {
        Some("code"@)
    } else if name == "html_block"@ {
        Some("html"@)
    } else if name == "thematic_break"@ {
        Some("hr"@)
    } else {
        None
    }
}

/// None of the children is a list.
pub open spec fn no_sublist(t: MdTree) -> bool {
    forall|i: int| 0 <= i < t.kids.len() ==> !is_list_name((#[trigger] t.kids[i]).node.name@)
}

/// Child `k` is a list, and the first that is one.
pub open spec fn first_sublist(t: MdTree, k: int) -> bool {
    &&& 0 <= k < t.kids.len()
    &&& is_list_name(t.kids[k].node.name@)
    &&& forall|i: int| 0 <= i < k ==> !is_list_name((#[trigger] t.kids[i]).node.name@)
}

/// `x` is one of `kids`, or stands below one of them that is gone through, or below a list of one
/// that is an item; `d` items hold it.
pub open spec fn reached(kids: Seq<MdTree>, x: MdTree, d: int) -> bool
    decreases kids,
{
    exists|i: int|
        0 <= i < kids.len() && reached_at(#[trigger] kids[i], x, d)
}

pub open spec fn reached_at(t: MdTree, x: MdTree, d: int) -> bool
    decreases t,
{
    d >= 0 && {
        ||| (t == x && d == 0)
        ||| (is_passage_name(t.node.name@) && reached(t.kids, x, d))
        ||| (is_item_name(t.node.name@) && exists|j: int|
            0 <= j < t.kids.len() && is_list_name((#[trigger] t.kids[j]).node.name@) && reached(
                t.kids[j].kids,
                x,
                d - 1,
            ))
    }
}

/// One of the units has this label, span and level.
pub open spec fn has_unit(s: Seq<Block>, kind: Seq<char>, span: Span, level: int) -> bool {
    exists|i: int|
        0 <= i < s.len() && (#[trigger] s[i]).kind@ == kind && s[i].span == span && s[i].level
            == level
}

/// The unit that a node which is one, or holds one in row `j`, gives. Nothing is said of a node that
/// is no unit.
pub open spec fn gives_its_unit(s: Seq<Block>, x: MdTree, d: int, lines: Seq<Seq<char>>) -> bool {
    let name = x.node.name@;
    let own = bounded(x.node.at, lines);
    &&& whole_unit_label(name) matches Some(kind) ==> has_unit(
        s,
        kind,
        own,
        if name == "heading"@ {
            x.node.level as int
        } else {
            0
        },
    )
    &&& is_item_name(name) && no_sublist(x) ==> has_unit(s, "list-item"@, own, d)
    &&& forall|k: int| is_item_name(name) && #[trigger] first_sublist(x, k) ==> {
        let below = bounded(x.kids[k].node.at, lines).start.line as int;
        let last = if below > own.start.line {
            below - 1
        } else {
            own.start.line as int
        };
        has_unit(s, "list-item"@, Span { start: own.start, end: end_of(lines, last) }, d)
    }
    &&& forall|j: int| name == "table"@ && 0 <= j < x.kids.len() ==> {
        let row = bounded((#[trigger] x.kids[j]).node.at, lines);
        let last = if j + 1 < x.kids.len() {
            bounded(x.kids[j + 1].node.at, lines).start.line - 1
        } else {
            own.end.line as int
        };
        has_unit(
            s,
            "table-row"@,
            if last > row.end.line {
                Span { start: row.start, end: end_of(lines, last) }
            } else {
                row
            },
            0,
        )
    }
}

proof fn lemma_has_unit_more(a: Seq<Block>, b: Seq<Block>, kind: Seq<char>, span: Span, level: int)
    requires
        has_unit(a, kind, span, level) || has_unit(b, kind, span, level),
    ensures
        has_unit(a + b, kind, span, level),
{
    if has_unit(a, kind, span, level) {
        let i = choose|i: int|
            0 <= i < a.len() && (#[trigger] a[i]).kind@ == kind && a[i].span == span && a[i].level
                == level;
        assert((a + b)[i] == a[i]);
    } else {
        let i = choose|i: int|
            0 <= i < b.len() && (#[trigger] b[i]).kind@ == kind && b[i].span == span && b[i].level
                == level;
        assert((a + b)[a.len() + i] == b[i]);
    }
}

proof fn lemma_gives_kept(
    a: Seq<Block>,
    c: Seq<Block>,
    x: MdTree,
    d: int,
    lines: Seq<Seq<char>>,
)
    requires
        gives_its_unit(a, x, d, lines),
        forall|kind: Seq<char>, span: Span, level: int|
            has_unit(a, kind, span, level) ==> #[trigger] has_unit(c, kind, span, level),
    ensures
        gives_its_unit(c, x, d, lines),
{
    let name = x.node.name@;
    let own = bounded(x.node.at, lines);
    assert forall|k: int| is_item_name(name) && #[trigger] first_sublist(x, k) implies {
        let below = bounded(x.kids[k].node.at, lines).start.line as int;
        let last = if below > own.start.line {
            below - 1
        } else {
            own.start.line as int
        };
        has_unit(c, "list-item"@, Span { start: own.start, end: end_of(lines, last) }, d)
    } by {
        let below = bounded(x.kids[k].node.at, lines).start.line as int;
        let last = if below > own.start.line {
            below - 1
        } else {
            own.start.line as int
        };
        let span = Span { start: own.start, end: end_of(lines, last) };
        assert(has_unit(a, "list-item"@, span, d));
        assert(has_unit(c, "list-item"@, span, d));
    }
}

#[verifier::opaque]
spec fn gives(s: Seq<Block>, x: MdTree, d: int, lines: Seq<Seq<char>>) -> bool {
    gives_its_unit(s, x, d, lines)
}

/// More units keep what a node gives.
proof fn lemma_gives_more(
    a: Seq<Block>,
    b: Seq<Block>,
    x: MdTree,
    d: int,
    lines: Seq<Seq<char>>,
)
    requires
        gives(a, x, d, lines) || gives(b, x, d, lines),
    ensures
        gives(a + b, x, d, lines),
{
    reveal(gives);
    let c = if gives(a, x, d, lines) {
        a
    } else {
        b
    };
    assert forall|kind: Seq<char>, span: Span, level: int| has_unit(c, kind, span, level) implies
        #[trigger] has_unit(a + b, kind, span, level) by {
        lemma_has_unit_more(a, b, kind, span, level);
    }
    lemma_gives_kept(c, a + b, x, d, lines);
}

proof fn lemma_names()
    ensures
        forall|n: Seq<char>| #[trigger] whole_unit_label(n) is Some ==> !is_passage_name(n)
            && !is_item_name(n) && n != "table"@ && (label(n) matches Some(k) && Some(k@)
            == whole_unit_label(n)),
        forall|n: Seq<char>| #[trigger] is_item_name(n) ==> !is_passage_name(n) && n != "table"@,
        !is_passage_name("table"@),
        !is_item_name("table"@),
        whole_unit_label("table"@) is None,
        forall|n: Seq<char>| #[trigger] holds_items(n) == is_list_name(n),
{
    reveal_strlit("list");
    reveal_strlit("description_list");
    reveal_strlit("block_quote");
    reveal_strlit("footnote_definition");
    reveal_strlit("table");
    reveal_strlit("item");
    reveal_strlit("taskitem");
    reveal_strlit("paragraph");
    reveal_strlit("heading");
    reveal_strlit("code_block");
    reveal_strlit("html_block");
    reveal_strlit("thematic_break");
    assert("list"@.len() == 4 && "description_list"@.len() == 16 && "block_quote"@.len() == 11);
    assert("footnote_definition"@.len() == 19 && "table"@.len() == 5 && "item"@.len() == 4);
    assert("taskitem"@.len() == 8 && "paragraph"@.len() == 9 && "heading"@.len() == 7);
    assert("code_block"@.len() == 10 && "html_block"@.len() == 10);
    assert("thematic_break"@.len() == 14);
    assert("list"@[0] == 'l' && "item"@[0] == 'i');
    assert("code_block"@[0] == 'c' && "html_block"@[0] == 'h');
}

proof fn lemma_sublist(kids: Seq<MdTree>, i: int, k: int)
    requires
        0 <= i <= k <= kids.len(),
        forall|j: int| i <= j < k ==> !is_list_name((#[trigger] kids[j]).node.name@),
        k < kids.len() ==> is_list_name(kids[k].node.name@),
    ensures
        sublist(kids, i) == k,
    decreases k - i,
{
    lemma_names();
    if i < k {
        assert(!is_list_name(kids[i].node.name@));
        assert(holds_items(kids[i].node.name@) == is_list_name(kids[i].node.name@));
        lemma_sublist(kids, i + 1, k);
    } else if k < kids.len() {
        assert(holds_items(kids[k].node.name@) == is_list_name(kids[k].node.name@));
    }
}

proof fn lemma_own_unit(x: MdTree, lines: Seq<Seq<char>>, depth: usize)
    requires
        lines.len() <= usize::MAX,
    ensures
        gives(flat_child(x, lines, depth), x, depth as int, lines),
{
    reveal(gives);
    lemma_names();
    let name = x.node.name@;
    let own = bounded(x.node.at, lines);
    let s = flat_child(x, lines, depth);
    assert(holds_items(name) == is_list_name(name));
    if whole_unit_label(name) is Some {
        assert(s.len() == 1);
        assert(s[0].span == own);
        assert(has_unit(
            s,
            whole_unit_label(name)->0,
            own,
            if name == "heading"@ {
                x.node.level as int
            } else {
                0
            },
        ));
    }
    if is_item_name(name) {
        lemma_bounded_in_file(x.node.at, lines);
        assert(s[0] == unit("list-item", item_span(x, lines), depth));
        if no_sublist(x) {
            lemma_sublist(x.kids, 0, x.kids.len() as int);
            assert(s[0].span == own);
        }
        assert forall|k: int| #[trigger] first_sublist(x, k) implies {
            let below = bounded(x.kids[k].node.at, lines).start.line as int;
            let last = if below > own.start.line {
                below - 1
            } else {
                own.start.line as int
            };
            has_unit(s, "list-item"@, Span { start: own.start, end: end_of(lines, last) }, depth as int)
        } by {
            lemma_sublist(x.kids, 0, k);
            lemma_bounded_in_file(x.kids[k].node.at, lines);
            let below = bounded(x.kids[k].node.at, lines).start.line as int;
            let last = if below > own.start.line {
                below - 1
            } else {
                own.start.line as int
            };
            assert(s[0].span == (Span { start: own.start, end: end_of(lines, last) }));
        }
    }
    if name == "table"@ {
        assert forall|j: int| 0 <= j < x.kids.len() implies {
            let row = bounded((#[trigger] x.kids[j]).node.at, lines);
            let last = if j + 1 < x.kids.len() {
                bounded(x.kids[j + 1].node.at, lines).start.line - 1
            } else {
                own.end.line as int
            };
            has_unit(
                s,
                "table-row"@,
                if last > row.end.line {
                    Span { start: row.start, end: end_of(lines, last) }
                } else {
                    row
                },
                0,
            )
        } by {
            assert(s[j] == unit("table-row", row_span(x.kids, j, own, lines), 0));
        }
    }
}

proof fn lemma_flat_reaches(
    kids: Seq<MdTree>,
    n: int,
    lines: Seq<Seq<char>>,
    depth: usize,
    i: int,
    x: MdTree,
    d: int,
)
    requires
        lines.len() <= usize::MAX,
        0 <= i < n <= kids.len(),
        reached_at(kids[i], x, d),
        depth + d <= usize::MAX,
    ensures
        gives(flat(kids, n, lines, depth), x, depth + d, lines),
    decreases kids, n,
{
    if i < n - 1 {
        lemma_flat_reaches(kids, n - 1, lines, depth, i, x, d);
    } else {
        lemma_child_reaches(kids[i], lines, depth, x, d);
    }
    lemma_gives_more(
        flat(kids, n - 1, lines, depth),
        flat_child(kids[n - 1], lines, depth),
        x,
        depth + d,
        lines,
    );
}

proof fn lemma_child_reaches(t: MdTree, lines: Seq<Seq<char>>, depth: usize, x: MdTree, d: int)
    requires
        lines.len() <= usize::MAX,
        reached_at(t, x, d),
        depth + d <= usize::MAX,
    ensures
        gives(flat_child(t, lines, depth), x, depth + d, lines),
    decreases t, 0int,
{
    lemma_names();
    let name = t.node.name@;
    assert(holds_items(name) == is_list_name(name));
    if t == x && d == 0 {
        lemma_own_unit(x, lines, depth);
    } else if is_passage_name(name) && reached(t.kids, x, d) {
        let i = choose|i: int| 0 <= i < t.kids.len() && reached_at(#[trigger] t.kids[i], x, d);
        lemma_flat_reaches(t.kids, t.kids.len() as int, lines, depth, i, x, d);
    } else {
        let j = choose|j: int|
            0 <= j < t.kids.len() && is_list_name((#[trigger] t.kids[j]).node.name@) && reached(
                t.kids[j].kids,
                x,
                d - 1,
            );
        let end = item_span(t, lines).end.line as int;
        lemma_rest_reaches(t.kids, t.kids.len() as int, end, lines, depth, j, x, d - 1);
        lemma_gives_more(
            seq![unit("list-item", item_span(t, lines), depth)],
            flat_rest(t.kids, t.kids.len() as int, end, lines, depth),
            x,
            depth + d,
            lines,
        );
    }
}

proof fn lemma_rest_reaches(
    kids: Seq<MdTree>,
    n: int,
    end: int,
    lines: Seq<Seq<char>>,
    depth: usize,
    j: int,
    x: MdTree,
    d: int,
)
    requires
        lines.len() <= usize::MAX,
        0 <= j < n <= kids.len(),
        is_list_name(kids[j].node.name@),
        reached(kids[j].kids, x, d),
        depth + 1 + d <= usize::MAX,
    ensures
        gives(flat_rest(kids, n, end, lines, depth), x, depth + 1 + d, lines),
    decreases kids, n,
{
    lemma_names();
    let t = kids[n - 1];
    assert(holds_items(t.node.name@) == is_list_name(t.node.name@));
    let before = flat_rest(kids, n - 1, end, lines, depth);
    let more = if holds_items(t.node.name@) {
        flat(t.kids, t.kids.len() as int, lines, deeper(depth))
    } else if bounded(t.node.at, lines).start.line > end {
        flat_child(t, lines, depth)
    } else {
        Seq::empty()
    };
    if j < n - 1 {
        lemma_rest_reaches(kids, n - 1, end, lines, depth, j, x, d);
    } else {
        let i = choose|i: int| 0 <= i < t.kids.len() && reached_at(#[trigger] t.kids[i], x, d);
        assert(reached_at(t.kids[i], x, d) ==> d >= 0);
        lemma_flat_reaches(t.kids, t.kids.len() as int, lines, deeper(depth), i, x, d);
    }
    lemma_gives_more(before, more, x, depth + 1 + d, lines);
}

/// Where unit `i` of the walk stands among the units of the document.
proof fn lemma_unit_of_walk(kids: Seq<MdTree>, lines: Seq<Seq<char>>, i: int) -> (j: int)
    requires
        0 <= i < flat(kids, kids.len() as int, lines, 0).len(),
    ensures
        0 <= j < units(kids, lines).len(),
        units(kids, lines)[j].kind == flat(kids, kids.len() as int, lines, 0)[i].kind,
        units(kids, lines)[j].span == flat(kids, kids.len() as int, lines, 0)[i].span,
        units(kids, lines)[j].level == flat(kids, kids.len() as int, lines, 0)[i].level,
{
    broadcast use vstd::seq_lib::group_to_multiset_ensures;

    let f = flat(kids, kids.len() as int, lines, 0);
    let s = sort_by(f, block_le());
    law_sort_orders_the_same_items(f, block_le());
    assert(f.contains(f[i]));
    assert(f.to_multiset().count(f[i]) > 0);
    assert(s.contains(f[i]));
    choose|j: int| 0 <= j < s.len() && s[j] == f[i]
}

/// Every block that is reached gives its unit, with its own label, lines and level. A paragraph, a
/// heading, a code block, an HTML block and a rule are units whole. A list item is one unit: all of
/// it where it holds no sublist, else the lines above the first one, its first line at least; its
/// level is the number of items that hold it. Each row of a table is one, down to the line before
/// the next row or to the end of the table.
pub proof fn law_every_block_gives_its_unit(
    kids: Seq<MdTree>,
    lines: Seq<Seq<char>>,
    x: MdTree,
    d: int,
)
    requires
        lines.len() <= usize::MAX,
        d <= usize::MAX,
        reached(kids, x, d),
    ensures
        gives_its_unit(units(kids, lines), x, d, lines),
{
    let f = flat(kids, kids.len() as int, lines, 0);
    let u = units(kids, lines);
    let i = choose|i: int| 0 <= i < kids.len() && reached_at(#[trigger] kids[i], x, d);
    lemma_flat_reaches(kids, kids.len() as int, lines, 0, i, x, d);
    assert forall|kind: Seq<char>, span: Span, level: int| has_unit(f, kind, span, level) implies
        #[trigger] has_unit(u, kind, span, level) by {
        let k = choose|k: int|
            0 <= k < f.len() && (#[trigger] f[k]).kind@ == kind && f[k].span == span && f[k].level
                == level;
        let j = lemma_unit_of_walk(kids, lines, k);
        assert(u[j].kind@ == kind);
    }
    reveal(gives);
    lemma_gives_kept(f, u, x, d, lines);
}

// ---- every line in one unit ----

/// The first line of a node.
pub open spec fn top(t: MdTree, lines: Seq<Seq<char>>) -> int {
    bounded(t.node.at, lines).start.line as int
}

/// The last line of a node.
pub open spec fn bottom(t: MdTree, lines: Seq<Seq<char>>) -> int {
    bounded(t.node.at, lines).end.line as int
}

/// `x` is one of `kids`, or stands below one of them that holds blocks.
pub open spec fn held(kids: Seq<MdTree>, x: MdTree) -> bool
    decreases kids,
{
    exists|i: int| 0 <= i < kids.len() && held_at(#[trigger] kids[i], x)
}

pub open spec fn held_at(t: MdTree, x: MdTree) -> bool
    decreases t,
{
    t == x || ((is_passage_name(t.node.name@) || is_item_name(t.node.name@)) && held(t.kids, x))
}

/// The blocks in a block stand one below the other on lines of it, and so on downwards; a table
/// starts with its first row.
pub open spec fn laid_out(t: MdTree, lines: Seq<Seq<char>>) -> bool
    decreases t,
{
    let name = t.node.name@;
    &&& is_passage_name(name) || is_item_name(name) || name == "table"@ ==> {
        &&& forall|i: int|
            0 <= i < t.kids.len() ==> top(t, lines) <= top(#[trigger] t.kids[i], lines) && bottom(
                t.kids[i],
                lines,
            ) <= bottom(t, lines)
        &&& forall|i: int, j: int|
            0 <= i < j < t.kids.len() ==> bottom(#[trigger] t.kids[i], lines) < top(
                #[trigger] t.kids[j],
                lines,
            )
    }
    &&& is_passage_name(name) || is_item_name(name) ==> forall|i: int|
        0 <= i < t.kids.len() ==> laid_out(#[trigger] t.kids[i], lines)
    &&& name == "table"@ ==> t.kids.len() > 0 && top(t.kids[0], lines) == top(t, lines)
}

/// The blocks of a document stand on lines of their own, in any order: a footnote is listed where
/// it is first referred to.
pub open spec fn document_laid_out(kids: Seq<MdTree>, lines: Seq<Seq<char>>) -> bool {
    &&& forall|i: int| 0 <= i < kids.len() ==> laid_out(#[trigger] kids[i], lines)
    &&& forall|i: int, j: int|
        0 <= i < kids.len() && 0 <= j < kids.len() && i != j ==> bottom(#[trigger] kids[i], lines) < top(
            #[trigger] kids[j],
            lines,
        ) || bottom(kids[j], lines) < top(kids[i], lines)
}

/// No list starts on the first line of the item it is in.
pub open spec fn sublists_below(t: MdTree, lines: Seq<Seq<char>>) -> bool
    decreases t,
{
    &&& is_item_name(t.node.name@) ==> forall|i: int|
        0 <= i < t.kids.len() && is_list_name((#[trigger] t.kids[i]).node.name@) ==> top(t, lines)
            < top(t.kids[i], lines)
    &&& forall|i: int| 0 <= i < t.kids.len() ==> sublists_below(#[trigger] t.kids[i], lines)
}

/// Line `l` is a line of one of the units.
pub open spec fn in_a_unit(s: Seq<Block>, l: int) -> bool {
    exists|i: int| 0 <= i < s.len() && (#[trigger] s[i]).span.start.line <= l <= s[i].span.end.line
}

/// A block that is read line by line: a unit whole, an item without a sublist, or a table.
pub open spec fn is_text_block(x: MdTree) -> bool {
    whole_unit_label(x.node.name@) is Some || (is_item_name(x.node.name@) && no_sublist(x))
        || x.node.name@ == "table"@
}

proof fn lemma_in_a_unit_more(a: Seq<Block>, b: Seq<Block>, l: int)
    requires
        in_a_unit(a, l) || in_a_unit(b, l),
    ensures
        in_a_unit(a + b, l),
{
    if in_a_unit(a, l) {
        let i = choose|i: int|
            0 <= i < a.len() && (#[trigger] a[i]).span.start.line <= l <= a[i].span.end.line;
        assert((a + b)[i] == a[i]);
    } else {
        let i = choose|i: int|
            0 <= i < b.len() && (#[trigger] b[i]).span.start.line <= l <= b[i].span.end.line;
        assert((a + b)[a.len() + i] == b[i]);
    }
}

/// What stands below a node is on its lines.
proof fn lemma_held_within(t: MdTree, x: MdTree, lines: Seq<Seq<char>>)
    requires
        laid_out(t, lines),
        held_at(t, x),
    ensures
        top(t, lines) <= top(x, lines),
        bottom(x, lines) <= bottom(t, lines),
    decreases t,
{
    if t != x {
        let i = choose|i: int| 0 <= i < t.kids.len() && held_at(#[trigger] t.kids[i], x);
        assert(laid_out(t.kids[i], lines));
        lemma_held_within(t.kids[i], x, lines);
    }
}

/// The rows of a table leave out none of its lines from the first row on.
proof fn lemma_rows_cover(rows: Seq<MdTree>, n: int, whole: Span, lines: Seq<Seq<char>>, l: int)
    requires
        lines.len() <= usize::MAX,
        0 < n <= rows.len(),
        top(rows[0], lines) <= l,
        n < rows.len() ==> l < top(rows[n], lines),
        n == rows.len() ==> l <= whole.end.line || l <= bottom(rows[n - 1], lines),
        whole.end.line <= line_total(lines),
    ensures
        in_a_unit(row_units(rows, whole, lines), l),
    decreases n,
{
    let u = row_units(rows, whole, lines);
    lemma_bounded_in_file(rows[n - 1].node.at, lines);
    if n < rows.len() {
        lemma_bounded_in_file(rows[n].node.at, lines);
    }
    if top(rows[n - 1], lines) <= l {
        assert(u[n - 1].span == row_span(rows, n - 1, whole, lines));
        assert(u[n - 1].span.start.line <= l <= u[n - 1].span.end.line);
    } else {
        lemma_rows_cover(rows, n - 1, whole, lines, l);
    }
}

proof fn lemma_flat_covers(
    kids: Seq<MdTree>,
    n: int,
    lines: Seq<Seq<char>>,
    depth: usize,
    i: int,
    x: MdTree,
    l: int,
)
    requires
        lines.len() <= usize::MAX,
        0 <= i < n <= kids.len(),
        laid_out(kids[i], lines),
        held_at(kids[i], x),
        is_text_block(x),
        top(x, lines) <= l <= bottom(x, lines),
    ensures
        in_a_unit(flat(kids, n, lines, depth), l),
    decreases kids, n,
{
    if i < n - 1 {
        lemma_flat_covers(kids, n - 1, lines, depth, i, x, l);
    } else {
        lemma_child_covers(kids[i], lines, depth, x, l);
    }
    lemma_in_a_unit_more(
        flat(kids, n - 1, lines, depth),
        flat_child(kids[n - 1], lines, depth),
        l,
    );
}

/// A line of an item that its own unit leaves out is in a unit of a child.
proof fn lemma_rest_covers(
    kids: Seq<MdTree>,
    n: int,
    end: int,
    lines: Seq<Seq<char>>,
    depth: usize,
    i: int,
    x: MdTree,
    l: int,
)
    requires
        lines.len() <= usize::MAX,
        0 <= i < n <= kids.len(),
        laid_out(kids[i], lines),
        held_at(kids[i], x),
        is_text_block(x),
        top(x, lines) <= l <= bottom(x, lines),
        is_list_name(kids[i].node.name@) || top(kids[i], lines) > end,
    ensures
        in_a_unit(flat_rest(kids, n, end, lines, depth), l),
    decreases kids, n,
{
    lemma_names();
    let t = kids[n - 1];
    assert(holds_items(t.node.name@) == is_list_name(t.node.name@));
    let before = flat_rest(kids, n - 1, end, lines, depth);
    let more = if holds_items(t.node.name@) {
        flat(t.kids, t.kids.len() as int, lines, deeper(depth))
    } else if bounded(t.node.at, lines).start.line > end {
        flat_child(t, lines, depth)
    } else {
        Seq::empty()
    };
    if i < n - 1 {
        lemma_rest_covers(kids, n - 1, end, lines, depth, i, x, l);
    } else if is_list_name(t.node.name@) {
        assert(t != x);
        let k = choose|k: int| 0 <= k < t.kids.len() && held_at(#[trigger] t.kids[k], x);
        assert(laid_out(t.kids[k], lines));
        lemma_flat_covers(t.kids, t.kids.len() as int, lines, deeper(depth), k, x, l);
    } else {
        lemma_child_covers(t, lines, depth, x, l);
    }
    lemma_in_a_unit_more(before, more, l);
}

proof fn lemma_child_covers(t: MdTree, lines: Seq<Seq<char>>, depth: usize, x: MdTree, l: int)
    requires
        lines.len() <= usize::MAX,
        laid_out(t, lines),
        held_at(t, x),
        is_text_block(x),
        top(x, lines) <= l <= bottom(x, lines),
    ensures
        in_a_unit(flat_child(t, lines, depth), l),
    decreases t, 0int,
{
    lemma_names();
    let name = t.node.name@;
    let own = bounded(t.node.at, lines);
    let s = flat_child(t, lines, depth);
    assert(holds_items(name) == is_list_name(name));
    lemma_bounded_in_file(t.node.at, lines);
    if is_item_name(name) {
        let end = item_span(t, lines).end.line as int;
        let first = seq![unit("list-item", item_span(t, lines), depth)];
        let rest = flat_rest(t.kids, t.kids.len() as int, end, lines, depth);
        assert(s == first + rest);
        lemma_held_within(t, x, lines);
        if l <= end {
            assert(first[0].span.start.line <= l <= first[0].span.end.line);
        } else {
            if no_sublist(t) {
                lemma_sublist(t.kids, 0, t.kids.len() as int);
                assert(false);
            }
            assert(t != x);
            let k = lemma_some_sublist(t.kids, 0);
            lemma_sublist(t.kids, 0, k);
            lemma_bounded_in_file(t.kids[k].node.at, lines);
            let i = choose|i: int| 0 <= i < t.kids.len() && held_at(#[trigger] t.kids[i], x);
            assert(laid_out(t.kids[i], lines));
            lemma_held_within(t.kids[i], x, lines);
            lemma_bounded_in_file(t.kids[i].node.at, lines);
            if !is_list_name(t.kids[i].node.name@) && top(t.kids[i], lines) <= end {
                if i < k {
                    assert(bottom(t.kids[i], lines) < top(t.kids[k], lines));
                } else {
                    assert(i != k);
                    assert(bottom(t.kids[k], lines) < top(t.kids[i], lines));
                }
                assert(false);
            }
            lemma_rest_covers(t.kids, t.kids.len() as int, end, lines, depth, i, x, l);
        }
        lemma_in_a_unit_more(first, rest, l);
    } else if is_passage_name(name) {
        assert(t != x);
        let i = choose|i: int| 0 <= i < t.kids.len() && held_at(#[trigger] t.kids[i], x);
        assert(laid_out(t.kids[i], lines));
        lemma_flat_covers(t.kids, t.kids.len() as int, lines, depth, i, x, l);
    } else if name == "table"@ {
        lemma_rows_cover(t.kids, t.kids.len() as int, own, lines, l);
    } else {
        assert(s[0].span == own);
    }
}

/// The first list among children that are not all something else.
proof fn lemma_some_sublist(kids: Seq<MdTree>, i: int) -> (k: int)
    requires
        0 <= i <= kids.len(),
        exists|j: int| i <= j < kids.len() && is_list_name((#[trigger] kids[j]).node.name@),
    ensures
        i <= k < kids.len(),
        is_list_name(kids[k].node.name@),
        forall|j: int| i <= j < k ==> !is_list_name((#[trigger] kids[j]).node.name@),
    decreases kids.len() - i,
{
    if is_list_name(kids[i].node.name@) {
        i
    } else {
        lemma_some_sublist(kids, i + 1)
    }
}

/// The units of a document leave out no line of its text. In a document whose blocks stand on lines
/// of their own, each line of each paragraph, heading, code block, HTML block, rule and table, and
/// each line of each list item that holds no sublist, is in a unit -- in whatever lists, items,
/// quotes and footnotes the block stands, before a sublist or behind it.
pub proof fn law_units_leave_out_no_line(
    kids: Seq<MdTree>,
    lines: Seq<Seq<char>>,
    x: MdTree,
    l: int,
)
    requires
        lines.len() <= usize::MAX,
        document_laid_out(kids, lines),
        held(kids, x),
        is_text_block(x),
        top(x, lines) <= l <= bottom(x, lines),
    ensures
        in_a_unit(units(kids, lines), l),
{
    let f = flat(kids, kids.len() as int, lines, 0);
    let u = units(kids, lines);
    let i = choose|i: int| 0 <= i < kids.len() && held_at(#[trigger] kids[i], x);
    lemma_flat_covers(kids, kids.len() as int, lines, 0, i, x, l);
    let k = choose|k: int|
        0 <= k < f.len() && (#[trigger] f[k]).span.start.line <= l <= f[k].span.end.line;
    let j = lemma_unit_of_walk(kids, lines, k);
    assert(u[j].span.start.line <= l <= u[j].span.end.line);
}

// ---- no line in two units ----

/// Two units share no line.
pub open spec fn share_no_line(a: Block, b: Block) -> bool {
    a.span.end.line < b.span.start.line || b.span.end.line < a.span.start.line
}

spec fn no_shared_line(s: Seq<Block>) -> bool {
    forall|i: int, j: int|
        0 <= i < j < s.len() ==> share_no_line(#[trigger] s[i], #[trigger] s[j])
}

/// The unit lies on the lines of one of the first `n` of `kids`.
spec fn within_one(b: Block, kids: Seq<MdTree>, n: int, lines: Seq<Seq<char>>) -> bool {
    exists|i: int|
        0 <= i < n && top(#[trigger] kids[i], lines) <= b.span.start.line && b.span.start.line
            <= b.span.end.line && b.span.end.line <= bottom(kids[i], lines)
}

spec fn all_within(s: Seq<Block>, a: int, b: int) -> bool {
    forall|i: int|
        0 <= i < s.len() ==> a <= (#[trigger] s[i]).span.start.line <= s[i].span.end.line <= b
}

proof fn lemma_no_shared_concat(a: Seq<Block>, b: Seq<Block>)
    requires
        no_shared_line(a),
        no_shared_line(b),
        forall|i: int, j: int|
            0 <= i < a.len() && 0 <= j < b.len() ==> share_no_line(#[trigger] a[i], #[trigger] b[j]),
    ensures
        no_shared_line(a + b),
{
    let r = a + b;
    assert forall|i: int, j: int| 0 <= i < j < r.len() implies share_no_line(
        #[trigger] r[i],
        #[trigger] r[j],
    ) by {
        if j < a.len() {
            assert(share_no_line(a[i], a[j]));
        } else if i < a.len() {
            assert(share_no_line(a[i], b[j - a.len()]));
        } else {
            assert(share_no_line(b[i - a.len()], b[j - a.len()]));
        }
    }
}

proof fn lemma_flat_apart(kids: Seq<MdTree>, n: int, lines: Seq<Seq<char>>, depth: usize)
    requires
        lines.len() <= usize::MAX,
        0 <= n <= kids.len(),
        document_laid_out(kids, lines),
        forall|i: int| 0 <= i < kids.len() ==> sublists_below(#[trigger] kids[i], lines),
    ensures
        no_shared_line(flat(kids, n, lines, depth)),
        forall|i: int|
            0 <= i < flat(kids, n, lines, depth).len() ==> within_one(
                #[trigger] flat(kids, n, lines, depth)[i],
                kids,
                n,
                lines,
            ),
    decreases kids, n,
{
    if n > 0 {
        let a = flat(kids, n - 1, lines, depth);
        let b = flat_child(kids[n - 1], lines, depth);
        let r = flat(kids, n, lines, depth);
        lemma_flat_apart(kids, n - 1, lines, depth);
        lemma_child_apart(kids[n - 1], lines, depth);
        assert forall|i: int, j: int| 0 <= i < a.len() && 0 <= j < b.len() implies share_no_line(
            #[trigger] a[i],
            #[trigger] b[j],
        ) by {
            assert(within_one(a[i], kids, n - 1, lines));
            let k = choose|k: int|
                0 <= k < n - 1 && top(#[trigger] kids[k], lines) <= a[i].span.start.line
                    && a[i].span.start.line <= a[i].span.end.line && a[i].span.end.line <= bottom(
                    kids[k],
                    lines,
                );
            assert(bottom(kids[k], lines) < top(kids[n - 1], lines) || bottom(kids[n - 1], lines) < top(
                kids[k],
                lines,
            ));
        }
        lemma_no_shared_concat(a, b);
        assert forall|i: int| 0 <= i < r.len() implies within_one(#[trigger] r[i], kids, n, lines) by {
            if i < a.len() {
                assert(within_one(a[i], kids, n - 1, lines));
            } else {
                assert(r[i] == b[i - a.len()]);
                assert(top(kids[n - 1], lines) <= r[i].span.start.line);
            }
        }
    }
}

/// The children of a block that holds blocks are laid out as those of a document are.
proof fn lemma_kids_laid_out(t: MdTree, lines: Seq<Seq<char>>)
    requires
        laid_out(t, lines),
        is_passage_name(t.node.name@) || is_item_name(t.node.name@),
    ensures
        document_laid_out(t.kids, lines),
{
    assert forall|i: int, j: int|
        0 <= i < t.kids.len() && 0 <= j < t.kids.len() && i != j implies bottom(
        #[trigger] t.kids[i],
        lines,
    ) < top(#[trigger] t.kids[j], lines) || bottom(t.kids[j], lines) < top(t.kids[i], lines) by {
        if i < j {
            assert(bottom(t.kids[i], lines) < top(t.kids[j], lines));
        } else {
            assert(bottom(t.kids[j], lines) < top(t.kids[i], lines));
        }
    }
}

/// Of the children of an item, the units are on lines of one child each, below line `end`.
proof fn lemma_rest_apart(
    kids: Seq<MdTree>,
    n: int,
    end: int,
    lines: Seq<Seq<char>>,
    depth: usize,
)
    requires
        lines.len() <= usize::MAX,
        0 <= n <= kids.len(),
        document_laid_out(kids, lines),
        forall|i: int| 0 <= i < kids.len() ==> sublists_below(#[trigger] kids[i], lines),
        forall|i: int|
            0 <= i < kids.len() && is_list_name((#[trigger] kids[i]).node.name@) ==> end < top(
                kids[i],
                lines,
            ),
    ensures
        no_shared_line(flat_rest(kids, n, end, lines, depth)),
        forall|i: int|
            0 <= i < flat_rest(kids, n, end, lines, depth).len() ==> within_one(
                #[trigger] flat_rest(kids, n, end, lines, depth)[i],
                kids,
                n,
                lines,
            ) && flat_rest(kids, n, end, lines, depth)[i].span.start.line > end,
    decreases kids, n,
{
    if n > 0 {
        lemma_names();
        let t = kids[n - 1];
        let a = flat_rest(kids, n - 1, end, lines, depth);
        let r = flat_rest(kids, n, end, lines, depth);
        assert(holds_items(t.node.name@) == is_list_name(t.node.name@));
        let b = if holds_items(t.node.name@) {
            flat(t.kids, t.kids.len() as int, lines, deeper(depth))
        } else if bounded(t.node.at, lines).start.line > end {
            flat_child(t, lines, depth)
        } else {
            Seq::empty()
        };
        lemma_rest_apart(kids, n - 1, end, lines, depth);
        if holds_items(t.node.name@) {
            lemma_list_apart(t, lines, deeper(depth));
        } else {
            lemma_child_apart(t, lines, depth);
        }
        assert(all_within(b, top(t, lines), bottom(t, lines)));
        assert forall|i: int, j: int| 0 <= i < a.len() && 0 <= j < b.len() implies share_no_line(
            #[trigger] a[i],
            #[trigger] b[j],
        ) by {
            assert(within_one(a[i], kids, n - 1, lines));
            let k = choose|k: int|
                0 <= k < n - 1 && top(#[trigger] kids[k], lines) <= a[i].span.start.line
                    && a[i].span.start.line <= a[i].span.end.line && a[i].span.end.line <= bottom(
                    kids[k],
                    lines,
                );
            assert(bottom(kids[k], lines) < top(kids[n - 1], lines) || bottom(kids[n - 1], lines) < top(
                kids[k],
                lines,
            ));
        }
        lemma_no_shared_concat(a, b);
        assert forall|i: int| 0 <= i < r.len() implies within_one(#[trigger] r[i], kids, n, lines)
            && r[i].span.start.line > end by {
            if i < a.len() {
                assert(within_one(a[i], kids, n - 1, lines));
            } else {
                assert(r[i] == b[i - a.len()]);
                assert(top(kids[n - 1], lines) <= r[i].span.start.line);
            }
        }
    }
}

proof fn lemma_list_apart(t: MdTree, lines: Seq<Seq<char>>, depth: usize)
    requires
        lines.len() <= usize::MAX,
        laid_out(t, lines),
        sublists_below(t, lines),
        is_passage_name(t.node.name@),
    ensures
        no_shared_line(flat(t.kids, t.kids.len() as int, lines, depth)),
        all_within(
            flat(t.kids, t.kids.len() as int, lines, depth),
            top(t, lines),
            bottom(t, lines),
        ),
    decreases t, 0int,
{
    lemma_kids_laid_out(t, lines);
    lemma_flat_apart(t.kids, t.kids.len() as int, lines, depth);
    let s = flat(t.kids, t.kids.len() as int, lines, depth);
    assert forall|i: int| 0 <= i < s.len() implies top(t, lines) <= (
    #[trigger] s[i]).span.start.line <= s[i].span.end.line <= bottom(t, lines) by {
        assert(within_one(s[i], t.kids, t.kids.len() as int, lines));
    }
}

/// The rows of a table share no line and lie on its lines.
proof fn lemma_table_apart(t: MdTree, lines: Seq<Seq<char>>)
    requires
        lines.len() <= usize::MAX,
        laid_out(t, lines),
        t.node.name@ == "table"@,
    ensures
        no_shared_line(row_units(t.kids, bounded(t.node.at, lines), lines)),
        all_within(
            row_units(t.kids, bounded(t.node.at, lines), lines),
            top(t, lines),
            bottom(t, lines),
        ),
{
    let own = bounded(t.node.at, lines);
    let s = row_units(t.kids, own, lines);
    lemma_bounded_in_file(t.node.at, lines);
    assert forall|j: int| 0 <= j < s.len() implies top(t, lines) <= (
    #[trigger] s[j]).span.start.line <= s[j].span.end.line <= bottom(t, lines) && s[j].span.start.line
        == top(t.kids[j], lines) && (j + 1 < s.len() ==> s[j].span.end.line < top(
        t.kids[j + 1],
        lines,
    )) by {
        lemma_bounded_in_file(t.kids[j].node.at, lines);
        assert(s[j] == unit("table-row", row_span(t.kids, j, own, lines), 0));
        assert(top(t, lines) <= top(t.kids[j], lines));
        if j + 1 < t.kids.len() {
            lemma_bounded_in_file(t.kids[j + 1].node.at, lines);
            assert(bottom(t.kids[j], lines) < top(t.kids[j + 1], lines));
            assert(bottom(t.kids[j + 1], lines) <= bottom(t, lines));
        }
    }
    assert forall|i: int, j: int| 0 <= i < j < s.len() implies share_no_line(
        #[trigger] s[i],
        #[trigger] s[j],
    ) by {
        if i + 1 < j {
            lemma_bounded_in_file(t.kids[i + 1].node.at, lines);
            assert(bottom(t.kids[i + 1], lines) < top(t.kids[j], lines));
        }
    }
}

proof fn lemma_child_apart(t: MdTree, lines: Seq<Seq<char>>, depth: usize)
    requires
        lines.len() <= usize::MAX,
        laid_out(t, lines),
        sublists_below(t, lines),
    ensures
        no_shared_line(flat_child(t, lines, depth)),
        all_within(flat_child(t, lines, depth), top(t, lines), bottom(t, lines)),
    decreases t, 1int,
{
    lemma_names();
    let name = t.node.name@;
    let own = bounded(t.node.at, lines);
    let s = flat_child(t, lines, depth);
    assert(holds_items(name) == is_list_name(name));
    lemma_bounded_in_file(t.node.at, lines);
    if is_passage_name(name) {
        lemma_list_apart(t, lines, depth);
    } else if name == "table"@ {
        lemma_table_apart(t, lines);
    } else if is_item_name(name) {
        let end = item_span(t, lines).end.line as int;
        let first = seq![unit("list-item", item_span(t, lines), depth)];
        let rest = flat_rest(t.kids, t.kids.len() as int, end, lines, depth);
        assert(s == first + rest);
        lemma_kids_laid_out(t, lines);
        if no_sublist(t) {
            lemma_sublist(t.kids, 0, t.kids.len() as int);
        } else {
            let k = lemma_some_sublist(t.kids, 0);
            lemma_sublist(t.kids, 0, k);
            lemma_bounded_in_file(t.kids[k].node.at, lines);
            assert(top(t, lines) < top(t.kids[k], lines));
            assert(bottom(t.kids[k], lines) <= bottom(t, lines));
            assert forall|i: int|
                0 <= i < t.kids.len() && is_list_name((#[trigger] t.kids[i]).node.name@) implies end
                < top(t.kids[i], lines) by {
                if i > k {
                    assert(bottom(t.kids[k], lines) < top(t.kids[i], lines));
                }
            }
        }
        lemma_rest_apart(t.kids, t.kids.len() as int, end, lines, depth);
        assert forall|i: int, j: int| 0 <= i < first.len() && 0 <= j < rest.len() implies share_no_line(
            #[trigger] first[i],
            #[trigger] rest[j],
        ) by {
            assert(rest[j].span.start.line > end);
        }
        lemma_no_shared_concat(first, rest);
        assert forall|i: int| 0 <= i < s.len() implies top(t, lines) <= (
        #[trigger] s[i]).span.start.line <= s[i].span.end.line <= bottom(t, lines) by {
            if i == 0 {
                assert(s[0] == first[0]);
            } else {
                assert(s[i] == rest[i - 1]);
                assert(within_one(rest[i - 1], t.kids, t.kids.len() as int, lines));
            }
        }
    }
}

/// No line is in two units. In a document whose blocks stand on lines of their own, and in which no
/// list starts on the first line of the item it is in, each unit ends above the line that the next
/// one starts on.
pub proof fn law_no_line_is_in_two_units(kids: Seq<MdTree>, lines: Seq<Seq<char>>, i: int, j: int)
    requires
        lines.len() <= usize::MAX,
        document_laid_out(kids, lines),
        forall|k: int| 0 <= k < kids.len() ==> sublists_below(#[trigger] kids[k], lines),
        0 <= i < j < units(kids, lines).len(),
    ensures
        units(kids, lines)[i].span.end.line < units(kids, lines)[j].span.start.line,
{
    let f = flat(kids, kids.len() as int, lines, 0);
    let u = units(kids, lines);
    lemma_flat_apart(kids, kids.len() as int, lines, 0);
    lemma_sorted_apart(f);
    law_units_are_ordered(kids, lines);
    law_units_lie_in_the_file(kids, lines);
    assert(share_no_line(sort_by(f, block_le())[i], sort_by(f, block_le())[j]));
    assert((block_le())(u[i], u[j]));
    assert(on_file(u[i], line_total(lines)) && on_file(u[j], line_total(lines)));
}

/// Putting units in order does not make two of them share a line.
proof fn lemma_sorted_apart(f: Seq<Block>)
    requires
        no_shared_line(f),
    ensures
        no_shared_line(sort_by(f, block_le())),
    decreases f.len(),
{
    if f.len() > 0 {
        let g = f.drop_last();
        let x = f.last();
        assert forall|i: int, j: int| 0 <= i < j < g.len() implies share_no_line(
            #[trigger] g[i],
            #[trigger] g[j],
        ) by {
            assert(share_no_line(f[i], f[j]));
        }
        lemma_sorted_apart(g);
        assert forall|i: int| 0 <= i < g.len() implies share_no_line(#[trigger] g[i], x) by {
            assert(share_no_line(f[i], f[f.len() - 1]));
        }
        lemma_sorted_items(g, x);
        lemma_inserted_apart(sort_by(g, block_le()), x);
    }
}

proof fn lemma_sorted_items(g: Seq<Block>, x: Block)
    requires
        forall|i: int| 0 <= i < g.len() ==> share_no_line(#[trigger] g[i], x),
    ensures
        forall|i: int|
            0 <= i < sort_by(g, block_le()).len() ==> share_no_line(
                #[trigger] sort_by(g, block_le())[i],
                x,
            ),
{
    broadcast use vstd::seq_lib::group_to_multiset_ensures;

    let s = sort_by(g, block_le());
    law_sort_orders_the_same_items(g, block_le());
    assert forall|i: int| 0 <= i < s.len() implies share_no_line(#[trigger] s[i], x) by {
        assert(s.contains(s[i]));
        assert(s.to_multiset().count(s[i]) > 0);
        assert(g.contains(s[i]));
        let k = choose|k: int| 0 <= k < g.len() && g[k] == s[i];
        assert(share_no_line(g[k], x));
    }
}

proof fn lemma_inserted_apart(s: Seq<Block>, x: Block)
    requires
        no_shared_line(s),
        forall|i: int| 0 <= i < s.len() ==> share_no_line(#[trigger] s[i], x),
    ensures
        no_shared_line(insert_by(s, x, block_le())),
        forall|i: int|
            0 <= i < insert_by(s, x, block_le()).len() ==> #[trigger] insert_by(s, x, block_le())[i]
                == x || s.contains(insert_by(s, x, block_le())[i]),
    decreases s.len(),
{
    let r = insert_by(s, x, block_le());
    if s.len() == 0 || (block_le())(s.last(), x) {
        assert forall|i: int| 0 <= i < r.len() implies #[trigger] r[i] == x || s.contains(r[i]) by {
            if i < s.len() {
                assert(s.contains(s[i]));
            }
        }
        assert forall|i: int, j: int| 0 <= i < j < r.len() implies share_no_line(
            #[trigger] r[i],
            #[trigger] r[j],
        ) by {
            assert(share_no_line(s[i], x));
            if j < s.len() {
                assert(share_no_line(s[i], s[j]));
            }
        }
    } else {
        let t = s.drop_last();
        let q = insert_by(t, x, block_le());
        assert forall|i: int, j: int| 0 <= i < j < t.len() implies share_no_line(
            #[trigger] t[i],
            #[trigger] t[j],
        ) by {
            assert(share_no_line(s[i], s[j]));
        }
        assert forall|i: int| 0 <= i < t.len() implies share_no_line(#[trigger] t[i], x) by {
            assert(share_no_line(s[i], x));
        }
        lemma_inserted_apart(t, x);
        let last = s[s.len() - 1];
        assert(share_no_line(last, x));
        assert forall|i: int| 0 <= i < q.len() implies share_no_line(#[trigger] q[i], last)
            && (q[i] == x || s.contains(q[i])) by {
            if q[i] != x {
                let k = choose|k: int| 0 <= k < t.len() && t[k] == q[i];
                assert(s[k] == q[i]);
                assert(share_no_line(s[k], s[s.len() - 1]));
            }
        }
        assert forall|i: int, j: int| 0 <= i < j < r.len() implies share_no_line(
            #[trigger] r[i],
            #[trigger] r[j],
        ) by {
            if j < q.len() {
                assert(share_no_line(q[i], q[j]));
            }
        }
        assert forall|i: int| 0 <= i < r.len() implies #[trigger] r[i] == x || s.contains(r[i]) by {
            if i == q.len() {
                assert(s[s.len() - 1] == r[i]);
            } else {
                assert(r[i] == q[i]);
            }
        }
    }
}

/// The unit a line belongs to: the first that covers it, else the last that ends above it, else
/// the first.
pub open spec fn unit_for(blocks: Seq<Block>, line: int) -> Option<int> {
    let n = blocks.len() as int;
    if n == 0 {
        None
    } else if first_on(blocks, line, 0) < n {
        Some(first_on(blocks, line, 0))
    } else if last_above(blocks, line, n) >= 0 {
        Some(last_above(blocks, line, n))
    } else {
        Some(0)
    }
}

/// Index of the first unit at or after `i` that covers `line`; the length where there is none.
pub open spec fn first_on(blocks: Seq<Block>, line: int, i: int) -> int
    decreases blocks.len() - i,
{
    if i < 0 || i >= blocks.len() {
        blocks.len() as int
    } else if blocks[i].span.on_line(line) {
        i
    } else {
        first_on(blocks, line, i + 1)
    }
}

/// Index of the last of the first `n` units that ends above `line`; -1 where there is none.
pub open spec fn last_above(blocks: Seq<Block>, line: int, n: int) -> int
    decreases n,
{
    if n <= 0 {
        -1
    } else if blocks[n - 1].span.end.line < line {
        n - 1
    } else {
        last_above(blocks, line, n - 1)
    }
}

/// Index of the block containing `line`, else the nearest one above it, so the cursor never falls
/// into a hole between blocks.
pub fn block_at(blocks: &[Block], line: usize) -> (r: Option<usize>)
    ensures
        match unit_for(blocks@, line as int) {
            None => r is None,
            Some(i) => r matches Some(k) && k == i,
        },
        r matches Some(k) ==> k < blocks@.len(),
        r is None <==> blocks@.len() == 0,
{
    let n: usize = blocks.len();
    if n == 0 {
        return None;
    }
    let mut i: usize = 0;
    while i < n && !blocks[i].contains_line(line)
        invariant
            i <= n,
            n == blocks@.len(),
            first_on(blocks@, line as int, i as int) == first_on(blocks@, line as int, 0),
        decreases n - i,
    {
        i += 1;
    }
    if i < n {
        return Some(i);
    }
    let mut k: usize = n;
    while k > 0 && !(blocks[k - 1].end() < line)
        invariant
            k <= n,
            n == blocks@.len(),
            last_above(blocks@, line as int, k as int) == last_above(
                blocks@,
                line as int,
                n as int,
            ),
        decreases k,
    {
        k -= 1;
    }
    if k > 0 {
        Some(k - 1)
    } else {
        Some(0)
    }
}

proof fn lemma_first_on(blocks: Seq<Block>, line: int, i: int)
    requires
        0 <= i <= blocks.len(),
    ensures
        i <= first_on(blocks, line, i) <= blocks.len(),
        first_on(blocks, line, i) < blocks.len() ==> blocks[first_on(blocks, line, i)].span.on_line(line),
        forall|k: int| i <= k < first_on(blocks, line, i) ==> !(#[trigger] blocks[k]).span.on_line(line),
    decreases blocks.len() - i,
{
    if i < blocks.len() && !blocks[i].span.on_line(line) {
        lemma_first_on(blocks, line, i + 1);
    }
}

proof fn lemma_last_above(blocks: Seq<Block>, line: int, n: int)
    requires
        0 <= n <= blocks.len(),
    ensures
        -1 <= last_above(blocks, line, n) < n || (n == 0 && last_above(blocks, line, n) == -1),
        last_above(blocks, line, n) >= 0 ==> blocks[last_above(blocks, line, n)].span.end.line < line,
        forall|k: int| last_above(blocks, line, n) < k < n ==> !((#[trigger] blocks[k]).span.end.line < line),
    decreases n,
{
    if n > 0 && !(blocks[n - 1].span.end.line < line) {
        lemma_last_above(blocks, line, n - 1);
    }
}

/// A line always has a unit where there are any. A covered line gets one that covers it; a line in
/// a hole gets the last one that ends above it where some unit does.
pub proof fn law_no_line_without_a_unit(blocks: Seq<Block>, line: int)
    requires
        blocks.len() > 0,
    ensures
        unit_for(blocks, line) matches Some(i) && 0 <= i < blocks.len(),
        forall|k: int|
            0 <= k < blocks.len() && (#[trigger] blocks[k]).span.on_line(line) ==> blocks[unit_for(
                blocks,
                line,
            )->0].span.on_line(line) && unit_for(blocks, line)->0 <= k,
        forall|k: int|
            0 <= k < blocks.len() && (#[trigger] blocks[k]).span.end.line < line && (forall|m: int|
                0 <= m < blocks.len() ==> !(#[trigger] blocks[m]).span.on_line(line)) ==> blocks[unit_for(
                blocks,
                line,
            )->0].span.end.line < line && unit_for(blocks, line)->0 >= k,
{
    lemma_first_on(blocks, line, 0);
    lemma_last_above(blocks, line, blocks.len() as int);
}

// ---------------------------------------------------------------------------
// Containment hierarchy
// ---------------------------------------------------------------------------

pub open spec fn tree_shapes(v: Seq<TreeNode>) -> Seq<Tree> {
    Seq::new(v.len(), |i: int| v[i].shape())
}

/// The span of a node of the hierarchy: an inline node's columns are corrected first.
pub open spec fn place(node: MdNode, lines: Seq<Seq<char>>, shift: Seq<Run>) -> Span {
    match label(node.name@) {
        Some(kind) => if inline_label(kind@) {
            bounded(
                Span {
                    start: Pos {
                        line: node.at.start.line,
                        col: source_col(
                            shift,
                            node.at.start.line as int,
                            node.at.start.col as int,
                        ) as usize,
                    },
                    end: Pos {
                        line: node.at.end.line,
                        col: source_col(
                            shift,
                            node.at.end.line as int,
                            node.at.end.col as int,
                        ) as usize,
                    },
                },
                lines,
            )
        } else {
            bounded(node.at, lines)
        },
        None => bounded(node.at, lines),
    }
}

/// The hierarchy of the first `n` of `kids`. A node without a label is no level of its own: its
/// children stand in its place.
pub open spec fn tree_of(
    kids: Seq<MdTree>,
    n: int,
    lines: Seq<Seq<char>>,
    shift: Seq<Run>,
) -> Seq<Tree>
    decreases kids, n,
{
    if n <= 0 || n > kids.len() {
        Seq::empty()
    } else {
        let t = kids[n - 1];
        let below = tree_of(t.kids, t.kids.len() as int, lines, shift);
        tree_of(kids, n - 1, lines, shift) + match label(t.node.name@) {
            Some(kind) => seq![
                Tree {
                    kind,
                    span: place(t.node, lines, shift),
                    setext: t.node.name@ == "heading"@ && t.node.setext,
                    kids: below,
                },
            ],
            None => below,
        }
    }
}

/// The hierarchy of a whole document.
pub open spec fn hierarchy(kids: Seq<MdTree>, lines: Seq<Seq<char>>) -> Tree {
    Tree {
        kind: "document",
        span: Span { start: Pos { line: 1, col: 1 }, end: end_of(lines, line_total(lines)) },
        setext: false,
        kids: tree_of(kids, kids.len() as int, lines, shift_of(kids, lines)),
    }
}

/// The span starts on a line and in a column of the file, and ends on no earlier line of it.
pub open spec fn span_in_file(s: Span, total: int) -> bool {
    1 <= s.start.line <= s.end.line <= total && s.start.col >= 1
}

/// Every span of the hierarchy starts on a line and column of the file and does not run past it.
pub open spec fn in_file(t: Tree, total: int) -> bool
    decreases t,
{
    &&& 1 <= t.span.start.line <= t.span.end.line <= total
    &&& t.span.start.col >= 1
    &&& t.span.start.le(t.span.end)
    &&& forall|i: int| 0 <= i < t.kids.len() ==> in_file(#[trigger] t.kids[i], total)
}

/// Every span of the hierarchy starts on a line and in a column, counted from 1.
pub open spec fn positioned(t: Tree) -> bool
    decreases t,
{
    &&& t.span.start.line >= 1
    &&& t.span.start.col >= 1
    &&& forall|i: int| 0 <= i < t.kids.len() ==> positioned(#[trigger] t.kids[i])
}

pub proof fn lemma_in_file_is_positioned(t: Tree, total: int)
    requires
        in_file(t, total),
    ensures
        positioned(t),
    decreases t,
{
    assert forall|i: int| 0 <= i < t.kids.len() implies positioned(#[trigger] t.kids[i]) by {
        lemma_in_file_is_positioned(t.kids[i], total);
    }
}

fn walk_tree(kids: &Vec<Md>, lines: &Vec<&str>, shift: &PipeShift) -> (r: Vec<TreeNode>)
    ensures
        tree_shapes(r@) == tree_of(
            shapes(kids@),
            kids@.len() as int,
            slices(lines@),
            shift.model(),
        ),
        forall|i: int|
            0 <= i < r@.len() ==> in_file((#[trigger] r@[i]).shape(), line_total(slices(lines@))),
    decreases kids,
{
    let ghost ks = shapes(kids@);
    let ghost ls = slices(lines@);
    let ghost sh = shift.model();
    let mut out: Vec<TreeNode> = Vec::new();
    let mut i: usize = 0;
    while i < kids.len()
        invariant
            i <= kids@.len(),
            ks == shapes(kids@),
            ls == slices(lines@),
            sh == shift.model(),
            tree_shapes(out@) =~= tree_of(ks, i as int, ls, sh),
            forall|j: int|
                0 <= j < out@.len() ==> in_file((#[trigger] out@[j]).shape(), line_total(ls)),
        decreases kids@.len() - i,
    {
        let node = kids[i].node;
        let ghost t = ks[i as int];
        let ghost before = tree_shapes(out@);
        let ghost held = out@;
        proof {
            assert(t == kids@[i as int].shape());
            assert(t.kids =~= shapes(kids@[i as int].kids@));
        }
        let kind = kind_of(node.name);
        let mut at = node.at;
        if let Some(k) = kind {
            if is_inline(k) {
                at = Span {
                    start: Pos::new(
                        at.start.line,
                        shift.source_column(at.start.line, at.start.col),
                    ),
                    end: Pos::new(at.end.line, shift.source_column(at.end.line, at.end.col)),
                };
            }
        }
        let span = norm(at, lines);
        let mut below = walk_tree(&kids[i].kids, lines, shift);
        let ghost under = tree_shapes(below@);
        let ghost below_seq = below@;
        match kind {
            Some(kind) => {
                let n = TreeNode {
                    kind,
                    span,
                    setext: str_eq(node.name, "heading") && node.setext,
                    children: below,
                };
                proof {
                    assert(n.shape().kids =~= under);
                    assert forall|j: int| 0 <= j < n.shape().kids.len() implies in_file(
                        #[trigger] n.shape().kids[j],
                        line_total(ls),
                    ) by {
                        assert(n.shape().kids[j] == below_seq[j].shape());
                    }
                    assert(tree_shapes(held.push(n)) =~= before.push(n.shape()));
                    assert(n.shape() == (Tree {
                        kind,
                        span: place(t.node, ls, sh),
                        setext: t.node.name@ == "heading"@ && t.node.setext,
                        kids: under,
                    }));
                }
                out.push(n);
            },
            None => {
                out.append(&mut below);
                proof {
                    assert(tree_shapes(out@) =~= before + under);
                    assert forall|j: int| 0 <= j < out@.len() implies in_file(
                        (#[trigger] out@[j]).shape(),
                        line_total(ls),
                    ) by {
                        if j < held.len() {
                            assert(out@[j] == held[j]);
                        } else {
                            assert(out@[j] == below_seq[j - held.len()]);
                        }
                    }
                }
            },
        }
        i += 1;
    }
    out
}

/// The containment hierarchy of a parsed document.
pub fn hierarchy_of(kids: &Vec<Md>, lines: &Vec<&str>) -> (r: TreeNode)
    ensures
        r.shape() == hierarchy(shapes(kids@), slices(lines@)),
        in_file(r.shape(), line_total(slices(lines@))),
{
    let shift = pipe_shift(kids, lines);
    let total: usize = if lines.len() >= 1 {
        lines.len()
    } else {
        1
    };
    let children = walk_tree(kids, lines, &shift);
    let r = TreeNode {
        kind: "document",
        span: Span { start: Pos::new(1, 1), end: Pos::new(total, end_col(lines, total)) },
        setext: false,
        children,
    };
    proof {
        assert(r.shape().kids =~= tree_shapes(children@));
        assert forall|j: int| 0 <= j < r.shape().kids.len() implies in_file(
            #[trigger] r.shape().kids[j],
            line_total(slices(lines@)),
        ) by {
            assert(r.shape().kids[j] == children@[j].shape());
        }
    }
    r
}

/// The whole document as a containment hierarchy.
pub fn parse_tree(src: &str) -> (r: TreeNode)
    ensures
        r.shape() == hierarchy(document(comrak_nodes(src@, extensions())), lines_of(src@)),
        in_file(r.shape(), line_total(lines_of(src@))),
{
    let lines = source_lines(src);
    hierarchy_of(&read(src), &lines)
}

/// Every node of the first `n` of `kids` and below that contains `pos`, children before parents.
pub open spec fn around_kids(kids: Seq<Tree>, n: int, pos: Pos) -> Seq<(&'static str, Span)>
    decreases kids, n,
{
    if n <= 0 || n > kids.len() {
        Seq::empty()
    } else {
        around_kids(kids, n - 1, pos) + around(kids[n - 1], pos)
    }
}

/// Every node of `t` that contains `pos` and stands under nodes that do, children before parents.
pub open spec fn around(t: Tree, pos: Pos) -> Seq<(&'static str, Span)>
    decreases t, 0int,
{
    if !t.span.has(pos) {
        Seq::empty()
    } else {
        around_kids(t.kids, t.kids.len() as int, pos).push((t.kind, t.span))
    }
}

/// Neighbours with one span become one entry, under the label of the last of them.
pub open spec fn collapse(s: Seq<(&'static str, Span)>) -> Seq<(&'static str, Span)>
    decreases s.len(),
{
    if s.len() == 0 {
        s
    } else {
        let c = collapse(s.drop_last());
        if c.len() > 0 && c.last().1 == s.last().1 {
            c.drop_last().push(s.last())
        } else {
            c.push(s.last())
        }
    }
}

fn gather_around(n: &TreeNode, pos: Pos, out: &mut Vec<(&'static str, Span)>)
    ensures
        final(out)@ == old(out)@ + around(n.shape(), pos),
    decreases n,
{
    let ghost start = out@;
    let ghost t = n.shape();
    if !n.span.contains(pos) {
        proof {
            assert(out@ =~= start + around(t, pos));
        }
        return;
    }
    let mut i: usize = 0;
    while i < n.children.len()
        invariant
            i <= n.children@.len(),
            t == n.shape(),
            out@ =~= start + around_kids(t.kids, i as int, pos),
        decreases n.children@.len() - i,
    {
        proof {
            assert(t.kids[i as int] == n.children@[i as int].shape());
        }
        gather_around(&n.children[i], pos, out);
        i += 1;
    }
    out.push((n.kind, n.span));
    proof {
        assert(out@ =~= start + around(t, pos));
    }
}

/// Every node containing `pos`, innermost first, ending at the document. Consecutive nodes with
/// identical spans are collapsed -- expanding from a paragraph to its only text run would otherwise
/// look like nothing happened -- and the *outermost* label is kept.
pub fn containment_stack(root: &TreeNode, pos: Pos) -> (r: Vec<(&'static str, Span)>)
    ensures
        r@ == collapse(around(root.shape(), pos)),
{
    let mut raw: Vec<(&'static str, Span)> = Vec::new();
    gather_around(root, pos, &mut raw);
    proof {
        assert(raw@ =~= around(root.shape(), pos));
    }
    let mut out: Vec<(&'static str, Span)> = Vec::new();
    let mut i: usize = 0;
    while i < raw.len()
        invariant
            i <= raw@.len(),
            out@ =~= collapse(raw@.take(i as int)),
        decreases raw@.len() - i,
    {
        let entry = raw[i];
        proof {
            assert(raw@.take(i + 1).drop_last() =~= raw@.take(i as int));
        }
        let n: usize = out.len();
        if n > 0 && out[n - 1].1 == entry.1 {
            out.set(n - 1, entry);
            proof {
                assert(out@ =~= collapse(raw@.take(i as int)).drop_last().push(entry));
            }
        } else {
            out.push(entry);
        }
        i += 1;
    }
    proof {
        assert(raw@.take(i as int) =~= raw@);
    }
    out
}

proof fn lemma_collapse(s: Seq<(&'static str, Span)>)
    ensures
        s.len() > 0 ==> collapse(s).len() > 0 && collapse(s).last() == s.last(),
        s.len() == 0 ==> collapse(s).len() == 0,
        forall|i: int| 0 <= i < collapse(s).len() ==> s.contains(#[trigger] collapse(s)[i]),
        forall|i: int, j: int|
            0 <= i && j == i + 1 && j < collapse(s).len() ==> (#[trigger] collapse(s)[i]).1 != (
            #[trigger] collapse(s)[j]).1,
    decreases s.len(),
{
    if s.len() > 0 {
        let d = s.drop_last();
        let c = collapse(d);
        let r = collapse(s);
        lemma_collapse(d);
        assert forall|i: int| 0 <= i < r.len() implies s.contains(#[trigger] r[i]) by {
            if i < r.len() - 1 {
                assert(r[i] == c[i]);
                assert(d.contains(c[i]));
                let k = choose|k: int| 0 <= k < d.len() && d[k] == c[i];
                assert(s[k] == c[i]);
            } else {
                assert(s[s.len() - 1] == r[i]);
            }
        }
        assert forall|i: int, j: int| 0 <= i && j == i + 1 && j < r.len() implies (#[trigger] r[i]).1
            != (#[trigger] r[j]).1 by {
            if j < r.len() - 1 {
                assert(r[i] == c[i] && r[j] == c[j]);
            } else {
                assert(r[i] == c[i]);
                if c.len() > 0 && c.last().1 == s.last().1 {
                    assert(c[i].1 != c[j].1);
                }
            }
        }
    }
}

proof fn lemma_around_kids(kids: Seq<Tree>, n: int, pos: Pos)
    requires
        0 <= n <= kids.len(),
    ensures
        forall|i: int|
            0 <= i < around_kids(kids, n, pos).len() ==> (#[trigger] around_kids(kids, n, pos)[i]).1.has(
                pos,
            ),
    decreases kids, n,
{
    if n > 0 {
        lemma_around_kids(kids, n - 1, pos);
        lemma_around(kids[n - 1], pos);
        let a = around_kids(kids, n - 1, pos);
        let b = around(kids[n - 1], pos);
        assert forall|i: int| 0 <= i < (a + b).len() implies (#[trigger] (a + b)[i]).1.has(pos) by {
            if i < a.len() {
                assert(a[i].1.has(pos));
            } else {
                assert(b[i - a.len()].1.has(pos));
            }
        }
    }
}

proof fn lemma_around(t: Tree, pos: Pos)
    ensures
        forall|i: int| 0 <= i < around(t, pos).len() ==> (#[trigger] around(t, pos)[i]).1.has(pos),
    decreases t, 0int,
{
    if t.span.has(pos) {
        lemma_around_kids(t.kids, t.kids.len() as int, pos);
        let k = around_kids(t.kids, t.kids.len() as int, pos);
        assert forall|i: int| 0 <= i < around(t, pos).len() implies (#[trigger] around(t, pos)[i]).1.has(
            pos,
        ) by {
            if i < k.len() {
                assert(k[i].1.has(pos));
            }
        }
    }
}

/// A containment stack is empty only where the document does not reach; it ends at the document,
/// every entry contains the position, and no two neighbours have one span -- so each step of an
/// expansion visibly moves.
pub proof fn law_stack_steps_outward_to_the_document(root: Tree, pos: Pos)
    ensures
        root.span.has(pos) <==> collapse(around(root, pos)).len() > 0,
        root.span.has(pos) ==> collapse(around(root, pos)).last() == (root.kind, root.span),
        forall|i: int|
            0 <= i < collapse(around(root, pos)).len() ==> (#[trigger] collapse(
                around(root, pos),
            )[i]).1.has(pos),
        forall|i: int, j: int|
            0 <= i && j == i + 1 && j < collapse(around(root, pos)).len() ==> (#[trigger] collapse(
                around(root, pos),
            )[i]).1 != (#[trigger] collapse(around(root, pos))[j]).1,
{
    let s = around(root, pos);
    lemma_collapse(s);
    lemma_around(root, pos);
    assert forall|i: int| 0 <= i < collapse(s).len() implies (#[trigger] collapse(s)[i]).1.has(
        pos,
    ) by {
        assert(s.contains(collapse(s)[i]));
        let k = choose|k: int| 0 <= k < s.len() && s[k] == collapse(s)[i];
        assert(s[k].1.has(pos));
    }
}

/// `inner` does not reach beyond `outer`.
pub open spec fn within(inner: Span, outer: Span) -> bool {
    outer.start.le(inner.start) && inner.end.le(outer.end)
}

/// No node reaches beyond its parent, and no two siblings share a position.
pub open spec fn nested(t: Tree) -> bool
    decreases t,
{
    &&& forall|i: int|
        0 <= i < t.kids.len() ==> within((#[trigger] t.kids[i]).span, t.span) && nested(t.kids[i])
    &&& forall|i: int, j: int, p: Pos|
        0 <= i < j < t.kids.len() ==> !((#[trigger] t.kids[i]).span.has(p) && (
        #[trigger] t.kids[j]).span.has(p)) || !#[trigger] t.span.has(p)
}

/// Each entry lies within every later one.
pub open spec fn chained(s: Seq<(&'static str, Span)>) -> bool {
    forall|i: int, j: int| 0 <= i < j < s.len() ==> within((#[trigger] s[i]).1, (#[trigger] s[j]).1)
}

proof fn lemma_around_some(kids: Seq<Tree>, n: int, pos: Pos)
    requires
        around_kids(kids, n, pos).len() > 0,
    ensures
        exists|m: int| 0 <= m < n && m < kids.len() && (#[trigger] kids[m]).span.has(pos),
    decreases n,
{
    if 0 < n <= kids.len() {
        if around(kids[n - 1], pos).len() > 0 {
            assert(kids[n - 1].span.has(pos));
        } else {
            lemma_around_some(kids, n - 1, pos);
        }
    }
}

proof fn lemma_around_chained(t: Tree, pos: Pos)
    requires
        nested(t),
    ensures
        chained(around(t, pos)),
        forall|i: int| 0 <= i < around(t, pos).len() ==> within((#[trigger] around(t, pos)[i]).1, t.span),
    decreases t, 0int,
{
    if t.span.has(pos) {
        lemma_around_kids_chained(t, t.kids.len() as int, pos);
    }
}

proof fn lemma_around_kids_chained(t: Tree, n: int, pos: Pos)
    requires
        nested(t),
        t.span.has(pos),
        0 <= n <= t.kids.len(),
    ensures
        chained(around_kids(t.kids, n, pos)),
        forall|i: int|
            0 <= i < around_kids(t.kids, n, pos).len() ==> within(
                (#[trigger] around_kids(t.kids, n, pos)[i]).1,
                t.span,
            ),
    decreases t.kids, n,
{
    if n > 0 {
        let kid = t.kids[n - 1];
        let a = around_kids(t.kids, n - 1, pos);
        let b = around(kid, pos);
        assert(within(kid.span, t.span) && nested(kid));
        lemma_around_kids_chained(t, n - 1, pos);
        lemma_around_chained(kid, pos);
        if b.len() > 0 {
            if a.len() > 0 {
                lemma_around_some(t.kids, n - 1, pos);
                let m = choose|m: int| 0 <= m < n - 1 && m < t.kids.len() && (#[trigger] t.kids[m]).span.has(pos);
                assert(!(t.kids[m].span.has(pos) && t.kids[n - 1].span.has(pos)));
            }
            assert(a + b =~= b);
        } else {
            assert(a + b =~= a);
        }
    }
}

proof fn lemma_collapse_chained(s: Seq<(&'static str, Span)>)
    requires
        chained(s),
    ensures
        chained(collapse(s)),
    decreases s.len(),
{
    if s.len() > 0 {
        let d = s.drop_last();
        let c = collapse(d);
        assert forall|i: int, j: int| 0 <= i < j < d.len() implies within(
            (#[trigger] d[i]).1,
            (#[trigger] d[j]).1,
        ) by {
            assert(within(s[i].1, s[j].1));
        }
        lemma_collapse_chained(d);
        lemma_collapse(d);
        assert forall|i: int| 0 <= i < c.len() implies within((#[trigger] c[i]).1, s.last().1) by {
            let k = choose|k: int| 0 <= k < d.len() && d[k] == c[i];
            assert(within(s[k].1, s[s.len() - 1].1));
        }
        let r = collapse(s);
        assert forall|i: int, j: int| 0 <= i < j < r.len() implies within(
            (#[trigger] r[i]).1,
            (#[trigger] r[j]).1,
        ) by {
            assert(r[i] == c[i]);
            if j < r.len() - 1 {
                assert(r[j] == c[j]);
            }
        }
    }
}

/// Where the hierarchy is nested, every step up a containment stack is a strict widening.
pub proof fn law_a_nested_stack_widens(root: Tree, pos: Pos, i: int, j: int)
    requires
        nested(root),
        0 <= i < j < collapse(around(root, pos)).len(),
    ensures
        within(collapse(around(root, pos))[i].1, collapse(around(root, pos))[j].1),
        collapse(around(root, pos))[i].1 != collapse(around(root, pos))[j].1,
{
    let s = collapse(around(root, pos));
    lemma_around_chained(root, pos);
    lemma_collapse_chained(around(root, pos));
    lemma_collapse(around(root, pos));
    assert(within(s[i].1, s[j].1));
    assert(s[i].1 != s[i + 1].1);
    if i + 1 < j {
        assert(within(s[i].1, s[i + 1].1));
        assert(within(s[i + 1].1, s[j].1));
    }
}

/// Every entry of a containment stack lies in the file where the hierarchy does.
pub proof fn lemma_stack_in_file(root: Tree, pos: Pos, total: int)
    requires
        in_file(root, total),
    ensures
        forall|i: int|
            0 <= i < collapse(around(root, pos)).len() ==> span_in_file(
                (#[trigger] collapse(around(root, pos))[i]).1,
                total,
            ),
{
    let s = around(root, pos);
    lemma_around_in_file(root, pos, total);
    lemma_collapse(s);
    assert forall|i: int| 0 <= i < collapse(s).len() implies span_in_file(
        (#[trigger] collapse(s)[i]).1,
        total,
    ) by {
        let k = choose|k: int| 0 <= k < s.len() && s[k] == collapse(s)[i];
        assert(span_in_file(s[k].1, total));
    }
}

proof fn lemma_around_in_file(t: Tree, pos: Pos, total: int)
    requires
        in_file(t, total),
    ensures
        forall|i: int|
            0 <= i < around(t, pos).len() ==> span_in_file((#[trigger] around(t, pos)[i]).1, total),
    decreases t, 0int,
{
    if t.span.has(pos) {
        lemma_around_kids_in_file(t.kids, t.kids.len() as int, pos, total);
        let below = around_kids(t.kids, t.kids.len() as int, pos);
        assert forall|i: int| 0 <= i < around(t, pos).len() implies span_in_file(
            (#[trigger] around(t, pos)[i]).1,
            total,
        ) by {
            if i < below.len() {
                assert(around(t, pos)[i] == below[i]);
            }
        }
    }
}

proof fn lemma_around_kids_in_file(kids: Seq<Tree>, n: int, pos: Pos, total: int)
    requires
        forall|i: int| 0 <= i < kids.len() ==> in_file(#[trigger] kids[i], total),
    ensures
        forall|i: int|
            0 <= i < around_kids(kids, n, pos).len() ==> span_in_file(
                (#[trigger] around_kids(kids, n, pos)[i]).1,
                total,
            ),
    decreases kids, n,
{
    if 0 < n <= kids.len() {
        lemma_around_kids_in_file(kids, n - 1, pos, total);
        lemma_around_in_file(kids[n - 1], pos, total);
        let a = around_kids(kids, n - 1, pos);
        let b = around(kids[n - 1], pos);
        assert forall|i: int| 0 <= i < (a + b).len() implies span_in_file(
            (#[trigger] (a + b)[i]).1,
            total,
        ) by {
            if i < a.len() {
                assert((a + b)[i] == a[i]);
            } else {
                assert((a + b)[i] == b[i - a.len()]);
            }
        }
    }
}

// ---------------------------------------------------------------------------
// Inline motions
// ---------------------------------------------------------------------------

/// Where the inline nodes of `t` start, each node before its children.
pub open spec fn inline_starts(t: Tree) -> Seq<Pos>
    decreases t, 0int,
{
    let below = inline_starts_in(t.kids, t.kids.len() as int);
    if inline_label(t.kind@) {
        seq![t.span.start] + below
    } else {
        below
    }
}

pub open spec fn inline_starts_in(kids: Seq<Tree>, n: int) -> Seq<Pos>
    decreases kids, n,
{
    if n <= 0 || n > kids.len() {
        Seq::empty()
    } else {
        inline_starts_in(kids, n - 1) + inline_starts(kids[n - 1])
    }
}

/// The earliest position of `starts` after `from`.
pub open spec fn next_stop(starts: Seq<Pos>, from: Pos) -> Option<Pos>
    decreases starts.len(),
{
    if starts.len() == 0 {
        None
    } else {
        let best = next_stop(starts.drop_last(), from);
        let p = starts.last();
        if from.lt(p) {
            match best {
                None => Some(p),
                Some(b) => Some(pos_min(b, p)),
            }
        } else {
            best
        }
    }
}

/// The latest position of `starts` before `from`.
pub open spec fn prev_stop(starts: Seq<Pos>, from: Pos) -> Option<Pos>
    decreases starts.len(),
{
    if starts.len() == 0 {
        None
    } else {
        let best = prev_stop(starts.drop_last(), from);
        let p = starts.last();
        if p.lt(from) {
            match best {
                None => Some(p),
                Some(b) => Some(pos_max(b, p)),
            }
        } else {
            best
        }
    }
}

fn gather_starts(n: &TreeNode, out: &mut Vec<Pos>)
    ensures
        final(out)@ == old(out)@ + inline_starts(n.shape()),
    decreases n,
{
    let ghost t = n.shape();
    let ghost start = out@;
    if is_inline(n.kind) {
        out.push(n.span.start);
    }
    let ghost mid = out@;
    let mut i: usize = 0;
    while i < n.children.len()
        invariant
            i <= n.children@.len(),
            t == n.shape(),
            out@ =~= mid + inline_starts_in(t.kids, i as int),
        decreases n.children@.len() - i,
    {
        proof {
            assert(t.kids[i as int] == n.children@[i as int].shape());
        }
        gather_starts(&n.children[i], out);
        i += 1;
    }
    proof {
        assert(out@ =~= start + inline_starts(t));
    }
}

/// Start of the next inline node strictly after `from`, in document order.
pub fn next_inline(root: &TreeNode, from: Pos) -> (r: Option<Pos>)
    ensures
        r == next_stop(inline_starts(root.shape()), from),
{
    let mut starts: Vec<Pos> = Vec::new();
    gather_starts(root, &mut starts);
    let mut best: Option<Pos> = None;
    let mut i: usize = 0;
    while i < starts.len()
        invariant
            i <= starts@.len(),
            best == next_stop(starts@.take(i as int), from),
        decreases starts@.len() - i,
    {
        let p = starts[i];
        proof {
            assert(starts@.take(i + 1).drop_last() =~= starts@.take(i as int));
        }
        if from.before(p) {
            best = match best {
                None => Some(p),
                Some(b) => if b.at_or_before(p) {
                    Some(b)
                } else {
                    Some(p)
                },
            };
        }
        i += 1;
    }
    proof {
        assert(starts@.take(i as int) =~= inline_starts(root.shape()));
    }
    best
}

/// Start of the previous inline node strictly before `from`.
pub fn prev_inline(root: &TreeNode, from: Pos) -> (r: Option<Pos>)
    ensures
        r == prev_stop(inline_starts(root.shape()), from),
{
    let mut starts: Vec<Pos> = Vec::new();
    gather_starts(root, &mut starts);
    let mut best: Option<Pos> = None;
    let mut i: usize = 0;
    while i < starts.len()
        invariant
            i <= starts@.len(),
            best == prev_stop(starts@.take(i as int), from),
        decreases starts@.len() - i,
    {
        let p = starts[i];
        proof {
            assert(starts@.take(i + 1).drop_last() =~= starts@.take(i as int));
        }
        if p.before(from) {
            best = match best {
                None => Some(p),
                Some(b) => if b.at_or_before(p) {
                    Some(p)
                } else {
                    Some(b)
                },
            };
        }
        i += 1;
    }
    proof {
        assert(starts@.take(i as int) =~= inline_starts(root.shape()));
    }
    best
}

/// The next stop is the least one beyond, and there is none only where nothing lies beyond.
pub proof fn law_next_stop_is_the_nearest(starts: Seq<Pos>, from: Pos)
    ensures
        match next_stop(starts, from) {
            None => forall|i: int| 0 <= i < starts.len() ==> !from.lt(#[trigger] starts[i]),
            Some(p) => starts.contains(p) && from.lt(p) && forall|i: int|
                0 <= i < starts.len() && from.lt(#[trigger] starts[i]) ==> p.le(starts[i]),
        },
    decreases starts.len(),
{
    if starts.len() > 0 {
        let d = starts.drop_last();
        law_next_stop_is_the_nearest(d, from);
        assert(starts[starts.len() - 1] == starts.last());
        assert(forall|i: int| 0 <= i < d.len() ==> #[trigger] starts[i] == d[i]);
        if let Some(b) = next_stop(d, from) {
            let k = choose|k: int| 0 <= k < d.len() && d[k] == b;
            assert(starts[k] == b);
        }
    }
}

/// The previous stop is the greatest one before, and there is none only where nothing lies before.
pub proof fn law_prev_stop_is_the_nearest(starts: Seq<Pos>, from: Pos)
    ensures
        match prev_stop(starts, from) {
            None => forall|i: int| 0 <= i < starts.len() ==> !(#[trigger] starts[i]).lt(from),
            Some(p) => starts.contains(p) && p.lt(from) && forall|i: int|
                0 <= i < starts.len() && (#[trigger] starts[i]).lt(from) ==> starts[i].le(p),
        },
    decreases starts.len(),
{
    if starts.len() > 0 {
        let d = starts.drop_last();
        law_prev_stop_is_the_nearest(d, from);
        assert(starts[starts.len() - 1] == starts.last());
        assert(forall|i: int| 0 <= i < d.len() ==> #[trigger] starts[i] == d[i]);
        if let Some(b) = prev_stop(d, from) {
            let k = choose|k: int| 0 <= k < d.len() && d[k] == b;
            assert(starts[k] == b);
        }
    }
}

/// From a stop, stepping on and back returns to it, and so does stepping back and on.
pub proof fn law_inline_steps_undo_each_other(starts: Seq<Pos>, from: Pos)
    requires
        starts.contains(from),
    ensures
        next_stop(starts, from) matches Some(p) ==> prev_stop(starts, p) == Some(from),
        prev_stop(starts, from) matches Some(p) ==> next_stop(starts, p) == Some(from),
{
    let k = choose|k: int| 0 <= k < starts.len() && starts[k] == from;
    law_next_stop_is_the_nearest(starts, from);
    law_prev_stop_is_the_nearest(starts, from);
    if let Some(p) = next_stop(starts, from) {
        law_prev_stop_is_the_nearest(starts, p);
        assert(starts[k].lt(p));
        let q = prev_stop(starts, p)->0;
        let m = choose|m: int| 0 <= m < starts.len() && starts[m] == q;
        assert(starts[m].lt(p));
    }
    if let Some(p) = prev_stop(starts, from) {
        law_next_stop_is_the_nearest(starts, p);
        assert(p.lt(starts[k]));
        let q = next_stop(starts, p)->0;
        let m = choose|m: int| 0 <= m < starts.len() && starts[m] == q;
        assert(p.lt(starts[m]));
    }
}

// ---------------------------------------------------------------------------
// Questions
// ---------------------------------------------------------------------------

/// Labels whose interior is not prose.
pub open spec fn verbatim_label(kind: Seq<char>) -> bool {
    kind == "code"@ || kind == "code-span"@ || kind == "html"@ || kind == "html-inline"@
}

fn is_verbatim(kind: &str) -> (r: bool)
    ensures
        r == verbatim_label(kind@),
{
    str_eq(kind, "code") || str_eq(kind, "code-span") || str_eq(kind, "html") || str_eq(
        kind,
        "html-inline",
    )
}

/// The outermost verbatim spans of `t`.
pub open spec fn verbatim(t: Tree) -> Seq<Span>
    decreases t, 0int,
{
    if verbatim_label(t.kind@) {
        seq![t.span]
    } else {
        verbatim_in(t.kids, t.kids.len() as int)
    }
}

pub open spec fn verbatim_in(kids: Seq<Tree>, n: int) -> Seq<Span>
    decreases kids, n,
{
    if n <= 0 || n > kids.len() {
        Seq::empty()
    } else {
        verbatim_in(kids, n - 1) + verbatim(kids[n - 1])
    }
}

fn verbatim_spans(n: &TreeNode, out: &mut Vec<Span>)
    ensures
        final(out)@ == old(out)@ + verbatim(n.shape()),
    decreases n,
{
    let ghost t = n.shape();
    let ghost start = out@;
    if is_verbatim(n.kind) {
        out.push(n.span);
        proof {
            assert(out@ =~= start + verbatim(t));
        }
        return;
    }
    let mut i: usize = 0;
    while i < n.children.len()
        invariant
            i <= n.children@.len(),
            t == n.shape(),
            out@ =~= start + verbatim_in(t.kids, i as int),
        decreases n.children@.len() - i,
    {
        proof {
            assert(t.kids[i as int] == n.children@[i as int].shape());
        }
        verbatim_spans(&n.children[i], out);
        i += 1;
    }
}

/// Characters allowed between a `?` and the end of the sentence.
pub open spec fn is_closer(c: char) -> bool {
    c == ')' || c == ']' || c == '}' || c == '"' || c == '\'' || c == '\u{bb}' || c == '\u{201d}' || c
        == '\u{2019}' || c == '*' || c == '_' || c == '~' || c == '`'
}

fn closer(c: char) -> (r: bool)
    ensures
        r == is_closer(c),
{
    c == ')' || c == ']' || c == '}' || c == '"' || c == '\'' || c == '\u{bb}' || c == '\u{201d}' || c
        == '\u{2019}' || c == '*' || c == '_' || c == '~' || c == '`'
}

/// Character `k` of a line is a `?` that ends a sentence: whitespace or the end of the line follows
/// it, perhaps through a run of closing punctuation.
pub open spec fn asks(text: Seq<char>, k: int) -> bool {
    let tail = strip_front(text.skip(k + 1), |c: char| is_closer(c));
    text[k] == '?' && (tail.len() == 0 || is_white(tail[0]))
}

pub open spec fn covered(skip: Seq<Span>, pos: Pos) -> bool {
    exists|i: int| 0 <= i < skip.len() && (#[trigger] skip[i]).has(pos)
}

/// The position of character `k` of a line.
pub open spec fn at_char(text: Seq<char>, line: int, k: int) -> Pos {
    Pos { line: line as usize, col: (offset(text, k) + 1) as usize }
}

/// The questions among the first `n` characters of a line, outside `skip`.
pub open spec fn line_questions(text: Seq<char>, line: int, n: int, skip: Seq<Span>) -> Seq<Pos>
    decreases n,
{
    if n <= 0 {
        Seq::empty()
    } else {
        let before = line_questions(text, line, n - 1, skip);
        let pos = at_char(text, line, n - 1);
        if asks(text, n - 1) && !covered(skip, pos) {
            before.push(pos)
        } else {
            before
        }
    }
}

/// The questions on the first `n` lines.
pub open spec fn questions_in(lines: Seq<Seq<char>>, n: int, skip: Seq<Span>) -> Seq<Pos>
    decreases n,
{
    if n <= 0 {
        Seq::empty()
    } else {
        questions_in(lines, n - 1, skip) + line_questions(
            lines[n - 1],
            n,
            lines[n - 1].len() as int,
            skip,
        )
    }
}

fn in_any(skip: &Vec<Span>, pos: Pos) -> (r: bool)
    ensures
        r == covered(skip@, pos),
{
    let mut i: usize = 0;
    while i < skip.len()
        invariant
            i <= skip@.len(),
            forall|j: int| 0 <= j < i ==> !(#[trigger] skip@[j]).has(pos),
        decreases skip@.len() - i,
    {
        if skip[i].contains(pos) {
            assert(skip@[i as int].has(pos));
            return true;
        }
        i += 1;
    }
    false
}

fn asks_at(l: &Laid, k: usize) -> (r: bool)
    requires
        l.wf(),
        k < l.text@.len(),
    ensures
        r == asks(l.text@, k as int),
{
    if l.chars[k] != '?' {
        return false;
    }
    let n: usize = l.chars.len();
    let mut j: usize = k + 1;
    while j < n && closer(l.chars[j])
        invariant
            l.wf(),
            n == l.text@.len(),
            k < j <= n,
            forall|i: int| k < i < j ==> is_closer(#[trigger] l.text@[i]),
        decreases n - j,
    {
        j += 1;
    }
    proof {
        let rest = l.text@.skip(k + 1);
        assert forall|i: int| 0 <= i < j - k - 1 implies is_closer(#[trigger] rest[i]) by {
            assert(rest[i] == l.text@[i + k + 1]);
        }
        lemma_strip_front(rest, |c: char| is_closer(c), j - k - 1);
    }
    j == n || white(l.chars[j])
}

/// Every `?` that ends a sentence, in document order, outside code and raw HTML.
///
/// Deliberately *not* a `?` followed by a word boundary, which selects `example.com?q=1`.
pub fn questions(root: &TreeNode, src: &str) -> (r: Vec<Pos>)
    ensures
        r@ == questions_in(lines_of(src@), lines_of(src@).len() as int, verbatim(root.shape())),
{
    let mut skip: Vec<Span> = Vec::new();
    verbatim_spans(root, &mut skip);
    proof {
        assert(skip@ =~= verbatim(root.shape()));
    }
    let lines = source_lines(src);
    let ghost ls = lines_of(src@);
    let mut out: Vec<Pos> = Vec::new();
    let mut i: usize = 0;
    while i < lines.len()
        invariant
            i <= lines@.len(),
            ls == slices(lines@),
            out@ =~= questions_in(ls, i as int, skip@),
        decreases lines@.len() - i,
    {
        let l = Laid::new(lines[i]);
        let n: usize = l.chars.len();
        let line: usize = i + 1;
        let ghost text = l.text@;
        let ghost before = out@;
        let mut k: usize = 0;
        proof {
            assert(ls[i as int] == text);
        }
        while k < n
            invariant
                l.wf(),
                text == l.text@,
                n == text.len(),
                k <= n,
                line == i + 1,
                out@ =~= before + line_questions(text, line as int, k as int, skip@),
            decreases n - k,
        {
            if asks_at(&l, k) {
                proof {
                    lemma_offset_step(text, k as int);
                    lemma_char_bytes('?');
                    lemma_offset_mono(text, k as int, k + 1);
                }
                let pos = Pos::new(line, l.offs[k + 1]);
                if !in_any(&skip, pos) {
                    out.push(pos);
                }
            }
            k += 1;
        }
        i += 1;
    }
    out
}

/// `p` is where character `k` of line `line` stands, and that character asks.
pub open spec fn names_question(lines: Seq<Seq<char>>, p: Pos, line: int, k: int) -> bool {
    &&& 1 <= line <= lines.len()
    &&& 0 <= k < lines[line - 1].len()
    &&& p == at_char(lines[line - 1], line, k)
    &&& asks(lines[line - 1], k)
}

/// Some `?` that ends a sentence stands at `p`, outside `skip`.
pub open spec fn asked(lines: Seq<Seq<char>>, skip: Seq<Span>, p: Pos) -> bool {
    !covered(skip, p) && exists|line: int, k: int| #[trigger] names_question(lines, p, line, k)
}

proof fn lemma_line_questions(lines: Seq<Seq<char>>, line: int, n: int, skip: Seq<Span>)
    requires
        1 <= line <= lines.len(),
        lines.len() <= usize::MAX,
        0 <= n <= lines[line - 1].len(),
        blen(lines[line - 1]) <= usize::MAX,
    ensures
        forall|i: int|
            0 <= i < line_questions(lines[line - 1], line, n, skip).len() ==> {
                let p = #[trigger] line_questions(lines[line - 1], line, n, skip)[i];
                !covered(skip, p) && p.line == line && exists|k: int|
                    k < n && #[trigger] names_question(lines, p, line, k)
            },
        forall|i: int, j: int|
            0 <= i < j < line_questions(lines[line - 1], line, n, skip).len() ==> (
            #[trigger] line_questions(lines[line - 1], line, n, skip)[i]).lt(
                #[trigger] line_questions(lines[line - 1], line, n, skip)[j],
            ),
    decreases n,
{
    if n > 0 {
        lemma_line_questions(lines, line, n - 1, skip);
        let text = lines[line - 1];
        let b = line_questions(text, line, n - 1, skip);
        let r = line_questions(text, line, n, skip);
        let pos = at_char(text, line, n - 1);
        assert forall|i: int| 0 <= i < r.len() implies {
            let p = #[trigger] r[i];
            !covered(skip, p) && p.line == line && exists|k: int|
                k < n && #[trigger] names_question(lines, p, line, k)
        } by {
            if i < b.len() {
                assert(b[i] == r[i]);
                let k = choose|k: int| k < n - 1 && #[trigger] names_question(lines, b[i], line, k);
                assert(names_question(lines, r[i], line, k));
            } else {
                assert(names_question(lines, pos, line, n - 1));
            }
        }
        assert forall|i: int, j: int| 0 <= i < j < r.len() implies (#[trigger] r[i]).lt(
            #[trigger] r[j],
        ) by {
            if j < b.len() {
                assert(b[i].lt(b[j]));
            } else {
                assert(b[i] == r[i]);
                let k = choose|k: int| k < n - 1 && #[trigger] names_question(lines, b[i], line, k);
                lemma_offset_mono(text, k, n - 1);
                lemma_offset_step(text, n - 1);
                lemma_offset_mono(text, n - 1, n);
                lemma_char_bytes(text[n - 1]);
            }
        }
    }
}

proof fn lemma_questions_in(lines: Seq<Seq<char>>, n: int, skip: Seq<Span>)
    requires
        0 <= n <= lines.len() <= usize::MAX,
        forall|i: int| 0 <= i < lines.len() ==> blen(#[trigger] lines[i]) <= usize::MAX,
    ensures
        forall|i: int|
            0 <= i < questions_in(lines, n, skip).len() ==> {
                let p = #[trigger] questions_in(lines, n, skip)[i];
                p.line <= n && asked(lines, skip, p)
            },
        forall|i: int, j: int|
            0 <= i < j < questions_in(lines, n, skip).len() ==> (#[trigger] questions_in(
                lines,
                n,
                skip,
            )[i]).lt(#[trigger] questions_in(lines, n, skip)[j]),
    decreases n,
{
    if n > 0 {
        lemma_questions_in(lines, n - 1, skip);
        lemma_line_questions(lines, n, lines[n - 1].len() as int, skip);
        let a = questions_in(lines, n - 1, skip);
        let b = line_questions(lines[n - 1], n, lines[n - 1].len() as int, skip);
        let r = questions_in(lines, n, skip);
        assert(r == a + b);
        assert forall|i: int| 0 <= i < r.len() implies {
            let p = #[trigger] r[i];
            p.line <= n && asked(lines, skip, p)
        } by {
            if i < a.len() {
                assert(a[i] == r[i]);
            } else {
                assert(b[i - a.len()] == r[i]);
                let k = choose|k: int|
                    k < lines[n - 1].len() && #[trigger] names_question(lines, r[i], n, k);
                assert(names_question(lines, r[i], n, k));
            }
        }
        assert forall|i: int, j: int| 0 <= i < j < r.len() implies (#[trigger] r[i]).lt(
            #[trigger] r[j],
        ) by {
            if j < a.len() {
                assert(a[i].lt(a[j]));
            } else if i >= a.len() {
                assert(b[i - a.len()].lt(b[j - a.len()]));
            } else {
                assert(a[i].line <= n - 1);
                assert(b[j - a.len()].line == n);
            }
        }
    }
}

/// Every reported question is a `?` of the text that ends a sentence outside the verbatim spans,
/// and they come in document order, none twice.
pub proof fn law_questions_name_a_question_mark(lines: Seq<Seq<char>>, skip: Seq<Span>)
    requires
        lines.len() <= usize::MAX,
        forall|i: int| 0 <= i < lines.len() ==> blen(#[trigger] lines[i]) <= usize::MAX,
    ensures
        forall|i: int|
            0 <= i < questions_in(lines, lines.len() as int, skip).len() ==> asked(
                lines,
                skip,
                #[trigger] questions_in(lines, lines.len() as int, skip)[i],
            ),
        forall|i: int, j: int|
            0 <= i < j < questions_in(lines, lines.len() as int, skip).len() ==> (
            #[trigger] questions_in(lines, lines.len() as int, skip)[i]).lt(
                #[trigger] questions_in(lines, lines.len() as int, skip)[j],
            ),
{
    lemma_questions_in(lines, lines.len() as int, skip);
}

// ---------------------------------------------------------------------------
// What the hierarchy and the questions leave out
// ---------------------------------------------------------------------------

/// `x` is the tree, or a part of it.
pub open spec fn occurs(t: Tree, x: Tree) -> bool
    decreases t,
{
    t == x || exists|i: int| 0 <= i < t.kids.len() && occurs(#[trigger] t.kids[i], x)
}

/// `x` is one of `kids`, or stands anywhere below them.
pub open spec fn anywhere(kids: Seq<MdTree>, x: MdTree) -> bool
    decreases kids,
{
    exists|i: int| 0 <= i < kids.len() && anywhere_at(#[trigger] kids[i], x)
}

pub open spec fn anywhere_at(t: MdTree, x: MdTree) -> bool
    decreases t,
{
    t == x || anywhere(t.kids, x)
}

/// One of the trees is `x`, or holds it.
pub open spec fn occurs_among(ts: Seq<Tree>, x: Tree) -> bool {
    exists|i: int| 0 <= i < ts.len() && occurs(#[trigger] ts[i], x)
}

proof fn lemma_occurs_more(a: Seq<Tree>, b: Seq<Tree>, x: Tree)
    requires
        occurs_among(a, x) || occurs_among(b, x),
    ensures
        occurs_among(a + b, x),
{
    if occurs_among(a, x) {
        let i = choose|i: int| 0 <= i < a.len() && occurs(#[trigger] a[i], x);
        assert(occurs((a + b)[i], x));
    } else {
        let i = choose|i: int| 0 <= i < b.len() && occurs(#[trigger] b[i], x);
        assert((a + b)[a.len() + i] == b[i]);
        assert(occurs((a + b)[a.len() + i], x));
    }
}

/// The part of the hierarchy that a labelled node becomes.
pub open spec fn as_tree(
    x: MdTree,
    kind: &'static str,
    lines: Seq<Seq<char>>,
    shift: Seq<Run>,
) -> Tree {
    Tree {
        kind,
        span: place(x.node, lines, shift),
        setext: x.node.name@ == "heading"@ && x.node.setext,
        kids: tree_of(x.kids, x.kids.len() as int, lines, shift),
    }
}

proof fn lemma_tree_holds(
    kids: Seq<MdTree>,
    n: int,
    lines: Seq<Seq<char>>,
    shift: Seq<Run>,
    i: int,
    x: MdTree,
    kind: &'static str,
)
    requires
        0 <= i < n <= kids.len(),
        anywhere_at(kids[i], x),
        label(x.node.name@) == Some(kind),
    ensures
        occurs_among(tree_of(kids, n, lines, shift), as_tree(x, kind, lines, shift)),
    decreases kids, n,
{
    let y = as_tree(x, kind, lines, shift);
    let t = kids[n - 1];
    let below = tree_of(t.kids, t.kids.len() as int, lines, shift);
    let own = match label(t.node.name@) {
        Some(k) => seq![as_tree(t, k, lines, shift)],
        None => below,
    };
    if i < n - 1 {
        lemma_tree_holds(kids, n - 1, lines, shift, i, x, kind);
    } else if t == x {
        assert(own[0] == y);
        assert(occurs(own[0], y));
    } else {
        let j = choose|j: int| 0 <= j < t.kids.len() && anywhere_at(#[trigger] t.kids[j], x);
        lemma_tree_holds(t.kids, t.kids.len() as int, lines, shift, j, x, kind);
        if let Some(k) = label(t.node.name@) {
            let m = choose|m: int| 0 <= m < below.len() && occurs(#[trigger] below[m], y);
            assert(own[0].kids == below);
            assert(occurs(own[0].kids[m], y));
            assert(occurs(own[0], y));
        }
    }
    lemma_occurs_more(tree_of(kids, n - 1, lines, shift), own, y);
}

/// Every node of a document that has a label is in the hierarchy, under that label, with everything
/// below it still below it. A block stands there where it was reported, within the file; an inline
/// node likewise, once both of its columns are columns of the source.
pub proof fn law_the_hierarchy_holds_every_labelled_node(
    kids: Seq<MdTree>,
    lines: Seq<Seq<char>>,
    x: MdTree,
    kind: &'static str,
)
    requires
        anywhere(kids, x),
        label(x.node.name@) == Some(kind),
    ensures
        exists|y: Tree| #[trigger]
            occurs(hierarchy(kids, lines), y) && y.kind == kind && y.kids == tree_of(
                x.kids,
                x.kids.len() as int,
                lines,
                shift_of(kids, lines),
            ) && (y.setext <==> x.node.name@ == "heading"@ && x.node.setext) && ({
                let shift = shift_of(kids, lines);
                let (s, e) = (x.node.at.start, x.node.at.end);
                &&& !inline_label(kind@) ==> y.span == bounded(x.node.at, lines)
                &&& inline_label(kind@) ==> y.span == bounded(
                    Span {
                        start: Pos {
                            line: s.line,
                            col: source_col(shift, s.line as int, s.col as int) as usize,
                        },
                        end: Pos {
                            line: e.line,
                            col: source_col(shift, e.line as int, e.col as int) as usize,
                        },
                    },
                    lines,
                )
            }),
{
    let shift = shift_of(kids, lines);
    let root = hierarchy(kids, lines);
    let y = as_tree(x, kind, lines, shift);
    let i = choose|i: int| 0 <= i < kids.len() && anywhere_at(#[trigger] kids[i], x);
    lemma_tree_holds(kids, kids.len() as int, lines, shift, i, x, kind);
    let m = choose|m: int| 0 <= m < root.kids.len() && occurs(#[trigger] root.kids[m], y);
    assert(occurs(root.kids[m], y));
    assert(occurs(root, y));
}

/// `x` is the tree or a part of it, and every node on the way to it, itself included, contains
/// `pos`.
pub open spec fn around_at(t: Tree, x: Tree, pos: Pos) -> bool
    decreases t,
{
    t.span.start.le(pos) && pos.le(t.span.end) && (t == x || exists|i: int|
        0 <= i < t.kids.len() && around_at(#[trigger] t.kids[i], x, pos))
}

proof fn lemma_around_kids_holds(kids: Seq<Tree>, n: int, pos: Pos, i: int, x: Tree)
    requires
        0 <= i < n <= kids.len(),
        around_at(kids[i], x, pos),
    ensures
        around_kids(kids, n, pos).contains((x.kind, x.span)),
    decreases kids, n,
{
    let e = (x.kind, x.span);
    let a = around_kids(kids, n - 1, pos);
    let b = around(kids[n - 1], pos);
    if i < n - 1 {
        lemma_around_kids_holds(kids, n - 1, pos, i, x);
        let k = choose|k: int| 0 <= k < a.len() && a[k] == e;
        assert((a + b)[k] == e);
    } else {
        lemma_around_holds(kids[i], pos, x);
        let k = choose|k: int| 0 <= k < b.len() && b[k] == e;
        assert((a + b)[a.len() + k] == e);
    }
}

proof fn lemma_around_holds(t: Tree, pos: Pos, x: Tree)
    requires
        around_at(t, x, pos),
    ensures
        around(t, pos).contains((x.kind, x.span)),
    decreases t, 0int,
{
    let e = (x.kind, x.span);
    let below = around_kids(t.kids, t.kids.len() as int, pos);
    let s = around(t, pos);
    if t == x {
        assert(s[s.len() - 1] == e);
    } else {
        let i = choose|i: int| 0 <= i < t.kids.len() && around_at(#[trigger] t.kids[i], x, pos);
        lemma_around_kids_holds(t.kids, t.kids.len() as int, pos, i, x);
        let k = choose|k: int| 0 <= k < below.len() && below[k] == e;
        assert(s[k] == e);
    }
}

proof fn lemma_around_from(t: Tree, pos: Pos, k: int) -> (x: Tree)
    requires
        0 <= k < around(t, pos).len(),
    ensures
        around_at(t, x, pos),
        around(t, pos)[k] == (x.kind, x.span),
    decreases t, 0int,
{
    let below = around_kids(t.kids, t.kids.len() as int, pos);
    if k == below.len() {
        t
    } else {
        let (i, x) = lemma_around_kids_from(t.kids, t.kids.len() as int, pos, k);
        assert(around_at(t.kids[i], x, pos));
        x
    }
}

proof fn lemma_around_kids_from(kids: Seq<Tree>, n: int, pos: Pos, k: int) -> (r: (int, Tree))
    requires
        0 <= n <= kids.len(),
        0 <= k < around_kids(kids, n, pos).len(),
    ensures
        0 <= r.0 < n,
        around_at(kids[r.0], r.1, pos),
        around_kids(kids, n, pos)[k] == (r.1.kind, r.1.span),
    decreases kids, n,
{
    let a = around_kids(kids, n - 1, pos);
    if k < a.len() {
        lemma_around_kids_from(kids, n - 1, pos, k)
    } else {
        (n - 1, lemma_around_from(kids[n - 1], pos, k - a.len()))
    }
}

proof fn lemma_collapse_keeps_spans(s: Seq<(&'static str, Span)>, i: int)
    requires
        0 <= i < s.len(),
    ensures
        exists|k: int| 0 <= k < collapse(s).len() && (#[trigger] collapse(s)[k]).1 == s[i].1,
    decreases s.len(),
{
    let d = s.drop_last();
    let c = collapse(d);
    let r = collapse(s);
    if i == s.len() - 1 {
        assert(r[r.len() - 1].1 == s[i].1);
    } else {
        lemma_collapse_keeps_spans(d, i);
        let k = choose|k: int| 0 <= k < c.len() && (#[trigger] c[k]).1 == d[i].1;
        assert(r[k].1 == s[i].1);
    }
}

/// No node around a position is missing from its containment stack, and nothing else is in it: the
/// span of every node that contains the position, and stands in nodes that do, is the span of an
/// entry, and every entry has the label and the span of such a node.
pub proof fn law_the_stack_is_the_nodes_around_a_position(root: Tree, pos: Pos)
    ensures
        forall|x: Tree| #[trigger]
            around_at(root, x, pos) ==> exists|k: int|
                0 <= k < collapse(around(root, pos)).len() && (#[trigger] collapse(
                    around(root, pos),
                )[k]).1 == x.span,
        forall|k: int|
            #![trigger collapse(around(root, pos))[k]]
            0 <= k < collapse(around(root, pos)).len() ==> exists|x: Tree| #[trigger]
                around_at(root, x, pos) && collapse(around(root, pos))[k] == (x.kind, x.span),
{
    let s = around(root, pos);
    let c = collapse(s);
    lemma_collapse(s);
    assert forall|x: Tree| #[trigger] around_at(root, x, pos) implies exists|k: int|
        0 <= k < c.len() && (#[trigger] c[k]).1 == x.span by {
        lemma_around_holds(root, pos, x);
        let i = choose|i: int| 0 <= i < s.len() && s[i] == (x.kind, x.span);
        lemma_collapse_keeps_spans(s, i);
    }
    assert forall|k: int| #![trigger c[k]] 0 <= k < c.len() implies exists|x: Tree| #[trigger]
        around_at(root, x, pos) && c[k] == (x.kind, x.span) by {
        assert(s.contains(c[k]));
        let i = choose|i: int| 0 <= i < s.len() && s[i] == c[k];
        let x = lemma_around_from(root, pos, i);
        assert(around_at(root, x, pos));
    }
}

/// A label of an inline node.
pub open spec fn names_inline(kind: Seq<char>) -> bool {
    kind == "code-span"@ || kind == "link"@ || kind == "image"@ || kind == "strong"@ || kind
        == "emph"@ || kind == "strike"@ || kind == "html-inline"@ || kind == "text"@
}

proof fn lemma_starts_hold(t: Tree, x: Tree)
    requires
        occurs(t, x),
        names_inline(x.kind@),
    ensures
        inline_starts(t).contains(x.span.start),
    decreases t, 0int,
{
    let below = inline_starts_in(t.kids, t.kids.len() as int);
    let s = inline_starts(t);
    if t == x {
        assert(s[0] == x.span.start);
    } else {
        let i = choose|i: int| 0 <= i < t.kids.len() && occurs(#[trigger] t.kids[i], x);
        lemma_starts_in_hold(t.kids, t.kids.len() as int, i, x);
        let k = choose|k: int| 0 <= k < below.len() && below[k] == x.span.start;
        assert(s[s.len() - below.len() + k] == x.span.start);
    }
}

proof fn lemma_starts_in_hold(kids: Seq<Tree>, n: int, i: int, x: Tree)
    requires
        0 <= i < n <= kids.len(),
        occurs(kids[i], x),
        names_inline(x.kind@),
    ensures
        inline_starts_in(kids, n).contains(x.span.start),
    decreases kids, n,
{
    let a = inline_starts_in(kids, n - 1);
    let b = inline_starts(kids[n - 1]);
    if i < n - 1 {
        lemma_starts_in_hold(kids, n - 1, i, x);
        let k = choose|k: int| 0 <= k < a.len() && a[k] == x.span.start;
        assert((a + b)[k] == x.span.start);
    } else {
        lemma_starts_hold(kids[i], x);
        let k = choose|k: int| 0 <= k < b.len() && b[k] == x.span.start;
        assert((a + b)[a.len() + k] == x.span.start);
    }
}

proof fn lemma_start_from(t: Tree, k: int) -> (x: Tree)
    requires
        0 <= k < inline_starts(t).len(),
    ensures
        occurs(t, x),
        names_inline(x.kind@),
        x.span.start == inline_starts(t)[k],
    decreases t, 0int,
{
    let below = inline_starts_in(t.kids, t.kids.len() as int);
    let extra = inline_starts(t).len() - below.len();
    if k < extra {
        t
    } else {
        let (i, x) = lemma_start_in_from(t.kids, t.kids.len() as int, k - extra);
        assert(occurs(t.kids[i], x));
        x
    }
}

proof fn lemma_start_in_from(kids: Seq<Tree>, n: int, k: int) -> (r: (int, Tree))
    requires
        0 <= n <= kids.len(),
        0 <= k < inline_starts_in(kids, n).len(),
    ensures
        0 <= r.0 < n,
        occurs(kids[r.0], r.1),
        names_inline(r.1.kind@),
        r.1.span.start == inline_starts_in(kids, n)[k],
    decreases kids, n,
{
    let a = inline_starts_in(kids, n - 1);
    if k < a.len() {
        lemma_start_in_from(kids, n - 1, k)
    } else {
        (n - 1, lemma_start_from(kids[n - 1], k - a.len()))
    }
}

/// An inline motion stops at the start of every inline node of the hierarchy, however deep it
/// stands, and nowhere else.
pub proof fn law_inline_stops_are_the_inline_nodes(t: Tree, p: Pos)
    ensures
        inline_starts(t).contains(p) <==> exists|x: Tree| #[trigger]
            occurs(t, x) && names_inline(x.kind@) && x.span.start == p,
{
    let s = inline_starts(t);
    if s.contains(p) {
        let k = choose|k: int| 0 <= k < s.len() && s[k] == p;
        let x = lemma_start_from(t, k);
        assert(occurs(t, x));
    }
    if exists|x: Tree| #[trigger] occurs(t, x) && names_inline(x.kind@) && x.span.start == p {
        let x = choose|x: Tree| #[trigger]
            occurs(t, x) && names_inline(x.kind@) && x.span.start == p;
        lemma_starts_hold(t, x);
    }
}

/// A label whose text is not prose.
pub open spec fn names_verbatim(kind: Seq<char>) -> bool {
    kind == "code"@ || kind == "code-span"@ || kind == "html"@ || kind == "html-inline"@
}

/// One of the spans is that of a verbatim node of `t` that is `x` or holds it.
pub open spec fn verbatim_over(spans: Seq<Span>, t: Tree, x: Tree) -> bool {
    exists|a: Tree|
        occurs(t, a) && names_verbatim(a.kind@) && spans.contains(a.span) && #[trigger] occurs(a, x)
}

proof fn lemma_verbatim_holds(t: Tree, x: Tree)
    requires
        occurs(t, x),
        names_verbatim(x.kind@),
    ensures
        verbatim_over(verbatim(t), t, x),
    decreases t, 0int,
{
    if names_verbatim(t.kind@) {
        assert(verbatim(t)[0] == t.span);
        assert(occurs(t, x));
        assert(occurs(t, t));
    } else {
        let i = choose|i: int| 0 <= i < t.kids.len() && occurs(#[trigger] t.kids[i], x);
        let a = lemma_verbatim_in_holds(t.kids, t.kids.len() as int, i, x);
        assert(occurs(t.kids[i], a));
        assert(occurs(t, a));
        assert(occurs(a, x));
    }
}

proof fn lemma_verbatim_in_holds(kids: Seq<Tree>, n: int, i: int, x: Tree) -> (a: Tree)
    requires
        0 <= i < n <= kids.len(),
        occurs(kids[i], x),
        names_verbatim(x.kind@),
    ensures
        occurs(kids[i], a),
        occurs(a, x),
        names_verbatim(a.kind@),
        verbatim_in(kids, n).contains(a.span),
    decreases kids, n,
{
    let b = verbatim_in(kids, n - 1);
    let c = verbatim(kids[n - 1]);
    if i < n - 1 {
        let a = lemma_verbatim_in_holds(kids, n - 1, i, x);
        let k = choose|k: int| 0 <= k < b.len() && b[k] == a.span;
        assert((b + c)[k] == a.span);
        a
    } else {
        lemma_verbatim_holds(kids[i], x);
        let a = choose|a: Tree|
            occurs(kids[i], a) && names_verbatim(a.kind@) && c.contains(a.span) && #[trigger] occurs(
                a,
                x,
            );
        let k = choose|k: int| 0 <= k < c.len() && c[k] == a.span;
        assert((b + c)[b.len() + k] == a.span);
        a
    }
}

proof fn lemma_verbatim_from(t: Tree, k: int) -> (x: Tree)
    requires
        0 <= k < verbatim(t).len(),
    ensures
        occurs(t, x),
        names_verbatim(x.kind@),
        x.span == verbatim(t)[k],
    decreases t, 0int,
{
    if verbatim_label(t.kind@) {
        t
    } else {
        let (i, x) = lemma_verbatim_in_from(t.kids, t.kids.len() as int, k);
        assert(occurs(t.kids[i], x));
        x
    }
}

proof fn lemma_verbatim_in_from(kids: Seq<Tree>, n: int, k: int) -> (r: (int, Tree))
    requires
        0 <= n <= kids.len(),
        0 <= k < verbatim_in(kids, n).len(),
    ensures
        0 <= r.0 < n,
        occurs(kids[r.0], r.1),
        names_verbatim(r.1.kind@),
        r.1.span == verbatim_in(kids, n)[k],
    decreases kids, n,
{
    let a = verbatim_in(kids, n - 1);
    if k < a.len() {
        lemma_verbatim_in_from(kids, n - 1, k)
    } else {
        (n - 1, lemma_verbatim_from(kids[n - 1], k - a.len()))
    }
}

/// What is not read for questions is the code and the raw HTML of a document, all of it and nothing
/// else: each such node is one of the spans that are passed over or lies in one that is.
pub proof fn law_code_and_html_are_passed_over(t: Tree)
    ensures
        forall|x: Tree| #[trigger]
            occurs(t, x) && names_verbatim(x.kind@) ==> verbatim_over(verbatim(t), t, x),
        forall|span: Span| #[trigger]
            verbatim(t).contains(span) ==> exists|x: Tree| #[trigger]
                occurs(t, x) && names_verbatim(x.kind@) && x.span == span,
{
    assert forall|x: Tree| #[trigger] occurs(t, x) && names_verbatim(x.kind@) implies verbatim_over(
        verbatim(t),
        t,
        x,
    ) by {
        lemma_verbatim_holds(t, x);
    }
    assert forall|span: Span| #[trigger] verbatim(t).contains(span) implies exists|x: Tree| #[trigger]
        occurs(t, x) && names_verbatim(x.kind@) && x.span == span by {
        let k = choose|k: int| 0 <= k < verbatim(t).len() && verbatim(t)[k] == span;
        let x = lemma_verbatim_from(t, k);
        assert(occurs(t, x));
    }
}

/// A bracket, a quotation mark or the end of an emphasis, as it may stand between a `?` and the end
/// of its sentence.
pub open spec fn closes(c: char) -> bool {
    c == ')' || c == ']' || c == '}' || c == '"' || c == '\'' || c == '\u{bb}' || c == '\u{201d}' || c
        == '\u{2019}' || c == '*' || c == '_' || c == '~' || c == '`'
}

/// Character `k` is a `?`, and only closing punctuation stands between it and `m`, which is the end
/// of the line or a white space.
pub open spec fn ends_a_question(text: Seq<char>, k: int, m: int) -> bool {
    &&& 0 <= k < m <= text.len()
    &&& text[k] == '?'
    &&& forall|j: int| k < j < m ==> closes(#[trigger] text[j])
    &&& m == text.len() || is_white(text[m])
}

proof fn lemma_asks(text: Seq<char>, k: int)
    requires
        0 <= k < text.len(),
    ensures
        asks(text, k) <==> exists|m: int| #[trigger] ends_a_question(text, k, m),
{
    let rest = text.skip(k + 1);
    let p = |c: char| is_closer(c);
    if exists|m: int| #[trigger] ends_a_question(text, k, m) {
        let m = choose|m: int| #[trigger] ends_a_question(text, k, m);
        let n = m - k - 1;
        assert forall|i: int| 0 <= i < n implies p(#[trigger] rest[i]) by {
            assert(rest[i] == text[i + k + 1]);
            assert(closes(text[i + k + 1]));
        }
        if m < text.len() {
            assert(rest[n] == text[m]);
            assert(!p(text[m]));
        }
        lemma_strip_front(rest, p, n);
        if m < text.len() {
            assert(rest.skip(n)[0] == text[m]);
        }
    }
    if asks(text, k) {
        crate::text::lemma_front_run_exists(rest, p);
        let n = crate::text::front_run(rest, p);
        let tail = strip_front(rest, p);
        assert(tail =~= rest.skip(n));
        let m = k + 1 + n;
        assert forall|j: int| k < j < m implies closes(#[trigger] text[j]) by {
            assert(text[j] == rest[j - k - 1]);
            assert(p(rest[j - k - 1]));
        }
        if m < text.len() {
            assert(tail[0] == text[m]);
        }
        assert(ends_a_question(text, k, m));
    }
}

proof fn lemma_line_questions_hold(text: Seq<char>, line: int, n: int, skip: Seq<Span>, k: int)
    requires
        0 <= k < n,
        asks(text, k),
        forall|i: int|
            0 <= i < skip.len() ==> !((#[trigger] skip[i]).start.le(at_char(text, line, k)) && at_char(
                text,
                line,
                k,
            ).le(skip[i].end)),
    ensures
        line_questions(text, line, n, skip).contains(at_char(text, line, k)),
    decreases n,
{
    let p = at_char(text, line, k);
    let b = line_questions(text, line, n - 1, skip);
    let r = line_questions(text, line, n, skip);
    if k < n - 1 {
        lemma_line_questions_hold(text, line, n - 1, skip, k);
        let j = choose|j: int| 0 <= j < b.len() && b[j] == p;
        assert(r[j] == p);
    } else {
        assert(r[r.len() - 1] == p);
    }
}

proof fn lemma_questions_hold(lines: Seq<Seq<char>>, n: int, skip: Seq<Span>, line: int, p: Pos)
    requires
        1 <= line <= n <= lines.len(),
        line_questions(lines[line - 1], line, lines[line - 1].len() as int, skip).contains(p),
    ensures
        questions_in(lines, n, skip).contains(p),
    decreases n,
{
    let a = questions_in(lines, n - 1, skip);
    let b = line_questions(lines[n - 1], n, lines[n - 1].len() as int, skip);
    if line < n {
        lemma_questions_hold(lines, n - 1, skip, line, p);
        let k = choose|k: int| 0 <= k < a.len() && a[k] == p;
        assert((a + b)[k] == p);
    } else {
        let k = choose|k: int| 0 <= k < b.len() && b[k] == p;
        assert((a + b)[a.len() + k] == p);
    }
}

/// No question is missed: every `?` of the text that ends a sentence -- the end of the line or a
/// white space follows it, perhaps through closing punctuation -- and stands in none of the spans
/// that are passed over is reported, at its own place.
pub proof fn law_no_question_is_missed(
    lines: Seq<Seq<char>>,
    skip: Seq<Span>,
    line: int,
    k: int,
    m: int,
)
    requires
        1 <= line <= lines.len() <= usize::MAX,
        blen(lines[line - 1]) <= usize::MAX,
        ends_a_question(lines[line - 1], k, m),
        forall|i: int|
            0 <= i < skip.len() ==> !((#[trigger] skip[i]).start.le(
                Pos { line: line as usize, col: (offset(lines[line - 1], k) + 1) as usize },
            ) && (Pos { line: line as usize, col: (offset(lines[line - 1], k) + 1) as usize }).le(
                skip[i].end,
            )),
    ensures
        questions_in(lines, lines.len() as int, skip).contains(
            Pos { line: line as usize, col: (offset(lines[line - 1], k) + 1) as usize },
        ),
{
    let text = lines[line - 1];
    lemma_asks(text, k);
    lemma_line_questions_hold(text, line, text.len() as int, skip, k);
    lemma_questions_hold(lines, lines.len() as int, skip, line, at_char(text, line, k));
}

/// Nothing else is reported: where a question is, a `?` of that line stands, ends a sentence, and is
/// in none of the spans that are passed over.
pub proof fn law_only_questions_are_reported(lines: Seq<Seq<char>>, skip: Seq<Span>, p: Pos)
    requires
        lines.len() <= usize::MAX,
        forall|i: int| 0 <= i < lines.len() ==> blen(#[trigger] lines[i]) <= usize::MAX,
        questions_in(lines, lines.len() as int, skip).contains(p),
    ensures
        1 <= p.line <= lines.len(),
        exists|k: int, m: int| #[trigger]
            ends_a_question(lines[p.line - 1], k, m) && p.col == offset(lines[p.line - 1], k) + 1,
        forall|i: int|
            0 <= i < skip.len() ==> !((#[trigger] skip[i]).start.le(p) && p.le(skip[i].end)),
{
    law_questions_name_a_question_mark(lines, skip);
    let qs = questions_in(lines, lines.len() as int, skip);
    let i = choose|i: int| 0 <= i < qs.len() && qs[i] == p;
    assert(asked(lines, skip, qs[i]));
    let (line, k) = choose|line: int, k: int| #[trigger] names_question(lines, p, line, k);
    let text = lines[line - 1];
    lemma_asks(text, k);
    let m = choose|m: int| #[trigger] ends_a_question(text, k, m);
    lemma_offset_mono(text, k, k + 1);
    lemma_offset_mono(text, k + 1, text.len() as int);
    crate::text::lemma_offset_ends(text);
    lemma_offset_step(text, k);
    lemma_char_bytes(text[k]);
    assert(ends_a_question(lines[p.line - 1], k, m));
}

// ---- positions within the file ----

/// A span that lies in the file is taken as it was reported. One that the start of a line ends, with
/// a column 0 there, ends with the last byte of the line before. Whatever was reported, the span
/// that is taken lies on lines of the file, starts in a column and does not run backwards.
pub proof fn law_a_span_in_the_file_is_taken_as_it_is(at: Span, lines: Seq<Seq<char>>)
    requires
        1 <= lines.len() <= usize::MAX,
        forall|i: int| 0 <= i < lines.len() ==> blen(#[trigger] lines[i]) <= usize::MAX,
    ensures
        1 <= at.start.line <= at.end.line <= lines.len() && at.start.col >= 1 && 1 <= at.end.col
            && at.end.col <= blen(lines[at.end.line - 1]) && (at.start.line == at.end.line
            ==> at.start.col <= at.end.col) ==> bounded(at, lines) == at,
        1 <= at.start.line < at.end.line <= lines.len() + 1 && at.start.col >= 1 && at.end.col == 0
            && (at.start.line + 1 == at.end.line ==> at.start.col <= blen(lines[at.start.line - 1]))
            ==> bounded(at, lines).start == at.start && bounded(at, lines).end.line == at.end.line - 1
            && (blen(lines[at.end.line - 2]) > 0 ==> bounded(at, lines).end.col == blen(
            lines[at.end.line - 2],
        )) && (blen(lines[at.end.line - 2]) == 0 ==> bounded(at, lines).end.col == 1),
        1 <= bounded(at, lines).start.line <= bounded(at, lines).end.line <= lines.len(),
        bounded(at, lines).start.col >= 1,
        bounded(at, lines).start.le(bounded(at, lines).end),
{
}

// ---- dropped backslashes ----

proof fn lemma_past_dropped(dropped: Seq<int>, col: int)
    requires
        forall|i: int, j: int|
            0 <= i < j < dropped.len() ==> #[trigger] dropped[i] < #[trigger] dropped[j],
        0 <= col,
        col + dropped.len() <= usize::MAX,
    ensures
        0 <= past_dropped(dropped, col) - col <= dropped.len(),
        forall|i: int|
            0 <= i < past_dropped(dropped, col) - col ==> #[trigger] dropped[i] < past_dropped(
                dropped,
                col,
            ),
        past_dropped(dropped, col) - col < dropped.len() ==> past_dropped(dropped, col)
            < dropped[past_dropped(dropped, col) - col],
    decreases dropped.len(),
{
    if dropped.len() > 0 && dropped[0] <= col && col < usize::MAX {
        let d = dropped.drop_first();
        assert forall|i: int, j: int| 0 <= i < j < d.len() implies #[trigger] d[i] < #[trigger] d[j] by {
            assert(dropped[i + 1] < dropped[j + 1]);
        }
        lemma_past_dropped(d, col + 1);
        let r = past_dropped(dropped, col);
        assert forall|i: int| 0 <= i < r - col implies #[trigger] dropped[i] < r by {
            if i > 0 {
                assert(dropped[i] == d[i - 1]);
            }
        }
    }
}

proof fn lemma_run_at(runs: Seq<Run>, line: int, col: int, i: int)
    requires
        0 <= i < runs.len(),
        runs[i].line == line && runs[i].start <= col,
        forall|j: int|
            i < j < runs.len() ==> (#[trigger] runs[j]).line > line || (runs[j].line == line
                && runs[j].start > col),
    ensures
        run_at(runs, line, col) == Some(runs[i]),
    decreases runs.len(),
{
    if i < runs.len() - 1 {
        assert(runs.last() == runs[runs.len() - 1]);
        lemma_run_at(runs.drop_last(), line, col, i);
    }
}

/// A column of a run counts the text without the dropped backslashes, and the source column it
/// stands for counts them too: exactly as many of them stand before the source column as it lies
/// further right, and it is none of theirs.
pub proof fn law_a_corrected_column_counts_the_backslashes(
    runs: Seq<Run>,
    i: int,
    line: int,
    col: int,
)
    requires
        0 <= i < runs.len(),
        runs[i].line == line,
        runs[i].start <= col <= runs[i].end,
        forall|j: int|
            i < j < runs.len() ==> (#[trigger] runs[j]).line > line || (runs[j].line == line
                && runs[j].start > col),
        forall|j: int, k: int|
            0 <= j < k < runs[i].dropped.len() ==> #[trigger] runs[i].dropped[j]
                < #[trigger] runs[i].dropped[k],
        0 <= col,
        col + runs[i].dropped.len() <= usize::MAX,
    ensures
        ({
            let r = source_col(runs, line, col);
            let d = runs[i].dropped;
            &&& 0 <= r - col <= d.len()
            &&& forall|j: int| 0 <= j < r - col ==> #[trigger] d[j] < r
            &&& forall|j: int| r - col <= j < d.len() ==> #[trigger] d[j] > r
        }),
{
    lemma_run_at(runs, line, col, i);
    lemma_past_dropped(runs[i].dropped, col);
}

proof fn lemma_dropped_from(s: Seq<char>, k: int, i: int)
    requires
        0 <= k <= i,
        i + 1 < s.len(),
        s[i] == '\\',
        s[i + 1] == '|',
        i == 0 || s[i - 1] != '\\',
        k == 0 || k < i || k == i,
    ensures
        dropped_from(s, k).contains(offset(s, i + 1)),
    decreases s.len() - k,
{
    let r = dropped_from(s, k);
    let at = offset(s, i + 1);
    if k == i {
        assert(r[0] == at);
    } else if s[k] == '\\' {
        assert(k + 1 != i);
        lemma_dropped_from(s, k + 2, i);
        let rest = dropped_from(s, k + 2);
        let j = choose|j: int| 0 <= j < rest.len() && rest[j] == at;
        if s[k + 1] == '|' {
            assert(r[j + 1] == at);
        }
    } else {
        lemma_dropped_from(s, k + 1, i);
    }
}

proof fn lemma_dropped_is(s: Seq<char>, k: int, j: int) -> (i: int)
    requires
        0 <= k,
        0 <= j < dropped_from(s, k).len(),
    ensures
        k <= i,
        i + 1 < s.len(),
        s[i] == '\\',
        s[i + 1] == '|',
        dropped_from(s, k)[j] == offset(s, i + 1),
    decreases s.len() - k,
{
    if s[k] == '\\' {
        if s[k + 1] == '|' {
            if j == 0 {
                k
            } else {
                lemma_dropped_is(s, k + 2, j - 1)
            }
        } else {
            lemma_dropped_is(s, k + 2, j)
        }
    } else {
        lemma_dropped_is(s, k + 1, j)
    }
}

/// Every `\|` of a line whose backslash is not itself behind a backslash loses it, and nothing but
/// the backslash of a `\|` is ever dropped.
pub proof fn law_escaped_pipes_lose_their_backslash(s: Seq<char>)
    ensures
        forall|i: int|
            0 <= i && i + 1 < s.len() && #[trigger] s[i] == '\\' && s[i + 1] == '|' && (i == 0 || s[i
                - 1] != '\\') ==> dropped_from(s, 0).contains(offset(s, i + 1)),
        forall|d: int| #[trigger]
            dropped_from(s, 0).contains(d) ==> exists|i: int|
                0 <= i && i + 1 < s.len() && #[trigger] s[i] == '\\' && s[i + 1] == '|' && d
                    == offset(s, i + 1),
{
    assert forall|i: int|
        0 <= i && i + 1 < s.len() && #[trigger] s[i] == '\\' && s[i + 1] == '|' && (i == 0 || s[i - 1]
            != '\\') implies dropped_from(s, 0).contains(offset(s, i + 1)) by {
        lemma_dropped_from(s, 0, i);
    }
    assert forall|d: int| #[trigger] dropped_from(s, 0).contains(d) implies exists|i: int|
        0 <= i && i + 1 < s.len() && #[trigger] s[i] == '\\' && s[i + 1] == '|' && d == offset(
            s,
            i + 1,
        ) by {
        let j = choose|j: int| 0 <= j < dropped_from(s, 0).len() && dropped_from(s, 0)[j] == d;
        let i = lemma_dropped_is(s, 0, j);
        assert(s[i] == '\\');
    }
}

// ---- no unit from nowhere ----

/// The unit comes from block `x`: an item gives a unit that starts where it does, a table one that
/// starts where one of its rows does, any other block one that is all of it, under its own label.
pub open spec fn comes_from(u: Block, x: MdTree, lines: Seq<Seq<char>>) -> bool {
    let name = x.node.name@;
    let own = bounded(x.node.at, lines);
    if is_item_name(name) {
        u.kind@ == "list-item"@ && u.span.start == own.start
    } else if name == "table"@ {
        u.kind@ == "table-row"@ && u.level == 0 && exists|r: int|
            0 <= r < x.kids.len() && u.span.start == bounded(
                (#[trigger] x.kids[r]).node.at,
                lines,
            ).start
    } else {
        u.span == own && label(name) == Some(u.kind) && (name != "heading"@ ==> u.level == 0)
    }
}

proof fn lemma_flat_from(
    kids: Seq<MdTree>,
    n: int,
    lines: Seq<Seq<char>>,
    depth: usize,
    k: int,
) -> (r: (int, MdTree))
    requires
        0 <= n <= kids.len(),
        0 <= k < flat(kids, n, lines, depth).len(),
    ensures
        0 <= r.0 < n,
        held_at(kids[r.0], r.1),
        comes_from(flat(kids, n, lines, depth)[k], r.1, lines),
    decreases kids, n,
{
    let a = flat(kids, n - 1, lines, depth);
    if k < a.len() {
        lemma_flat_from(kids, n - 1, lines, depth, k)
    } else {
        (n - 1, lemma_child_from(kids[n - 1], lines, depth, k - a.len()))
    }
}

proof fn lemma_child_from(t: MdTree, lines: Seq<Seq<char>>, depth: usize, k: int) -> (x: MdTree)
    requires
        0 <= k < flat_child(t, lines, depth).len(),
    ensures
        held_at(t, x),
        comes_from(flat_child(t, lines, depth)[k], x, lines),
    decreases t, 0int,
{
    lemma_names();
    let name = t.node.name@;
    assert(holds_items(name) == is_list_name(name));
    if is_passage_name(name) {
        let (i, x) = lemma_flat_from(t.kids, t.kids.len() as int, lines, depth, k);
        assert(held_at(t.kids[i], x));
        assert(held(t.kids, x));
        x
    } else if is_item_name(name) {
        if k == 0 {
            t
        } else {
            let end = item_span(t, lines).end.line as int;
            let (i, x) = lemma_rest_from(t.kids, t.kids.len() as int, end, lines, depth, k - 1);
            assert(held_at(t.kids[i], x));
            assert(held(t.kids, x));
            x
        }
    } else {
        if name == "table"@ {
            assert(flat_child(t, lines, depth)[k].span.start == bounded(t.kids[k].node.at, lines).start);
        }
        t
    }
}

proof fn lemma_rest_from(
    kids: Seq<MdTree>,
    n: int,
    end: int,
    lines: Seq<Seq<char>>,
    depth: usize,
    k: int,
) -> (r: (int, MdTree))
    requires
        0 <= n <= kids.len(),
        0 <= k < flat_rest(kids, n, end, lines, depth).len(),
    ensures
        0 <= r.0 < n,
        held_at(kids[r.0], r.1),
        comes_from(flat_rest(kids, n, end, lines, depth)[k], r.1, lines),
    decreases kids, n,
{
    lemma_names();
    let t = kids[n - 1];
    let a = flat_rest(kids, n - 1, end, lines, depth);
    assert(holds_items(t.node.name@) == is_list_name(t.node.name@));
    if k < a.len() {
        lemma_rest_from(kids, n - 1, end, lines, depth, k)
    } else if holds_items(t.node.name@) {
        let (i, x) = lemma_flat_from(t.kids, t.kids.len() as int, lines, deeper(depth), k - a.len());
        assert(held_at(t.kids[i], x));
        assert(held(t.kids, x));
        (n - 1, x)
    } else {
        (n - 1, lemma_child_from(t, lines, depth, k - a.len()))
    }
}

/// No unit is made up: every unit of a document comes from one of its blocks.
pub proof fn law_every_unit_comes_from_a_block(kids: Seq<MdTree>, lines: Seq<Seq<char>>, j: int)
    requires
        0 <= j < units(kids, lines).len(),
    ensures
        exists|x: MdTree| #[trigger] held(kids, x) && comes_from(units(kids, lines)[j], x, lines),
{
    broadcast use vstd::seq_lib::group_to_multiset_ensures;

    let f = flat(kids, kids.len() as int, lines, 0);
    let s = sort_by(f, block_le());
    law_sort_orders_the_same_items(f, block_le());
    assert(s.contains(s[j]));
    assert(s.to_multiset().count(s[j]) > 0);
    assert(f.contains(s[j]));
    let k = choose|k: int| 0 <= k < f.len() && f[k] == s[j];
    let (i, x) = lemma_flat_from(kids, kids.len() as int, lines, 0, k);
    assert(held_at(kids[i], x));
    assert(held(kids, x));
    assert(comes_from(units(kids, lines)[j], x, lines));
}

/// The bytes of a line that a span covers are those at positions between its start and its end.
pub proof fn law_a_span_covers_the_bytes_between_its_ends(span: Span, line: int, len: int, b: int)
    requires
        0 <= b < len,
        span.start.le(span.end),
        span.start.col >= 1,
        0 <= line <= usize::MAX,
        len < usize::MAX,
    ensures
        (span.bytes_on(line, len) matches Some(r) && r.0 <= b < r.1) <==> span.start.le(
            Pos { line: line as usize, col: (b + 1) as usize },
        ) && (Pos { line: line as usize, col: (b + 1) as usize }).le(span.end),
        span.bytes_on(line, len) is Some <==> span.start.line <= line <= span.end.line,
{
}

proof fn lemma_feeds_of_plain(s: Seq<char>)
    requires
        forall|i: int| 0 <= i < s.len() ==> #[trigger] s[i] != '\r',
    ensures
        with_line_feeds(s) == s,
    decreases s.len(),
{
    if s.len() > 0 {
        lemma_feeds_of_plain(s.drop_first());
        assert(seq![s[0]] + s.drop_first() =~= s);
    } else {
        assert(s =~= Seq::<char>::empty());
    }
}

/// The lines of a text without carriage returns are what stands between its line feeds, the last
/// feed aside: with line feeds between them they are the text again. An empty text has none.
pub proof fn law_lines_are_what_stands_between_the_feeds(s: Seq<char>)
    requires
        forall|i: int| 0 <= i < s.len() ==> #[trigger] s[i] != '\r',
    ensures
        s.len() == 0 ==> lines_of(s).len() == 0,
        s.len() > 0 && s.last() != '\n' ==> crate::text::join(lines_of(s), seq!['\n']) == s,
        s.len() > 0 && s.last() == '\n' ==> crate::text::join(lines_of(s), seq!['\n'])
            == s.drop_last(),
{
    law_lines_agree_with_normalising_first(s);
    lemma_feeds_of_plain(s);
    crate::text::law_pieces_are_what_lies_between(without_last_feed(s), '\n');
}

/// A carriage return, alone or before a line feed, ends a line as a line feed does: the lines of
/// what follows it are the lines that follow.
pub proof fn law_every_ending_ends_a_line(head: Seq<char>, ending: Seq<char>, rest: Seq<char>)
    requires
        forall|i: int| 0 <= i < head.len() ==> #[trigger] head[i] != '\r' && head[i] != '\n',
        ending == seq!['\n'] || ending == seq!['\r', '\n'] || (ending == seq!['\r'] && (rest.len()
            == 0 || rest[0] != '\n')),
    ensures
        lines_of(head + ending + rest) == seq![head] + lines_of(rest),
{
    let s = head + ending + rest;
    let n = head.len() as int;
    assert forall|i: int| 0 <= i < n implies !ends_line(#[trigger] s[i]) by {
        assert(s[i] == head[i]);
    }
    assert(s[n] == ending[0]);
    lemma_first_line_len(s, n);
    if n + 1 < s.len() {
        if ending.len() == 2 {
            assert(s[n + 1] == ending[1]);
        } else {
            assert(s[n + 1] == rest[0]);
        }
    }
    assert(s.take(n) =~= head);
    assert(s.skip(n + ending.len()) =~= rest);
}

/// Each kind of node goes by one label: blocks, list items with and without a checkbox, and the
/// inline nodes that a selection narrows onto.
pub proof fn law_every_kind_of_node_has_its_label()
    ensures
        label("paragraph"@) == Some("paragraph"),
        label("heading"@) == Some("heading"),
        label("code_block"@) == Some("code"),
        label("html_block"@) == Some("html"),
        label("thematic_break"@) == Some("hr"),
        label("table"@) == Some("table"),
        label("table_row"@) == Some("table-row"),
        label("table_cell"@) == Some("table-cell"),
        label("block_quote"@) == Some("blockquote"),
        label("footnote_definition"@) == Some("footnote"),
        label("item"@) == Some("list-item"),
        label("taskitem"@) == Some("list-item"),
        label("list"@) == Some("list"),
        label("code"@) == Some("code-span"),
        label("link"@) == Some("link"),
        label("image"@) == Some("image"),
        label("strong"@) == Some("strong"),
        label("emph"@) == Some("emph"),
        label("strikethrough"@) == Some("strike"),
        label("html_inline"@) == Some("html-inline"),
        label("text"@) == Some("text"),
{
    reveal_strlit("paragraph");
    reveal_strlit("heading");
    reveal_strlit("code_block");
    reveal_strlit("html_block");
    reveal_strlit("thematic_break");
    reveal_strlit("table");
    reveal_strlit("table_row");
    reveal_strlit("table_cell");
    reveal_strlit("block_quote");
    reveal_strlit("footnote_definition");
    reveal_strlit("item");
    reveal_strlit("taskitem");
    reveal_strlit("list");
    reveal_strlit("code");
    reveal_strlit("link");
    reveal_strlit("image");
    reveal_strlit("strong");
    reveal_strlit("emph");
    reveal_strlit("strikethrough");
    reveal_strlit("html_inline");
    reveal_strlit("text");
    assert("paragraph"@.len() == 9);
    assert("heading"@.len() == 7);
    assert("code_block"@.len() == 10);
    assert("html_block"@.len() == 10);
    assert("thematic_break"@.len() == 14);
    assert("table"@.len() == 5);
    assert("table_row"@.len() == 9);
    assert("table_cell"@.len() == 10);
    assert("block_quote"@.len() == 11);
    assert("footnote_definition"@.len() == 19);
    assert("item"@.len() == 4);
    assert("taskitem"@.len() == 8);
    assert("list"@.len() == 4);
    assert("code"@.len() == 4);
    assert("link"@.len() == 4);
    assert("image"@.len() == 5);
    assert("strong"@.len() == 6);
    assert("emph"@.len() == 4);
    assert("strikethrough"@.len() == 13);
    assert("html_inline"@.len() == 11);
    assert("text"@.len() == 4);
    assert("paragraph"@[0] == 'p' && "table_row"@[0] == 't');
    assert("code_block"@[0] == 'c' && "html_block"@[0] == 'h');
    assert("code_block"@[0] == 'c' && "table_cell"@[0] == 't');
    assert("html_block"@[0] == 'h' && "table_cell"@[0] == 't');
    assert("table"@[0] == 't' && "image"@[0] == 'i');
    assert("block_quote"@[0] == 'b' && "html_inline"@[0] == 'h');
    assert("item"@[0] == 'i' && "list"@[0] == 'l');
    assert("item"@[0] == 'i' && "code"@[0] == 'c');
    assert("item"@[0] == 'i' && "link"@[0] == 'l');
    assert("item"@[0] == 'i' && "emph"@[0] == 'e');
    assert("item"@[0] == 'i' && "text"@[0] == 't');
    assert("list"@[0] == 'l' && "code"@[0] == 'c');
    assert("list"@[2] == 's' && "link"@[2] == 'n');
    assert("list"@[0] == 'l' && "emph"@[0] == 'e');
    assert("list"@[0] == 'l' && "text"@[0] == 't');
    assert("code"@[0] == 'c' && "link"@[0] == 'l');
    assert("code"@[0] == 'c' && "emph"@[0] == 'e');
    assert("code"@[0] == 'c' && "text"@[0] == 't');
    assert("link"@[0] == 'l' && "emph"@[0] == 'e');
    assert("link"@[0] == 'l' && "text"@[0] == 't');
    assert("emph"@[0] == 'e' && "text"@[0] == 't');
}

// ---- cells that lost a backslash ----

proof fn lemma_unescaped_holds(
    kids: Seq<MdTree>,
    n: int,
    lines: Seq<Seq<char>>,
    i: int,
    x: MdTree,
) -> (k: int)
    requires
        0 <= i < n <= kids.len(),
        anywhere_at(kids[i], x),
        x.node.name@ == "table_cell"@,
        x.node.at.start.line == x.node.at.end.line,
    ensures
        0 <= k < unescaped(kids, n, lines).len(),
        unescaped(kids, n, lines)[k] == (
            x.node.at.start.line as int,
            x.node.at.start.col as int,
            x.node.at.end.col as int,
        ),
    decreases kids, n,
{
    let a = unescaped(kids, n - 1, lines);
    let own = own_ranges(kids, n - 1, lines);
    let t = kids[n - 1];
    let below = unescaped(t.kids, t.kids.len() as int, lines);
    let all = unescaped(kids, n, lines);
    assert(all == a + own + below);
    if i < n - 1 {
        let k = lemma_unescaped_holds(kids, n - 1, lines, i, x);
        assert(all[k] == a[k]);
        k
    } else if t == x {
        assert(all[a.len() as int] == own[0]);
        a.len() as int
    } else {
        let j = choose|j: int| 0 <= j < t.kids.len() && anywhere_at(#[trigger] t.kids[j], x);
        let k = lemma_unescaped_holds(t.kids, t.kids.len() as int, lines, j, x);
        assert(all[a.len() + own.len() + k] == below[k]);
        a.len() + own.len() + k
    }
}

proof fn lemma_columns_in(s: Seq<int>, from: int, to: int, d: int)
    ensures
        columns_in(s, from, to).contains(d) <==> s.contains(d) && from <= d <= to,
    decreases s.len(),
{
    if s.len() > 0 {
        let t = s.drop_last();
        let c = columns_in(t, from, to);
        lemma_columns_in(t, from, to, d);
        let r = columns_in(s, from, to);
        if s.contains(d) {
            let k = choose|k: int| 0 <= k < s.len() && s[k] == d;
            if k < t.len() {
                assert(t[k] == d);
            }
        }
        if t.contains(d) {
            let k = choose|k: int| 0 <= k < t.len() && t[k] == d;
            assert(s[k] == d);
        }
        if c.contains(d) {
            let k = choose|k: int| 0 <= k < c.len() && c[k] == d;
            assert(r[k] == d);
        }
        if r.contains(d) {
            let k = choose|k: int| 0 <= k < r.len() && r[k] == d;
            if k < c.len() {
                assert(c[k] == d);
            } else {
                assert(s[s.len() - 1] == d);
            }
        }
        if from <= s.last() <= to {
            assert(r[r.len() - 1] == s.last());
        }
    }
}

proof fn lemma_runs_hold(ranges: Seq<(usize, usize, usize)>, lines: Seq<Seq<char>>, k: int)
    requires
        0 <= k < ranges.len(),
        1 <= ranges[k].0 <= lines.len(),
        columns_in(
            dropped_from(lines[ranges[k].0 - 1], 0),
            ranges[k].1 as int,
            ranges[k].2 as int,
        ).len() > 0,
    ensures
        runs_of(ranges, lines).contains(
            Run {
                line: ranges[k].0 as int,
                start: ranges[k].1 as int,
                end: ranges[k].2 as int,
                dropped: columns_in(
                    dropped_from(lines[ranges[k].0 - 1], 0),
                    ranges[k].1 as int,
                    ranges[k].2 as int,
                ),
            },
        ),
    decreases ranges.len(),
{
    let run = Run {
        line: ranges[k].0 as int,
        start: ranges[k].1 as int,
        end: ranges[k].2 as int,
        dropped: columns_in(
            dropped_from(lines[ranges[k].0 - 1], 0),
            ranges[k].1 as int,
            ranges[k].2 as int,
        ),
    };
    let before = runs_of(ranges.drop_last(), lines);
    let all = runs_of(ranges, lines);
    if k < ranges.len() - 1 {
        lemma_runs_hold(ranges.drop_last(), lines, k);
        let m = choose|m: int| 0 <= m < before.len() && before[m] == run;
        assert(all[m] == run);
    } else {
        assert(all[all.len() - 1] == run);
    }
}

/// Every table cell with an escaped pipe is corrected for: the correction of a document has a run
/// over it, with the column of every backslash that the cell lost, and no other.
pub proof fn law_every_cell_with_an_escaped_pipe_is_corrected(
    kids: Seq<MdTree>,
    lines: Seq<Seq<char>>,
    x: MdTree,
    d: int,
)
    requires
        anywhere(kids, x),
        x.node.name@ == "table_cell"@,
        x.node.at.start.line == x.node.at.end.line,
        1 <= x.node.at.start.line <= lines.len(),
        dropped_from(lines[x.node.at.start.line - 1], 0).contains(d),
        x.node.at.start.col <= d <= x.node.at.end.col,
    ensures
        exists|run: Run| #[trigger]
            shift_of(kids, lines).contains(run) && run.line == x.node.at.start.line && run.start
                == x.node.at.start.col && run.end == x.node.at.end.col && run.dropped.contains(d)
                && forall|c: int| #[trigger]
                run.dropped.contains(c) ==> dropped_from(lines[x.node.at.start.line - 1], 0).contains(c)
                    && run.start <= c <= run.end,
{
    broadcast use vstd::seq_lib::group_to_multiset_ensures;

    let at = x.node.at;
    let u = unescaped(kids, kids.len() as int, lines);
    let p = pair_up(u);
    let s = sort_by(p, range_le());
    let i = choose|i: int| 0 <= i < kids.len() && anywhere_at(#[trigger] kids[i], x);
    let k = lemma_unescaped_holds(kids, kids.len() as int, lines, i, x);
    let range = (at.start.line, at.start.col, at.end.col);
    assert(p[k] == range);
    assert(p.contains(range));
    law_sort_orders_the_same_items(p, range_le());
    assert(p.to_multiset().count(range) > 0);
    assert(s.contains(range));
    let m = choose|m: int| 0 <= m < s.len() && s[m] == range;
    let all = dropped_from(lines[at.start.line - 1], 0);
    let dropped = columns_in(all, at.start.col as int, at.end.col as int);
    lemma_columns_in(all, at.start.col as int, at.end.col as int, d);
    lemma_runs_hold(s, lines, m);
    let run = Run {
        line: at.start.line as int,
        start: at.start.col as int,
        end: at.end.col as int,
        dropped,
    };
    assert(shift_of(kids, lines).contains(run));
    assert forall|c: int| #[trigger] run.dropped.contains(c) implies all.contains(c) && run.start <= c
        <= run.end by {
        lemma_columns_in(all, at.start.col as int, at.end.col as int, c);
    }
}

// ---- ends and labels ----

/// A line ends at its last byte, an empty one in column 1.
pub proof fn law_a_line_ends_at_its_last_byte(lines: Seq<Seq<char>>, line: int)
    requires
        1 <= line <= lines.len() <= usize::MAX,
        blen(lines[line - 1]) <= usize::MAX,
    ensures
        end_of(lines, line).line == line,
        lines[line - 1].len() > 0 ==> end_of(lines, line).col == blen(lines[line - 1]),
        lines[line - 1].len() == 0 ==> end_of(lines, line).col == 1,
{
    let text = lines[line - 1];
    crate::text::lemma_offset_ends(text);
    if text.len() > 0 {
        lemma_offset_mono(text, 0, text.len() as int);
    }
}

/// Of nodes around a position that have one span and follow each other outwards, the stack keeps one
/// entry, under the label of the outermost; a node with a span of its own is an entry of its own.
pub proof fn law_equal_spans_go_by_the_outermost_label(
    s: Seq<(&'static str, Span)>,
    outer: (&'static str, Span),
)
    ensures
        collapse(s.push(outer)).last() == outer,
        s.len() > 0 && s.last().1 == outer.1 ==> collapse(s.push(outer)).drop_last() == collapse(
            s,
        ).drop_last(),
        s.len() == 0 || s.last().1 != outer.1 ==> collapse(s.push(outer)).drop_last() == collapse(s),
{
    let t = s.push(outer);
    assert(t.drop_last() =~= s);
    lemma_collapse(s);
    let c = collapse(s);
    assert(c.push(outer).drop_last() =~= c);
    if c.len() > 0 {
        assert(c.drop_last().push(outer).drop_last() =~= c.drop_last());
    }
}

} // verus!
