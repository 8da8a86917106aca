//! Table alignment: the padding that makes a markdown table's columns line up.
//!
//! **Insertion only.** Every pad is spaces -- or dashes, in the delimiter row -- added *between*
//! source bytes. Nothing is moved, hidden or rewritten, so a rendered row is still the source line
//! in order and the byte ranges that address a selection survive untouched.
//!
//! Aligning a table makes it **wider**. A table whose aligned width does not fit the pane is left
//! ragged, so an aligned row never wraps and a wrapped row is never padded.
use vstd::prelude::*;
use vstd::string::*;
use vstd::utf8::*;
use crate::blocks::{ints, Block};
use crate::text::{
    blank, blen, front_run, is_blank, is_white, lemma_back_run_exists, lemma_front_run_exists,
    lemma_offset_ends, lemma_offset_mono, lemma_replace_offsets, lemma_strip_back,
    lemma_strip_front, offset, replace_char, replaced, str_eq, strip_back, texts, trim, trim_end,
    trimmed, trimmed_end, Laid,
};
use crate::wrap::{cells_drawn, drawn, space, Piece, Row};

verus! {

/// Cells the screen shows that no byte of the file accounts for: `n` of `fill`, spliced in at byte
/// `at` of the source line.
///
/// `anchor` is the byte it takes its style from, and it is **the nearest byte of the cell the gap
/// was opened in** -- the cell's first byte for the opening gap, its last for the closing one.
#[derive(Debug, Clone, Copy, PartialEq, Eq, Structural)]
pub struct Pad {
    pub at: usize,
    pub n: usize,
    pub fill: char,
    pub anchor: usize,
}

#[derive(Debug, Clone, Copy, PartialEq, Eq, Structural)]
pub enum Align {
    Left,
    Right,
    Center,
}

/// One cell of one row, as character offsets into its line: the run of leading spaces, the trimmed
/// content `[cs, ce)`, the run of trailing spaces. `closed` says whether a `|` follows it -- the
/// last cell of a row that ends without one has no pipe to line up against, so its trailing run is
/// left alone.
#[derive(Debug, Clone, Copy)]
pub struct Cell {
    pub lead: usize,
    pub cs: usize,
    pub ce: usize,
    pub trail: usize,
    pub closed: bool,
}

/// The mathematical form of [`Cell`].
pub struct Field {
    pub lead: int,
    pub cs: int,
    pub ce: int,
    pub trail: int,
    pub closed: bool,
}

impl Cell {
    pub open spec fn model(self) -> Field {
        Field {
            lead: self.lead as int,
            cs: self.cs as int,
            ce: self.ce as int,
            trail: self.trail as int,
            closed: self.closed,
        }
    }
}

pub open spec fn fields(v: Seq<Cell>) -> Seq<Field> {
    v.map_values(|c: Cell| c.model())
}

/// The column grid one table settles on: what each cell must reach, and the gap the column agrees
/// on for whichever side its alignment pins the content to.
pub struct Grid {
    pub aligns: Vec<Align>,
    pub lead: Vec<usize>,
    pub trail: Vec<usize>,
    pub width: Vec<usize>,
}

/// The padding of one line, and the cells the whole table occupies once padded.
#[derive(Debug)]
pub struct Padding {
    pub width: usize,
    pub pads: Vec<Pad>,
}

/// Every table in the document, flattened to per-line padding.
#[derive(Debug)]
pub struct Tables {
    /// Indexed by `line - 1`. `None` for every line that is not a table row needing padding.
    pub lines: Vec<Option<Padding>>,
}

/// The mathematical form of [`Padding`].
pub struct Widening {
    pub width: int,
    pub pads: Seq<Pad>,
}

pub open spec fn widening(p: Option<Padding>) -> Option<Widening> {
    match p {
        Some(p) => Some(Widening { width: p.width as int, pads: p.pads@ }),
        None => None,
    }
}

pub open spec fn widenings(v: Seq<Option<Padding>>) -> Seq<Option<Widening>> {
    v.map_values(|p: Option<Padding>| widening(p))
}

// ---------------------------------------------------------------------------
// Saturating numbers
// ---------------------------------------------------------------------------

pub open spec fn plus(a: int, b: int) -> int {
    if a + b <= usize::MAX {
        a + b
    } else {
        usize::MAX as int
    }
}

pub open spec fn minus(a: int, b: int) -> int {
    if a >= b {
        a - b
    } else {
        0
    }
}

pub open spec fn larger(a: int, b: int) -> int {
    if a >= b {
        a
    } else {
        b
    }
}

// ---------------------------------------------------------------------------
// Where the tables are
// ---------------------------------------------------------------------------

/// Number of `>` in a stretch of text.
pub open spec fn markers(s: Seq<char>) -> int
    decreases s.len(),
{
    if s.len() == 0 {
        0
    } else if s.last() == '>' {
        markers(s.drop_last()) + 1
    } else {
        markers(s.drop_last())
    }
}

pub open spec fn is_chrome(c: char) -> bool {
    c == '>' || c == ' ' || c == '\t'
}

/// Container depth of a line: the quote markers in its leading run of `>`, spaces and tabs.
pub open spec fn depth_of(s: Seq<char>) -> int {
    markers(s.take(front_run(s, |c: char| is_chrome(c))))
}

fn quote_depth(s: &str) -> (r: usize)
    ensures
        r == depth_of(s@),
{
    let l = Laid::new(s);
    let n: usize = l.chars.len();
    let mut k: usize = 0;
    let mut depth: usize = 0;
    proof {
        assert(s@.take(0) =~= Seq::<char>::empty());
    }
    while k < n && (l.chars[k] == '>' || l.chars[k] == ' ' || l.chars[k] == '\t')
        invariant
            l.wf(),
            l.text@ == s@,
            n == s@.len(),
            depth <= k <= n,
            depth == markers(s@.take(k as int)),
            forall|i: int| 0 <= i < k ==> is_chrome(#[trigger] s@[i]),
        decreases n - k,
    {
        proof {
            assert(s@.take(k + 1).drop_last() =~= s@.take(k as int));
        }
        if l.chars[k] == '>' {
            depth += 1;
        }
        k += 1;
    }
    proof {
        lemma_strip_front(s@, |c: char| is_chrome(c), k as int);
    }
    depth
}

pub open spec fn line_depth(lines: Seq<Seq<char>>, line: int) -> int {
    if 1 <= line <= lines.len() {
        depth_of(lines[line - 1])
    } else {
        0
    }
}

/// Line ranges of the tables among the first `n` units. Rows of one table follow each other line by
/// line at one container depth.
pub open spec fn table_ranges(lines: Seq<Seq<char>>, blocks: Seq<Block>, n: int) -> Seq<(int, int)>
    decreases n,
{
    if n <= 0 || n > blocks.len() {
        Seq::empty()
    } else {
        let before = table_ranges(lines, blocks, n - 1);
        let b = blocks[n - 1];
        let (start, end) = (b.span.start.line as int, b.span.end.line as int);
        if b.kind@ != "table-row"@ {
            before
        } else if before.len() > 0 && before.last().1 + 1 == start && line_depth(
            lines,
            before.last().0,
        ) == line_depth(lines, start) {
            before.drop_last().push((before.last().0, end))
        } else {
            before.push((start, end))
        }
    }
}

pub open spec fn range_pairs(v: Seq<(usize, usize)>) -> Seq<(int, int)> {
    v.map_values(|t: (usize, usize)| (t.0 as int, t.1 as int))
}

fn depth_at(lines: &[String], line: usize) -> (r: usize)
    ensures
        r == line_depth(texts(lines@), line as int),
{
    if 1 <= line && line <= lines.len() {
        quote_depth(lines[line - 1].as_str())
    } else {
        0
    }
}

/// Line ranges of the tables in the document, from the flat block list rather than by looking for
/// `|---|`: a delimiter row inside a fenced code block is text.
pub fn extents(lines: &[String], blocks: &[Block]) -> (r: Vec<(usize, usize)>)
    ensures
        range_pairs(r@) == table_ranges(texts(lines@), blocks@, blocks@.len() as int),
{
    let ghost ls = texts(lines@);
    let mut out: Vec<(usize, usize)> = Vec::new();
    let mut i: usize = 0;
    proof {
        assert(range_pairs(out@) =~= table_ranges(ls, blocks@, 0));
    }
    while i < blocks.len()
        invariant
            i <= blocks@.len(),
            ls == texts(lines@),
            range_pairs(out@) == table_ranges(ls, blocks@, i as int),
        decreases blocks@.len() - i,
    {
        let b = &blocks[i];
        let ghost before = range_pairs(out@);
        let ghost held = out@;
        if str_eq(b.kind, "table-row") {
            let (start, end) = (b.start(), b.end());
            let n: usize = out.len();
            proof {
                if n > 0 {
                    assert(before.last() == (held.last().0 as int, held.last().1 as int));
                }
            }
            if n > 0 && start > 0 && out[n - 1].1 == start - 1 && depth_at(lines, out[n - 1].0)
                == depth_at(lines, start) {
                let from: usize = out[n - 1].0;
                out.set(n - 1, (from, end));
                proof {
                    assert(range_pairs(out@) =~= before.drop_last().push((from as int, end as int)));
                }
            } else {
                out.push((start, end));
                proof {
                    assert(range_pairs(out@) =~= before.push((start as int, end as int)));
                }
            }
        }
        i += 1;
    }
    out
}

// ---------------------------------------------------------------------------
// Cells
// ---------------------------------------------------------------------------

/// The `|` that separate cells from character `k` on. A backslash escapes the next character, which
/// is the only way a pipe can be content.
pub open spec fn bars_from(s: Seq<char>, k: int) -> Seq<int>
    decreases s.len() - k,
{
    if k < 0 || k >= s.len() {
        Seq::empty()
    } else if s[k] == '\\' {
        if k + 1 < s.len() {
            bars_from(s, k + 2)
        } else {
            Seq::empty()
        }
    } else if s[k] == '|' {
        seq![k] + bars_from(s, k + 1)
    } else {
        bars_from(s, k + 1)
    }
}

/// The bars of a line, as bytes.
pub open spec fn bar_bytes(s: Seq<char>) -> Seq<int> {
    bars_from(s, 0).map_values(|k: int| offset(s, k))
}

pub open spec fn ascending(v: Seq<int>, from: int, to: int) -> bool {
    &&& forall|i: int| 0 <= i < v.len() ==> from <= #[trigger] v[i] < to
    &&& forall|i: int, j: int| 0 <= i < j < v.len() ==> #[trigger] v[i] < #[trigger] v[j]
}

proof fn lemma_bars(s: Seq<char>, k: int)
    requires
        0 <= k,
    ensures
        ascending(bars_from(s, k), k, s.len() as int),
    decreases s.len() - k,
{
    if k < s.len() {
        if s[k] == '\\' {
            if k + 1 < s.len() {
                lemma_bars(s, k + 2);
            }
        } else {
            lemma_bars(s, k + 1);
            if s[k] == '|' {
                let r = bars_from(s, k);
                let t = bars_from(s, k + 1);
                assert forall|i: int, j: int| 0 <= i < j < r.len() implies #[trigger] r[i]
                    < #[trigger] r[j] by {
                    assert(r[j] == t[j - 1]);
                    if i > 0 {
                        assert(r[i] == t[i - 1]);
                    }
                }
                assert forall|i: int| 0 <= i < r.len() implies k <= #[trigger] r[i] < s.len() by {
                    if i > 0 {
                        assert(r[i] == t[i - 1]);
                    }
                }
            }
        }
    }
}

fn bar_chars(l: &Laid) -> (r: Vec<usize>)
    requires
        l.wf(),
    ensures
        ints(r@) == bars_from(l.text@, 0),
{
    let ghost s = l.text@;
    let n: usize = l.chars.len();
    let mut out: Vec<usize> = Vec::new();
    let mut k: usize = 0;
    proof {
        assert(ints(out@) + bars_from(s, 0) =~= bars_from(s, 0));
    }
    while k < n
        invariant
            l.wf(),
            s == l.text@,
            n == s.len(),
            k <= n,
            ints(out@) + bars_from(s, k as int) == bars_from(s, 0),
        decreases n - k,
    {
        let ghost before = ints(out@);
        if l.chars[k] == '\\' {
            if k + 1 < n {
                k += 2;
            } else {
                k = n;
            }
        } else {
            if l.chars[k] == '|' {
                out.push(k);
                proof {
                    assert(ints(out@) =~= before.push(k as int));
                    assert(ints(out@) + bars_from(s, k + 1) =~= before + (seq![k as int] + bars_from(
                        s,
                        k + 1,
                    )));
                }
            }
            k += 1;
        }
    }
    proof {
        assert(ints(out@) =~= ints(out@) + bars_from(s, k as int));
    }
    out
}

/// Byte offsets of the `|` that separate cells.
pub fn bars(line: &str) -> (r: Vec<usize>)
    ensures
        ints(r@) == bar_bytes(line@),
{
    let l = Laid::new(line);
    let at = bar_chars(&l);
    let mut out: Vec<usize> = Vec::new();
    let mut i: usize = 0;
    proof {
        lemma_bars(line@, 0);
        assert(ints(out@) =~= bar_bytes(line@).take(0));
    }
    while i < at.len()
        invariant
            l.wf(),
            l.text@ == line@,
            i <= at@.len(),
            ints(at@) == bars_from(line@, 0),
            ascending(bars_from(line@, 0), 0, line@.len() as int),
            ints(out@) == bar_bytes(line@).take(i as int),
        decreases at@.len() - i,
    {
        let ghost before = ints(out@);
        proof {
            assert(bars_from(line@, 0)[i as int] == ints(at@)[i as int]);
            assert(bar_bytes(line@).take(i + 1) =~= before.push(bar_bytes(line@)[i as int]));
        }
        out.push(l.offs[at[i]]);
        proof {
            assert(ints(out@) =~= before.push(bar_bytes(line@)[i as int]));
        }
        i += 1;
    }
    proof {
        assert(bar_bytes(line@).take(i as int) =~= bar_bytes(line@));
    }
    out
}

/// The cell between characters `a` and `b`. One that is all spaces has no content to sit between
/// two gaps, so it is all one gap.
pub open spec fn cell_of(s: Seq<char>, a: int, b: int, closed: bool) -> Field {
    let inner = s.subrange(a, b);
    let n = strip_back(inner, |c: char| space(c)).len();
    let lead = front_run(inner, |c: char| space(c));
    if n == 0 {
        Field {
            lead: 0,
            cs: a,
            ce: a,
            trail: if closed {
                b - a
            } else {
                0
            },
            closed,
        }
    } else {
        Field {
            lead,
            cs: a + lead,
            ce: a + n,
            trail: if closed {
                b - (a + n)
            } else {
                0
            },
            closed,
        }
    }
}

/// A cell lies between `a` and `b`.
pub open spec fn cell_within(c: Field, a: int, b: int) -> bool {
    &&& c.lead >= 0
    &&& c.trail >= 0
    &&& a <= c.cs - c.lead
    &&& c.cs <= c.ce
    &&& c.ce + c.trail <= b
}

proof fn lemma_cell_of(s: Seq<char>, a: int, b: int, closed: bool)
    requires
        0 <= a <= b <= s.len(),
    ensures
        cell_within(cell_of(s, a, b, closed), a, b),
        closed ==> cell_of(s, a, b, closed).ce + cell_of(s, a, b, closed).trail == b,
        cell_of(s, a, b, closed).cs - cell_of(s, a, b, closed).lead == a,
        cell_of(s, a, b, closed).closed == closed,
{
    let inner = s.subrange(a, b);
    let p = |c: char| space(c);
    lemma_front_run_exists(inner, p);
    lemma_back_run_exists(inner, p);
    let n = strip_back(inner, p).len() as int;
    if n > 0 {
        assert(!p(inner[n - 1]));
        if front_run(inner, p) > n - 1 {
            assert(p(inner[n - 1]));
        }
    }
}

fn cell(l: &Laid, a: usize, b: usize, closed: bool) -> (r: Cell)
    requires
        l.wf(),
        a <= b <= l.text@.len(),
    ensures
        r.model() == cell_of(l.text@, a as int, b as int, closed),
{
    let ghost inner = l.text@.subrange(a as int, b as int);
    let mut e: usize = b;
    while e > a && l.chars[e - 1] == ' '
        invariant
            l.wf(),
            a <= e <= b <= l.text@.len(),
            forall|i: int| e <= i < b ==> space(#[trigger] l.text@[i]),
        decreases e,
    {
        e -= 1;
    }
    proof {
        assert forall|i: int| e - a <= i < inner.len() implies space(#[trigger] inner[i]) by {
            assert(inner[i] == l.text@[i + a]);
        }
        lemma_strip_back(inner, |c: char| space(c), e - a);
    }
    if e == a {
        return Cell {
            lead: 0,
            cs: a,
            ce: a,
            trail: if closed {
                b - a
            } else {
                0
            },
            closed,
        };
    }
    let mut k: usize = a;
    while k < b && l.chars[k] == ' '
        invariant
            l.wf(),
            a <= k <= b <= l.text@.len(),
            forall|i: int| a <= i < k ==> space(#[trigger] l.text@[i]),
        decreases b - k,
    {
        k += 1;
    }
    proof {
        assert forall|i: int| 0 <= i < k - a implies space(#[trigger] inner[i]) by {
            assert(inner[i] == l.text@[i + a]);
        }
        lemma_strip_front(inner, |c: char| space(c), k - a);
    }
    Cell {
        lead: k - a,
        cs: k,
        ce: e,
        trail: if closed {
            b - e
        } else {
            0
        },
        closed,
    }
}

/// The cells of a row: what lies between its bars, and before the first and behind the last one
/// where that is not blank.
pub open spec fn cells_of(s: Seq<char>) -> Seq<Field> {
    let bars = bars_from(s, 0);
    if bars.len() == 0 {
        Seq::empty()
    } else {
        head_cells(s, bars[0]) + Seq::new(
            (bars.len() - 1) as nat,
            |i: int| cell_of(s, bars[i] + 1, bars[i + 1], true),
        ) + tail_cells(s, bars.last())
    }
}

pub open spec fn head_cells(s: Seq<char>, first: int) -> Seq<Field> {
    if is_blank(s.take(first)) {
        Seq::empty()
    } else {
        seq![cell_of(s, 0, first, true)]
    }
}

pub open spec fn tail_cells(s: Seq<char>, last: int) -> Seq<Field> {
    if is_blank(s.skip(last + 1)) {
        Seq::empty()
    } else {
        seq![cell_of(s, last + 1, s.len() as int, false)]
    }
}

fn row_cells(line: &str) -> (r: Vec<Cell>)
    ensures
        fields(r@) == cells_of(line@),
{
    let l = Laid::new(line);
    let n: usize = l.chars.len();
    let bars = bar_chars(&l);
    let ghost bs = bars_from(line@, 0);
    let mut out: Vec<Cell> = Vec::new();
    let m: usize = bars.len();
    proof {
        lemma_bars(line@, 0);
        assert forall|i: int| 0 <= i < m implies bs[i] == #[trigger] bars@[i] by {
            assert(bs[i] == ints(bars@)[i]);
        }
    }
    if m == 0 {
        proof {
            assert(fields(out@) =~= cells_of(line@));
        }
        return out;
    }
    let first: usize = bars[0];
    let last: usize = bars[m - 1];
    proof {
        assert(bars@[0] == bs[0] && bars@[m - 1] == bs[m - 1]);
        assert(line@.take(first as int) =~= line@.subrange(0, first as int));
        assert(line@.skip(last + 1) =~= line@.subrange(last + 1, n as int));
    }
    if !blank(l.sub(0, first)) {
        out.push(cell(&l, 0, first, true));
    }
    let ghost head = head_cells(line@, bs[0]);
    let ghost mids = Seq::new(
        (bs.len() - 1) as nat,
        |i: int| cell_of(line@, bs[i] + 1, bs[i + 1], true),
    );
    proof {
        assert(fields(out@) =~= head + mids.take(0));
    }
    let mut i: usize = 0;
    while i + 1 < m
        invariant
            l.wf(),
            l.text@ == line@,
            n == line@.len(),
            m == bars@.len(),
            m == bs.len(),
            i + 1 <= m,
            ascending(bs, 0, n as int),
            forall|i: int| 0 <= i < m ==> bs[i] == #[trigger] bars@[i],
            mids == Seq::new(
                (bs.len() - 1) as nat,
                |i: int| cell_of(line@, bs[i] + 1, bs[i + 1], true),
            ),
            fields(out@) == head + mids.take(i as int),
        decreases m - i,
    {
        let ghost before = out@;
        proof {
            assert(bs[i as int] == bars@[i as int] && bs[i + 1] == bars@[i + 1]);
            assert(bs[i as int] < bs[i + 1]);
        }
        let c = cell(&l, bars[i] + 1, bars[i + 1], true);
        out.push(c);
        proof {
            assert(fields(out@) =~= fields(before).push(c.model()));
            assert(head + mids.take(i + 1) =~= (head + mids.take(i as int)).push(mids[i as int]));
        }
        i += 1;
    }
    proof {
        assert(mids.take(i as int) =~= mids);
    }
    if !blank(l.sub(last + 1, n)) {
        let ghost before = out@;
        let c = cell(&l, last + 1, n, false);
        out.push(c);
        proof {
            assert(fields(out@) =~= fields(before).push(c.model()));
        }
    }
    proof {
        assert(fields(out@) =~= cells_of(line@));
    }
    out
}

// ---------------------------------------------------------------------------
// The grid
// ---------------------------------------------------------------------------

pub open spec fn all_dashes(s: Seq<char>) -> bool {
    forall|i: int| 0 <= i < s.len() ==> #[trigger] s[i] == '-'
}

/// `---`, `:---`, `---:` or `:---:`, and nothing else.
pub open spec fn rule_of(text: Seq<char>) -> Option<Align> {
    let s = trim(text);
    let left = s.len() > 0 && s[0] == ':';
    let s = if left {
        s.skip(1)
    } else {
        s
    };
    let right = s.len() > 0 && s.last() == ':';
    let s = if right {
        s.drop_last()
    } else {
        s
    };
    if s.len() == 0 || !all_dashes(s) {
        None
    } else if left && right {
        Some(Align::Center)
    } else if right {
        Some(Align::Right)
    } else {
        Some(Align::Left)
    }
}

fn delim_align(text: &str) -> (r: Option<Align>)
    ensures
        r == rule_of(text@),
{
    let t = trimmed(text);
    let l = Laid::new(t);
    let n: usize = l.chars.len();
    let left = n > 0 && l.chars[0] == ':';
    let a: usize = if left {
        1
    } else {
        0
    };
    let ghost s1 = if left {
        t@.skip(1)
    } else {
        t@
    };
    proof {
        assert(s1 =~= t@.subrange(a as int, n as int));
    }
    let right = n > a && l.chars[n - 1] == ':';
    let b: usize = if right {
        n - 1
    } else {
        n
    };
    let ghost s2 = if right {
        s1.drop_last()
    } else {
        s1
    };
    proof {
        assert(s2 =~= t@.subrange(a as int, b as int));
    }
    if b <= a {
        return None;
    }
    let mut i: usize = a;
    while i < b && l.chars[i] == '-'
        invariant
            l.wf(),
            l.text@ == t@,
            a <= i <= b <= t@.len(),
            forall|k: int| a <= k < i ==> #[trigger] t@[k] == '-',
        decreases b - i,
    {
        i += 1;
    }
    if i < b {
        assert(s2[i - a] != '-');
        return None;
    }
    proof {
        assert(all_dashes(s2)) by {
            assert forall|k: int| 0 <= k < s2.len() implies #[trigger] s2[k] == '-' by {
                assert(s2[k] == t@[k + a]);
            }
        }
    }
    if left && right {
        Some(Align::Center)
    } else if right {
        Some(Align::Right)
    } else {
        Some(Align::Left)
    }
}

/// The content of a cell.
pub open spec fn content(text: Seq<char>, c: Field) -> Seq<char> {
    text.subrange(c.cs, c.ce)
}

/// Every cell of the row is a rule.
pub open spec fn is_rule_row(text: Seq<char>, row: Seq<Field>) -> bool {
    row.len() > 0 && forall|i: int|
        0 <= i < row.len() ==> rule_of(content(text, #[trigger] row[i])) is Some
}

/// Index of the first rule row at or after `i`; the length where there is none.
pub open spec fn rule_row(texts: Seq<Seq<char>>, i: int) -> int
    decreases texts.len() - i,
{
    if i < 0 || i >= texts.len() {
        texts.len() as int
    } else if is_rule_row(texts[i], cells_of(texts[i])) {
        i
    } else {
        rule_row(texts, i + 1)
    }
}

/// Cells the content of a cell takes.
pub open spec fn content_cells(text: Seq<char>, c: Field) -> int {
    drawn(content(text, c))
}

/// What a cell needs of its column beyond the gap that the alignment pins.
pub open spec fn needs(text: Seq<char>, c: Field, a: Align) -> int {
    match a {
        Align::Left => plus(content_cells(text, c), c.trail),
        Align::Right => plus(c.lead, content_cells(text, c)),
        Align::Center => plus(plus(c.lead, content_cells(text, c)), c.trail),
    }
}

/// The widest opening gap in column `j` of the first `n` rows.
pub open spec fn most_lead(texts: Seq<Seq<char>>, n: int, j: int) -> int
    decreases n,
{
    if n <= 0 {
        0
    } else {
        let before = most_lead(texts, n - 1, j);
        let row = cells_of(texts[n - 1]);
        if j < row.len() {
            larger(before, row[j].lead)
        } else {
            before
        }
    }
}

/// The widest closing gap in column `j` of the first `n` rows.
pub open spec fn most_trail(texts: Seq<Seq<char>>, n: int, j: int) -> int
    decreases n,
{
    if n <= 0 {
        0
    } else {
        let before = most_trail(texts, n - 1, j);
        let row = cells_of(texts[n - 1]);
        if j < row.len() {
            larger(before, row[j].trail)
        } else {
            before
        }
    }
}

/// The most any cell of column `j` of the first `n` rows needs.
pub open spec fn most_needs(texts: Seq<Seq<char>>, n: int, j: int, a: Align) -> int
    decreases n,
{
    if n <= 0 {
        0
    } else {
        let before = most_needs(texts, n - 1, j, a);
        let row = cells_of(texts[n - 1]);
        if j < row.len() {
            larger(before, needs(texts[n - 1], row[j], a))
        } else {
            before
        }
    }
}

/// The mathematical form of [`Grid`].
pub struct Columns {
    pub aligns: Seq<Align>,
    pub lead: Seq<int>,
    pub trail: Seq<int>,
    pub width: Seq<int>,
}

impl Grid {
    pub open spec fn model(self) -> Columns {
        Columns {
            aligns: self.aligns@,
            lead: ints(self.lead@),
            trail: ints(self.trail@),
            width: ints(self.width@),
        }
    }
}

/// What the cells of a column must reach: the most any of them needs, beside the pinned gap.
pub open spec fn column_width(texts: Seq<Seq<char>>, j: int, a: Align) -> int {
    let n = texts.len() as int;
    plus(
        most_needs(texts, n, j, a),
        match a {
            Align::Left => most_lead(texts, n, j),
            Align::Right => most_trail(texts, n, j),
            Align::Center => 0,
        },
    )
}

/// The alignments that rule row `d` asks for.
pub open spec fn rule_aligns(texts: Seq<Seq<char>>, d: int) -> Seq<Align> {
    let row = cells_of(texts[d]);
    Seq::new(
        row.len(),
        |j: int|
            match rule_of(content(texts[d], row[j])) {
                Some(a) => a,
                None => Align::Left,
            },
    )
}

/// The grid of a table whose rule row is row `d`.
pub open spec fn grid_of(texts: Seq<Seq<char>>, d: int) -> Columns {
    let aligns = rule_aligns(texts, d);
    let n = texts.len() as int;
    Columns {
        aligns,
        lead: Seq::new(aligns.len(), |j: int| most_lead(texts, n, j)),
        trail: Seq::new(aligns.len(), |j: int| most_trail(texts, n, j)),
        width: Seq::new(aligns.len(), |j: int| column_width(texts, j, aligns[j])),
    }
}

// ---------------------------------------------------------------------------
// The padding
// ---------------------------------------------------------------------------

pub open spec fn some_pad(at: int, n: int, fill: char, anchor: int) -> Seq<Pad> {
    if n > 0 {
        seq![Pad { at: at as usize, n: n as usize, fill, anchor: anchor as usize }]
    } else {
        Seq::empty()
    }
}

/// `want`, pulled into `low..=high`; `low` where that is empty.
pub open spec fn pulled(want: int, low: int, high: int) -> int {
    larger(
        low,
        if want <= high {
            want
        } else {
            high
        },
    )
}

/// Index behind the last dash of `s`; its length where it has none.
pub open spec fn after_dash(s: Seq<char>, n: int) -> int
    decreases n,
{
    if n <= 0 {
        s.len() as int
    } else if s[n - 1] == '-' {
        n
    } else {
        after_dash(s, n - 1)
    }
}

/// The opening gap a cell ends up with. Where the alignment wants the content, pulled back inside
/// what the row's own spacing already commits to: a gap can only grow.
pub open spec fn lead_for(text: Seq<char>, c: Field, g: Columns, j: int) -> int {
    let w = g.width[j];
    let cw = content_cells(text, c);
    let want = match g.aligns[j] {
        Align::Left => g.lead[j],
        Align::Right => minus(w, plus(cw, g.trail[j])),
        Align::Center => minus(w, cw) / 2,
    };
    pulled(want, c.lead, minus(w, plus(cw, c.trail)))
}

/// The padding of cell `j` of a row. The rule row takes no spaces: it grows its own rule, and a `:`
/// stays on the end it marks.
pub open spec fn cell_pads(text: Seq<char>, c: Field, rule: bool, g: Columns, j: int) -> Seq<Pad> {
    let w = g.width[j];
    let cw = content_cells(text, c);
    let head = offset(text, c.cs - c.lead);
    let tail = minus(offset(text, c.ce + c.trail), 1);
    if rule {
        let k = c.cs + after_dash(content(text, c), content(text, c).len() as int);
        let at = offset(text, k);
        some_pad(at, minus(w, plus(plus(c.lead, cw), c.trail)), '-', minus(at, 1))
    } else {
        let lead = lead_for(text, c, g, j);
        some_pad(head, lead - c.lead, ' ', head) + if c.closed {
            some_pad(
                offset(text, c.ce),
                minus(w, plus(plus(cw, lead), c.trail)),
                ' ',
                tail,
            )
        } else {
            Seq::empty()
        }
    }
}

/// The padding of the first `n` cells of a row.
pub open spec fn row_pads(text: Seq<char>, row: Seq<Field>, rule: bool, g: Columns, n: int) -> Seq<
    Pad,
>
    decreases n,
{
    if n <= 0 {
        Seq::empty()
    } else {
        row_pads(text, row, rule, g, n - 1) + cell_pads(text, row[n - 1], rule, g, n - 1)
    }
}

/// The cells of a row that the grid has columns for.
pub open spec fn gridded(row: Seq<Field>, g: Columns) -> int {
    if row.len() <= g.aligns.len() {
        row.len() as int
    } else {
        g.aligns.len() as int
    }
}

/// The padding of one line of a table whose rule row is row `d`.
pub open spec fn line_pads(texts: Seq<Seq<char>>, d: int, i: int) -> Seq<Pad> {
    let row = cells_of(texts[i]);
    let g = grid_of(texts, d);
    row_pads(texts[i], row, i == d, g, gridded(row, g))
}

/// Cells the pads add.
pub open spec fn pad_cells(pads: Seq<Pad>) -> int
    decreases pads.len(),
{
    if pads.len() == 0 {
        0
    } else {
        plus(pad_cells(pads.drop_last()), pads.last().n as int)
    }
}

/// The most cells any of the first `n` padded lines takes.
pub open spec fn table_width(texts: Seq<Seq<char>>, d: int, n: int) -> int
    decreases n,
{
    if n <= 0 {
        0
    } else {
        larger(
            table_width(texts, d, n - 1),
            plus(drawn(trim_end(texts[n - 1])), pad_cells(line_pads(texts, d, n - 1))),
        )
    }
}

/// The padding for every line of one table; `None` where there is no rule row, or nothing to pad.
pub open spec fn aligned(texts: Seq<Seq<char>>) -> Option<Seq<Option<Widening>>> {
    let d = rule_row(texts, 0);
    if d >= texts.len() || (forall|i: int|
        0 <= i < texts.len() ==> (#[trigger] line_pads(texts, d, i)).len() == 0) {
        None
    } else {
        let width = table_width(texts, d, texts.len() as int);
        Some(
            Seq::new(
                texts.len(),
                |i: int|
                    if line_pads(texts, d, i).len() == 0 {
                        None
                    } else {
                        Some(Widening { width, pads: line_pads(texts, d, i) })
                    },
            ),
        )
    }
}

/// The row a padded line renders to, up to pad `n`: source bytes with the padding spliced in.
pub open spec fn spliced(pads: Seq<Pad>, n: int) -> Seq<Piece>
    decreases n,
{
    if n <= 0 {
        Seq::empty()
    } else {
        let p = pads[n - 1];
        let at = splice_at(pads, n - 1);
        let before = spliced(pads, n - 1);
        let src = if p.at > at {
            before.push(Piece::Src(at as usize, p.at))
        } else {
            before
        };
        src.push(Piece::Pad { n: p.n, fill: p.fill, anchor: p.anchor })
    }
}

/// The source byte reached after `n` pads.
pub open spec fn splice_at(pads: Seq<Pad>, n: int) -> int {
    if n <= 0 {
        0
    } else {
        pads[n - 1].at as int
    }
}

/// The whole row of a line of `len` bytes.
pub open spec fn padded_row(len: int, pads: Seq<Pad>) -> Seq<Piece> {
    let n = pads.len() as int;
    let at = splice_at(pads, n);
    if at < len || n == 0 {
        spliced(pads, n).push(Piece::Src(at as usize, len as usize))
    } else {
        spliced(pads, n)
    }
}

/// The one row a padded line renders to.
pub fn row(len: usize, pads: &[Pad]) -> (r: Row)
    ensures
        r@ == padded_row(len as int, pads@),
{
    let mut out: Row = Vec::new();
    let mut at: usize = 0;
    let mut i: usize = 0;
    while i < pads.len()
        invariant
            i <= pads@.len(),
            at == splice_at(pads@, i as int),
            out@ == spliced(pads@, i as int),
        decreases pads@.len() - i,
    {
        let p = pads[i];
        if p.at > at {
            out.push(Piece::Src(at, p.at));
        }
        out.push(Piece::Pad { n: p.n, fill: p.fill, anchor: p.anchor });
        at = p.at;
        i += 1;
    }
    if at < len || i == 0 {
        out.push(Piece::Src(at, len));
    }
    out
}

fn last_dash(l: &Laid, a: usize, b: usize) -> (r: usize)
    requires
        l.wf(),
        a <= b <= l.text@.len(),
    ensures
        r == a + after_dash(l.text@.subrange(a as int, b as int), b - a),
        a <= r <= b,
{
    let ghost s = l.text@.subrange(a as int, b as int);
    let mut k: usize = b;
    while k > a
        invariant
            l.wf(),
            a <= k <= b <= l.text@.len(),
            s == l.text@.subrange(a as int, b as int),
            after_dash(s, k - a) == after_dash(s, b - a),
        decreases k,
    {
        proof {
            assert(s[k - a - 1] == l.text@[k - 1]);
        }
        if l.chars[k - 1] == '-' {
            return k;
        }
        k -= 1;
    }
    b
}

fn push_pad(out: &mut Vec<Pad>, at: usize, n: usize, fill: char, anchor: usize)
    ensures
        final(out)@ == old(out)@ + some_pad(at as int, n as int, fill, anchor as int),
{
    if n > 0 {
        out.push(Pad { at, n, fill, anchor });
    }
    proof {
        assert(out@ =~= old(out)@ + some_pad(at as int, n as int, fill, anchor as int));
    }
}

/// Where the cells of a row lie, in order.
pub open spec fn in_order(row: Seq<Field>, len: int) -> bool {
    &&& forall|i: int| 0 <= i < row.len() ==> cell_within(#[trigger] row[i], 0, len)
    &&& forall|i: int, j: int|
        0 <= i < j < row.len() ==> (#[trigger] row[i]).ce + row[i].trail <= (#[trigger] row[j]).cs
            - row[j].lead
}

proof fn lemma_cells_in_order(s: Seq<char>)
    ensures
        in_order(cells_of(s), s.len() as int),
{
    let bars = bars_from(s, 0);
    lemma_bars(s, 0);
    if bars.len() > 0 {
        let row = cells_of(s);
        let head = head_cells(s, bars[0]);
        let h = head.len() as int;
        let m = bars.len() - 1;
        // The stretch of text that cell `i` was read from.
        let from = |i: int|
            if i < h {
                0
            } else {
                bars[i - h] + 1
            };
        let to = |i: int|
            if i < h {
                bars[0]
            } else if i < h + m {
                bars[i - h + 1]
            } else {
                s.len() as int
            };
        assert forall|i: int| 0 <= i < row.len() implies cell_within(
            #[trigger] row[i],
            from(i),
            to(i),
        ) && 0 <= from(i) <= to(i) <= s.len() by {
            if i < h {
                lemma_cell_of(s, 0, bars[0], true);
            } else if i < h + m {
                assert(bars[i - h] < bars[i - h + 1]);
                lemma_cell_of(s, bars[i - h] + 1, bars[i - h + 1], true);
            } else {
                assert(bars.last() == bars[m]);
                lemma_cell_of(s, bars[m] + 1, s.len() as int, false);
            }
        }
        assert forall|i: int, j: int| 0 <= i < j < row.len() implies (#[trigger] row[i]).ce
            + row[i].trail <= (#[trigger] row[j]).cs - row[j].lead by {
            assert(cell_within(row[i], from(i), to(i)));
            assert(cell_within(row[j], from(j), to(j)));
            if i < h {
                assert(bars[0] <= bars[j - h]) by {
                    if j - h > 0 {
                        assert(bars[0] < bars[j - h]);
                    }
                }
            } else {
                if i - h + 1 < j - h {
                    assert(bars[i - h + 1] < bars[j - h]);
                }
            }
        }
    }
}

/// Padding for one line, given the grid its table settled on.
#[verifier::rlimit(60)]
#[verifier::spinoff_prover]
fn pads_for(text: &str, row: &Vec<Cell>, rule: bool, g: &Grid) -> (r: Vec<Pad>)
    requires
        fields(row@) == cells_of(text@),
        g.lead@.len() == g.aligns@.len(),
        g.trail@.len() == g.aligns@.len(),
        g.width@.len() == g.aligns@.len(),
    ensures
        r@ == row_pads(text@, cells_of(text@), rule, g.model(), gridded(cells_of(text@), g.model())),
{
    let l = Laid::new(text);
    let _len: usize = l.chars.len();
    let ghost cs = cells_of(text@);
    let ghost cols = g.model();
    let mut out: Vec<Pad> = Vec::new();
    let n: usize = if row.len() <= g.aligns.len() {
        row.len()
    } else {
        g.aligns.len()
    };
    let mut j: usize = 0;
    proof {
        lemma_cells_in_order(text@);
    }
    while j < n
        invariant
            l.wf(),
            l.text@ == text@,
            text@.len() <= usize::MAX,
            cs == cells_of(text@),
            fields(row@) == cs,
            cols == g.model(),
            n <= row@.len(),
            n <= g.aligns@.len(),
            g.lead@.len() == g.aligns@.len(),
            g.trail@.len() == g.aligns@.len(),
            g.width@.len() == g.aligns@.len(),
            j <= n,
            in_order(cs, text@.len() as int),
            out@ == row_pads(text@, cs, rule, cols, j as int),
        decreases n - j,
    {
        let c = row[j];
        let ghost f = cs[j as int];
        proof {
            assert(f == fields(row@)[j as int]);
            assert(f == c.model());
            assert(cell_within(f, 0, text@.len() as int));
            assert(cols.width[j as int] == g.width@[j as int]);
            assert(cols.lead[j as int] == g.lead@[j as int]);
            assert(cols.trail[j as int] == g.trail@[j as int]);
        }
        let w: usize = g.width[j];
        let cw: usize = cells_drawn(l.sub(c.cs, c.ce));
        let head: usize = l.offs[c.cs - c.lead];
        let tail: usize = l.offs[c.ce + c.trail].saturating_sub(1);
        if rule {
            let at: usize = l.offs[last_dash(&l, c.cs, c.ce)];
            let have: usize = c.lead.saturating_add(cw).saturating_add(c.trail);
            push_pad(&mut out, at, w.saturating_sub(have), '-', at.saturating_sub(1));
        } else {
            let want: usize = match g.aligns[j] {
                Align::Left => g.lead[j],
                Align::Right => w.saturating_sub(cw.saturating_add(g.trail[j])),
                Align::Center => w.saturating_sub(cw) / 2,
            };
            let high: usize = w.saturating_sub(cw.saturating_add(c.trail));
            let low: usize = if want <= high {
                want
            } else {
                high
            };
            let lead: usize = if c.lead >= low {
                c.lead
            } else {
                low
            };
            push_pad(&mut out, head, lead - c.lead, ' ', head);
            if c.closed {
                let have: usize = cw.saturating_add(lead).saturating_add(c.trail);
                push_pad(&mut out, l.offs[c.ce], w.saturating_sub(have), ' ', tail);
            }
        }
        proof {
            assert(out@ =~= row_pads(text@, cs, rule, cols, j + 1));
        }
        j += 1;
    }
    out
}

/// `rows` are the cells of `texts`, row by row.
spec fn rows_match(rows: Seq<Vec<Cell>>, texts: Seq<Seq<char>>) -> bool {
    rows.len() == texts.len() && forall|i: int|
        0 <= i < rows.len() ==> fields((#[trigger] rows[i])@) == cells_of(texts[i])
}

/// The widest gaps and the most that is needed in column `j`.
fn column(lines: &Vec<String>, rows: &Vec<Vec<Cell>>, j: usize, a: Align) -> (r: (
    usize,
    usize,
    usize,
))
    requires
        rows_match(rows@, texts(lines@)),
    ensures
        r.0 == most_lead(texts(lines@), lines@.len() as int, j as int),
        r.1 == most_trail(texts(lines@), lines@.len() as int, j as int),
        r.2 == most_needs(texts(lines@), lines@.len() as int, j as int, a),
{
    let ghost ts = texts(lines@);
    let mut lead: usize = 0;
    let mut trail: usize = 0;
    let mut need: usize = 0;
    let mut i: usize = 0;
    while i < lines.len()
        invariant
            i <= lines@.len(),
            ts == texts(lines@),
            rows_match(rows@, ts),
            lead == most_lead(ts, i as int, j as int),
            trail == most_trail(ts, i as int, j as int),
            need == most_needs(ts, i as int, j as int, a),
        decreases lines@.len() - i,
    {
        if j < rows[i].len() {
            let c = rows[i][j];
            let l = Laid::new(lines[i].as_str());
            let _len: usize = l.chars.len();
            proof {
                lemma_cells_in_order(ts[i as int]);
                assert(fields(rows@[i as int]@)[j as int] == c.model());
                assert(cell_within(cells_of(ts[i as int])[j as int], 0, ts[i as int].len() as int));
            }
            if c.lead > lead {
                lead = c.lead;
            }
            if c.trail > trail {
                trail = c.trail;
            }
            let cw: usize = cells_drawn(l.sub(c.cs, c.ce));
            let n: usize = match a {
                Align::Left => cw.saturating_add(c.trail),
                Align::Right => c.lead.saturating_add(cw),
                Align::Center => c.lead.saturating_add(cw).saturating_add(c.trail),
            };
            if n > need {
                need = n;
            }
        }
        i += 1;
    }
    (lead, trail, need)
}

fn is_delimiter(text: &str, row: &Vec<Cell>) -> (r: bool)
    requires
        fields(row@) == cells_of(text@),
    ensures
        r == is_rule_row(text@, cells_of(text@)),
{
    if row.len() == 0 {
        return false;
    }
    let l = Laid::new(text);
    let ghost cs = cells_of(text@);
    proof {
        lemma_cells_in_order(text@);
    }
    let mut i: usize = 0;
    while i < row.len()
        invariant
            l.wf(),
            l.text@ == text@,
            cs == cells_of(text@),
            fields(row@) == cs,
            in_order(cs, text@.len() as int),
            i <= row@.len(),
            forall|k: int| 0 <= k < i ==> rule_of(content(text@, #[trigger] cs[k])) is Some,
        decreases row@.len() - i,
    {
        let c = row[i];
        proof {
            assert(cs[i as int] == fields(row@)[i as int]);
            assert(cell_within(cs[i as int], 0, text@.len() as int));
        }
        if delim_align(l.sub(c.cs, c.ce)).is_none() {
            assert(rule_of(content(text@, cs[i as int])) is None);
            return false;
        }
        i += 1;
    }
    true
}

/// The grid of a table whose rule row is row `d`.
fn grid(lines: &Vec<String>, rows: &Vec<Vec<Cell>>, d: usize) -> (r: Grid)
    requires
        rows_match(rows@, texts(lines@)),
        d < lines@.len(),
    ensures
        r.model() == grid_of(texts(lines@), d as int),
        r.lead@.len() == r.aligns@.len(),
        r.trail@.len() == r.aligns@.len(),
        r.width@.len() == r.aligns@.len(),
{
    let ghost ts = texts(lines@);
    let ghost all = grid_of(ts, d as int);
    let ghost row_d = cells_of(ts[d as int]);
    let l = Laid::new(lines[d].as_str());
    let mut aligns: Vec<Align> = Vec::new();
    let mut lead: Vec<usize> = Vec::new();
    let mut trail: Vec<usize> = Vec::new();
    let mut width: Vec<usize> = Vec::new();
    let mut j: usize = 0;
    proof {
        lemma_cells_in_order(ts[d as int]);
        assert(ints(lead@) =~= all.lead.take(0));
        assert(ints(trail@) =~= all.trail.take(0));
        assert(ints(width@) =~= all.width.take(0));
        assert(fields(rows@[d as int]@) == row_d);
    }
    while j < rows[d].len()
        invariant
            l.wf(),
            l.text@ == ts[d as int],
            ts == texts(lines@),
            d < lines@.len(),
            rows_match(rows@, ts),
            all == grid_of(ts, d as int),
            row_d == cells_of(ts[d as int]),
            fields(rows@[d as int]@) == row_d,
            in_order(row_d, ts[d as int].len() as int),
            j <= rows@[d as int]@.len(),
            aligns@ =~= all.aligns.take(j as int),
            ints(lead@) == all.lead.take(j as int),
            ints(trail@) == all.trail.take(j as int),
            ints(width@) == all.width.take(j as int),
        decreases rows@[d as int]@.len() - j,
    {
        let c = rows[d][j];
        let ghost (l0, t0, w0) = (lead@, trail@, width@);
        proof {
            assert(row_d[j as int] == fields(rows@[d as int]@)[j as int]);
            assert(cell_within(row_d[j as int], 0, ts[d as int].len() as int));
        }
        let a = match delim_align(l.sub(c.cs, c.ce)) {
            Some(a) => a,
            None => Align::Left,
        };
        let (most, gap, need) = column(lines, rows, j, a);
        let w: usize = match a {
            Align::Left => need.saturating_add(most),
            Align::Right => need.saturating_add(gap),
            Align::Center => need,
        };
        aligns.push(a);
        lead.push(most);
        trail.push(gap);
        width.push(w);
        proof {
            assert(all.aligns[j as int] == a);
            assert(ints(lead@) =~= ints(l0).push(most as int));
            assert(ints(trail@) =~= ints(t0).push(gap as int));
            assert(ints(width@) =~= ints(w0).push(w as int));
            assert(all.lead.take(j + 1) =~= all.lead.take(j as int).push(all.lead[j as int]));
            assert(all.trail.take(j + 1) =~= all.trail.take(j as int).push(all.trail[j as int]));
            assert(all.width.take(j + 1) =~= all.width.take(j as int).push(all.width[j as int]));
        }
        j += 1;
    }
    proof {
        assert(ints(lead@) =~= all.lead);
        assert(ints(trail@) =~= all.trail);
        assert(ints(width@) =~= all.width);
        assert(aligns@ =~= all.aligns);
    }
    Grid { aligns, lead, trail, width }
}

fn added_cells(pads: &Vec<Pad>) -> (r: usize)
    ensures
        r == pad_cells(pads@),
{
    let mut sum: usize = 0;
    let mut i: usize = 0;
    proof {
        assert(pads@.take(0) =~= Seq::<Pad>::empty());
    }
    while i < pads.len()
        invariant
            i <= pads@.len(),
            sum == pad_cells(pads@.take(i as int)),
        decreases pads@.len() - i,
    {
        proof {
            assert(pads@.take(i + 1).drop_last() =~= pads@.take(i as int));
        }
        sum = sum.saturating_add(pads[i].n);
        i += 1;
    }
    proof {
        assert(pads@.take(i as int) =~= pads@);
    }
    sum
}

/// The padding for every line of one table, or `None` when there is nothing to align -- no
/// delimiter row, or a table already laid out by hand.
fn align(lines: &Vec<String>) -> (r: Option<Vec<Option<Padding>>>)
    ensures
        match r {
            None => aligned(texts(lines@)) is None,
            Some(v) => aligned(texts(lines@)) == Some(widenings(v@)),
        },
{
    let ghost ts = texts(lines@);
    let n: usize = lines.len();
    let mut rows: Vec<Vec<Cell>> = Vec::new();
    let mut d: usize = n;
    let mut i: usize = 0;
    while i < n
        invariant
            n == lines@.len(),
            i <= n,
            ts == texts(lines@),
            rows@.len() == i,
            forall|k: int| 0 <= k < i ==> fields((#[trigger] rows@[k])@) == cells_of(ts[k]),
            d <= n,
            d < n ==> d < i && rule_row(ts, 0) == d,
            d == n ==> rule_row(ts, 0) == rule_row(ts, i as int),
        decreases n - i,
    {
        let cs = row_cells(lines[i].as_str());
        if d == n && is_delimiter(lines[i].as_str(), &cs) {
            d = i;
        }
        rows.push(cs);
        i += 1;
    }
    if d == n {
        return None;
    }
    let g = grid(lines, &rows, d);
    let mut pads: Vec<Vec<Pad>> = Vec::new();
    let mut width: usize = 0;
    let mut any = false;
    let mut i: usize = 0;
    while i < n
        invariant
            n == lines@.len(),
            i <= n,
            ts == texts(lines@),
            rows_match(rows@, ts),
            g.model() == grid_of(ts, d as int),
            g.lead@.len() == g.aligns@.len(),
            g.trail@.len() == g.aligns@.len(),
            g.width@.len() == g.aligns@.len(),
            pads@.len() == i,
            forall|k: int| 0 <= k < i ==> (#[trigger] pads@[k])@ == line_pads(ts, d as int, k),
            any == exists|k: int| 0 <= k < i && (#[trigger] line_pads(ts, d as int, k)).len() > 0,
            width == table_width(ts, d as int, i as int),
        decreases n - i,
    {
        let p = pads_for(lines[i].as_str(), &rows[i], i == d, &g);
        proof {
            assert(p@ == line_pads(ts, d as int, i as int));
        }
        if p.len() > 0 {
            any = true;
        }
        let w: usize = cells_drawn(trimmed_end(lines[i].as_str())).saturating_add(added_cells(&p));
        if w > width {
            width = w;
        }
        pads.push(p);
        i += 1;
    }
    if !any {
        proof {
            assert forall|k: int| 0 <= k < ts.len() implies (#[trigger] line_pads(
                ts,
                d as int,
                k,
            )).len() == 0 by {}
        }
        return None;
    }
    let mut out: Vec<Option<Padding>> = Vec::new();
    let mut i: usize = 0;
    let ghost all = aligned(ts)->0;
    proof {
        let k = choose|k: int| 0 <= k < n && (#[trigger] line_pads(ts, d as int, k)).len() > 0;
        assert(line_pads(ts, d as int, k).len() != 0);
        assert(aligned(ts) is Some);
        assert(widenings(out@) =~= all.take(0));
    }
    while pads.len() > 0
        invariant
            n == ts.len(),
            i + pads@.len() == n,
            aligned(ts) == Some(all),
            d < n,
            d == rule_row(ts, 0),
            width == table_width(ts, d as int, n as int),
            all.len() == n,
            forall|k: int| 0 <= k < pads@.len() ==> (#[trigger] pads@[k])@ == line_pads(ts, d as int, i + k),
            widenings(out@) == all.take(i as int),
        decreases pads@.len(),
    {
        let ghost before = out@;
        let ghost rest = pads@;
        let p = pads.remove(0);
        proof {
            assert(p@ == line_pads(ts, d as int, i + 0));
            assert forall|k: int| 0 <= k < pads@.len() implies (#[trigger] pads@[k])@ == line_pads(
                ts,
                d as int,
                i + 1 + k,
            ) by {
                assert(pads@[k] == rest[k + 1]);
            }
        }
        let one = if p.len() > 0 {
            Some(Padding { width, pads: p })
        } else {
            None
        };
        out.push(one);
        proof {
            assert(widenings(out@) =~= widenings(before).push(widening(one)));
            assert(all.take(i + 1) =~= all.take(i as int).push(all[i as int]));
        }
        i += 1;
    }
    proof {
        assert(all.take(i as int) =~= all);
    }
    Some(out)
}

// ---------------------------------------------------------------------------
// All tables of a document
// ---------------------------------------------------------------------------

/// Lines `from..=to` with tabs as one space each, so that byte offsets and screen columns stay the
/// same number.
pub open spec fn untabbed(lines: Seq<Seq<char>>, from: int, to: int) -> Seq<Seq<char>> {
    Seq::new((to - from + 1) as nat, |i: int| replace_char(lines[from - 1 + i], '\t', ' '))
}

/// The padding of every line after the first `n` tables.
pub open spec fn paddings(lines: Seq<Seq<char>>, ranges: Seq<(int, int)>, n: int) -> Seq<
    Option<Widening>,
>
    decreases n,
{
    if n <= 0 {
        Seq::new(lines.len(), |k: int| None)
    } else {
        let before = paddings(lines, ranges, n - 1);
        let (from, to) = ranges[n - 1];
        if 1 <= from <= to <= lines.len() {
            match aligned(untabbed(lines, from, to)) {
                Some(v) => Seq::new(
                    lines.len(),
                    |k: int|
                        if from - 1 <= k < to {
                            v[k - (from - 1)]
                        } else {
                            before[k]
                        },
                ),
                None => before,
            }
        } else {
            before
        }
    }
}

/// The padding of every line of a document.
pub open spec fn document_paddings(lines: Seq<Seq<char>>, blocks: Seq<Block>) -> Seq<
    Option<Widening>,
> {
    let ranges = table_ranges(lines, blocks, blocks.len() as int);
    paddings(lines, ranges, ranges.len() as int)
}

fn untab(lines: &[String], from: usize, to: usize) -> (r: Vec<String>)
    requires
        1 <= from <= to <= lines@.len(),
    ensures
        texts(r@) == untabbed(texts(lines@), from as int, to as int),
{
    let mut out: Vec<String> = Vec::new();
    let mut l: usize = from;
    let ghost all = untabbed(texts(lines@), from as int, to as int);
    proof {
        assert(texts(out@) =~= all.take(0));
    }
    let n: usize = lines.len();
    while l <= to && l <= n
        invariant
            1 <= from <= l <= to + 1,
            to <= n,
            n == lines@.len(),
            all == untabbed(texts(lines@), from as int, to as int),
            texts(out@) == all.take(l - from),
        decreases to + 1 - l,
    {
        let ghost before = out@;
        let t = replaced(lines[l - 1].as_str(), '\t', ' ');
        proof {
            assert(texts(before.push(t)) =~= texts(before).push(t@));
            assert(all.take(l + 1 - from) =~= all.take(l - from).push(all[l - from]));
        }
        out.push(t);
        if l == to {
            proof {
                assert(all.take(l + 1 - from) =~= all);
            }
            return out;
        }
        l += 1;
    }
    out
}

impl Tables {
    pub open spec fn model(self) -> Seq<Option<Widening>> {
        widenings(self.lines@)
    }

    pub fn new(lines: &[String], blocks: &[Block]) -> (r: Self)
        ensures
            r.model() == document_paddings(texts(lines@), blocks@),
            r.lines@.len() == lines@.len(),
    {
        let ghost ls = texts(lines@);
        let n: usize = lines.len();
        let mut out: Vec<Option<Padding>> = Vec::new();
        while out.len() < n
            invariant
                out@.len() <= n,
                n == ls.len(),
                forall|k: int| 0 <= k < out@.len() ==> (#[trigger] out@[k]) is None,
            decreases n - out@.len(),
        {
            out.push(None);
        }
        let ranges = extents(lines, blocks);
        let ghost rs = range_pairs(ranges@);
        let mut t: usize = 0;
        proof {
            assert(widenings(out@) =~= paddings(ls, rs, 0));
        }
        while t < ranges.len()
            invariant
                ls == texts(lines@),
                n == lines@.len(),
                out@.len() == n,
                t <= ranges@.len(),
                rs == range_pairs(ranges@),
                widenings(out@) == paddings(ls, rs, t as int),
            decreases ranges@.len() - t,
        {
            let (from, to) = ranges[t];
            proof {
                assert(rs[t as int] == (from as int, to as int));
            }
            if 1 <= from && from <= to && to <= n {
                let rows = untab(lines, from, to);
                if let Some(mut v) = align(&rows) {
                    let ghost all = widenings(v@);
                    let ghost before = widenings(out@);
                    let mut i: usize = 0;
                    proof {
                        assert(all.len() == to - from + 1);
                    }
                    while v.len() > 0
                        invariant
                            1 <= from <= to <= n,
                            n == out@.len(),
                            i + v@.len() == to - from + 1,
                            all.len() == to - from + 1,
                            forall|k: int|
                                0 <= k < v@.len() ==> widening(#[trigger] v@[k]) == all[i + k],
                            before.len() == n,
                            widenings(out@) =~= Seq::new(
                                n as nat,
                                |k: int|
                                    if from - 1 <= k < from - 1 + i {
                                        all[k - (from - 1)]
                                    } else {
                                        before[k]
                                    },
                            ),
                        decreases v@.len(),
                    {
                        let ghost held = v@;
                        let p = v.remove(0);
                        let ghost w = widening(p);
                        let ghost cur = widenings(out@);
                        proof {
                            assert(w == all[i + 0]);
                            assert forall|k: int| 0 <= k < v@.len() implies widening(
                                #[trigger] v@[k],
                            ) == all[i + 1 + k] by {
                                assert(v@[k] == held[k + 1]);
                            }
                        }
                        out.set(from - 1 + i, p);
                        proof {
                            assert(widenings(out@) =~= cur.update(from - 1 + i, w));
                        }
                        i += 1;
                    }
                    proof {
                        assert(widenings(out@) =~= paddings(ls, rs, t + 1));
                    }
                }
            }
            t += 1;
        }
        Tables { lines: out }
    }

    /// The padding that aligns `line` in a body `width` cells wide, or `None` when the line is not
    /// in a table, the table is already aligned, or aligning it would push the table past the right
    /// edge.
    pub fn pads(&self, line: usize, width: usize) -> (r: Option<&[Pad]>)
        ensures
            match pads_at(self.model(), line as int, width as int) {
                None => r is None,
                Some(p) => r matches Some(v) && v@ == p,
            },
    {
        if line == 0 || line > self.lines.len() || width == 0 {
            return None;
        }
        proof {
            assert(self.model()[line - 1] == widening(self.lines@[line - 1]));
        }
        match &self.lines[line - 1] {
            Some(p) => if p.width <= width {
                Some(p.pads.as_slice())
            } else {
                None
            },
            None => None,
        }
    }
}

pub open spec fn pads_at(m: Seq<Option<Widening>>, line: int, width: int) -> Option<Seq<Pad>> {
    if 1 <= line <= m.len() && width > 0 {
        match m[line - 1] {
            Some(w) => if w.width <= width {
                Some(w.pads)
            } else {
                None
            },
            None => None,
        }
    } else {
        None
    }
}

// ---------------------------------------------------------------------------
// What padding does and does not do
// ---------------------------------------------------------------------------

/// Byte `i` of `s` starts a character, or is its end.
pub open spec fn on_char(s: Seq<char>, i: int) -> bool {
    exists|k: int| 0 <= k <= s.len() && #[trigger] offset(s, k) == i
}

/// The pads come in order, each between two characters of the line.
pub open spec fn pads_between(s: Seq<char>, pads: Seq<Pad>) -> bool {
    &&& forall|i: int| 0 <= i < pads.len() ==> on_char(s, (#[trigger] pads[i]).at as int)
    &&& forall|i: int, j: int|
        0 <= i < j < pads.len() ==> (#[trigger] pads[i]).at <= (#[trigger] pads[j]).at
}

proof fn lemma_cell_pads(s: Seq<char>, c: Field, rule: bool, g: Columns, j: int)
    requires
        cell_within(c, 0, s.len() as int),
        blen(s) <= usize::MAX,
    ensures
        pads_between(s, cell_pads(s, c, rule, g, j)),
        forall|i: int|
            0 <= i < cell_pads(s, c, rule, g, j).len() ==> offset(s, c.cs - c.lead) <= (
            #[trigger] cell_pads(s, c, rule, g, j)[i]).at <= offset(s, c.ce + c.trail),
{
    lemma_offset_mono(s, c.cs - c.lead, c.ce);
    lemma_offset_mono(s, c.ce, c.ce + c.trail);
    lemma_offset_mono(s, c.ce + c.trail, s.len() as int);
    lemma_offset_ends(s);
    if rule {
        let inner = content(s, c);
        lemma_after_dash(inner, inner.len() as int);
        let k = c.cs + after_dash(inner, inner.len() as int);
        lemma_offset_mono(s, c.cs, k);
        lemma_offset_mono(s, k, c.ce);
        lemma_offset_mono(s, c.cs - c.lead, c.cs);
    } else {
        assert(on_char(s, offset(s, c.cs - c.lead)));
        assert(on_char(s, offset(s, c.ce)));
    }
}

proof fn lemma_after_dash(s: Seq<char>, n: int)
    requires
        0 <= n <= s.len(),
    ensures
        0 <= after_dash(s, n) <= s.len(),
    decreases n,
{
    if n > 0 && s[n - 1] != '-' {
        lemma_after_dash(s, n - 1);
    }
}

proof fn lemma_row_pads(s: Seq<char>, row: Seq<Field>, rule: bool, g: Columns, n: int)
    requires
        in_order(row, s.len() as int),
        blen(s) <= usize::MAX,
        0 <= n <= row.len(),
    ensures
        pads_between(s, row_pads(s, row, rule, g, n)),
        n > 0 ==> forall|i: int|
            0 <= i < row_pads(s, row, rule, g, n).len() ==> (#[trigger] row_pads(s, row, rule, g, n)[i]).at
                <= offset(s, row[n - 1].ce + row[n - 1].trail),
    decreases n,
{
    if n > 0 {
        lemma_row_pads(s, row, rule, g, n - 1);
        let c = row[n - 1];
        assert(cell_within(c, 0, s.len() as int));
        lemma_cell_pads(s, c, rule, g, n - 1);
        let a = row_pads(s, row, rule, g, n - 1);
        let b = cell_pads(s, c, rule, g, n - 1);
        let r = row_pads(s, row, rule, g, n);
        if n > 1 {
            let d = row[n - 2];
            assert(d.ce + d.trail <= c.cs - c.lead);
            lemma_offset_mono(s, d.ce + d.trail, c.cs - c.lead);
        }
        lemma_offset_mono(s, c.cs - c.lead, c.ce + c.trail);
        assert forall|i: int| 0 <= i < r.len() implies on_char(s, (#[trigger] r[i]).at as int)
            && r[i].at <= offset(s, c.ce + c.trail) by {
            if i < a.len() {
                assert(r[i] == a[i]);
            } else {
                assert(r[i] == b[i - a.len()]);
            }
        }
        assert forall|i: int, j: int| 0 <= i < j < r.len() implies (#[trigger] r[i]).at <= (
        #[trigger] r[j]).at by {
            if j < a.len() {
                assert(r[i] == a[i] && r[j] == a[j]);
            } else if i < a.len() {
                assert(r[i] == a[i] && r[j] == b[j - a.len()]);
            } else {
                assert(r[i] == b[i - a.len()] && r[j] == b[j - a.len()]);
            }
        }
    }
}

proof fn lemma_untabbed_pads(line: Seq<char>, pads: Seq<Pad>)
    requires
        pads_between(replace_char(line, '\t', ' '), pads),
    ensures
        pads_between(line, pads),
{
    let t = replace_char(line, '\t', ' ');
    assert forall|i: int| 0 <= i < pads.len() implies on_char(line, (#[trigger] pads[i]).at as int) by {
        assert(on_char(t, pads[i].at as int));
        let k = choose|k: int| 0 <= k <= t.len() && #[trigger] offset(t, k) == pads[i].at;
        lemma_replace_offsets(line, '\t', ' ', k);
        assert(offset(line, k) == pads[i].at);
    }
}

/// Padding only inserts: every pad of every line of a document stands between two characters of its
/// line, and the pads of a line come in order.
pub proof fn law_pads_stand_between_characters(
    lines: Seq<Seq<char>>,
    ranges: Seq<(int, int)>,
    n: int,
    k: int,
)
    requires
        0 <= n <= ranges.len(),
        0 <= k < lines.len(),
        forall|i: int| 0 <= i < lines.len() ==> blen(#[trigger] lines[i]) <= usize::MAX,
    ensures
        paddings(lines, ranges, n).len() == lines.len(),
        paddings(lines, ranges, n)[k] matches Some(w) ==> pads_between(lines[k], w.pads),
    decreases n,
{
    if n > 0 {
        law_pads_stand_between_characters(lines, ranges, n - 1, k);
        let (from, to) = ranges[n - 1];
        if 1 <= from <= to <= lines.len() && from - 1 <= k < to {
            let ts = untabbed(lines, from, to);
            let i = k - (from - 1);
            if let Some(v) = aligned(ts) {
                let d = rule_row(ts, 0);
                let t = ts[i];
                lemma_replace_offsets(lines[k], '\t', ' ', lines[k].len() as int);
                lemma_offset_ends(lines[k]);
                lemma_offset_ends(t);
                lemma_cells_in_order(t);
                lemma_row_pads(t, cells_of(t), i == d, grid_of(ts, d), gridded(cells_of(t), grid_of(ts, d)));
                lemma_untabbed_pads(lines[k], line_pads(ts, d, i));
            }
        }
    }
}

/// The source pieces of a row show the bytes `[0, to)` of the line, in order, dropping nothing.
pub open spec fn shows(row: Seq<Piece>, to: int) -> bool
    decreases row.len(),
{
    if row.len() == 0 {
        to == 0
    } else {
        match row.last() {
            Piece::Src(s, e) => e == to && s <= e && shows(row.drop_last(), s as int),
            Piece::Pad { .. } => shows(row.drop_last(), to),
        }
    }
}

proof fn lemma_spliced(pads: Seq<Pad>, n: int)
    requires
        0 <= n <= pads.len(),
        forall|i: int, j: int|
            0 <= i < j < pads.len() ==> (#[trigger] pads[i]).at <= (#[trigger] pads[j]).at,
    ensures
        shows(spliced(pads, n), splice_at(pads, n)),
    decreases n,
{
    if n > 0 {
        lemma_spliced(pads, n - 1);
        let p = pads[n - 1];
        let at = splice_at(pads, n - 1);
        let before = spliced(pads, n - 1);
        if n > 1 {
            assert(pads[n - 2].at <= pads[n - 1].at);
        }
        if p.at > at {
            let src = before.push(Piece::Src(at as usize, p.at));
            assert(src.drop_last() =~= before);
            assert(shows(src, p.at as int));
            assert(spliced(pads, n).drop_last() =~= src);
        } else {
            assert(spliced(pads, n).drop_last() =~= before);
        }
    }
}

/// A padded row still shows its whole line, in order, dropping nothing.
pub proof fn law_padded_row_shows_the_whole_line(s: Seq<char>, pads: Seq<Pad>)
    requires
        pads_between(s, pads),
        blen(s) <= usize::MAX,
    ensures
        shows(padded_row(blen(s), pads), blen(s)),
{
    let n = pads.len() as int;
    lemma_spliced(pads, n);
    let at = splice_at(pads, n);
    lemma_offset_ends(s);
    if n > 0 {
        assert(on_char(s, pads[n - 1].at as int));
        let k = choose|k: int| 0 <= k <= s.len() && #[trigger] offset(s, k) == pads[n - 1].at;
        lemma_offset_mono(s, k, s.len() as int);
    } else {
        lemma_offset_mono(s, 0, s.len() as int);
    }
    if at < blen(s) || n == 0 {
        assert(padded_row(blen(s), pads).drop_last() =~= spliced(pads, n));
    }
}

proof fn lemma_column_bounds(ts: Seq<Seq<char>>, n: int, i: int, j: int, a: Align)
    requires
        0 <= i < n <= ts.len(),
        0 <= j < cells_of(ts[i]).len(),
    ensures
        cells_of(ts[i])[j].lead <= most_lead(ts, n, j),
        cells_of(ts[i])[j].trail <= most_trail(ts, n, j),
        needs(ts[i], cells_of(ts[i])[j], a) <= most_needs(ts, n, j, a),
    decreases n,
{
    if i < n - 1 {
        lemma_column_bounds(ts, n - 1, i, j, a);
    }
}

proof fn lemma_column_caps(ts: Seq<Seq<char>>, n: int, j: int, a: Align, cap: int)
    requires
        0 <= n <= ts.len(),
        0 <= j,
        65535 <= cap,
        3 * cap <= usize::MAX,
        forall|i: int| 0 <= i < ts.len() ==> (#[trigger] ts[i]).len() <= cap,
    ensures
        0 <= most_lead(ts, n, j) <= cap,
        0 <= most_trail(ts, n, j) <= cap,
        0 <= most_needs(ts, n, j, a) <= 3 * cap,
    decreases n,
{
    if n > 0 {
        lemma_column_caps(ts, n - 1, j, a, cap);
        lemma_cells_in_order(ts[n - 1]);
        if j < cells_of(ts[n - 1]).len() {
            assert(cell_within(cells_of(ts[n - 1])[j], 0, ts[n - 1].len() as int));
        }
    }
}

/// In a table whose rule row is row `d`, padding brings every closed cell of a column to one width,
/// so that the pipes line up -- the rule row by its own dashes -- and puts the content where the
/// column's alignment says: a left column's contents all start at one place, a right column's all
/// end at one.
pub proof fn law_columns_line_up(ts: Seq<Seq<char>>, d: int, i: int, j: int)
    requires
        0 <= d < ts.len(),
        0 <= i < ts.len(),
        0 <= j < cells_of(ts[i]).len(),
        j < grid_of(ts, d).aligns.len(),
        forall|k: int| 0 <= k < ts.len() ==> (#[trigger] ts[k]).len() <= usize::MAX / 8,
    ensures
        ({
            let g = grid_of(ts, d);
            let c = cells_of(ts[i])[j];
            let cw = content_cells(ts[i], c);
            let pads = cell_pads(ts[i], c, i == d, g, j);
            let lead = lead_for(ts[i], c, g, j);
            &&& c.closed || i == d ==> c.lead + cw + c.trail + pad_cells(pads) == g.width[j]
            &&& g.aligns[j] is Left ==> lead == g.lead[j]
            &&& g.aligns[j] is Right ==> lead + cw + g.trail[j] == g.width[j]
            &&& g.aligns[j] is Center ==> -1 <= 2 * lead + cw - g.width[j] <= 0 || lead == c.lead || lead
                + cw + c.trail == g.width[j]
        }),
{
    let g = grid_of(ts, d);
    let n = ts.len() as int;
    let c = cells_of(ts[i])[j];
    let cw = content_cells(ts[i], c);
    let pads = cell_pads(ts[i], c, i == d, g, j);
    let lead = lead_for(ts[i], c, g, j);
    let a = g.aligns[j];
    lemma_cells_in_order(ts[i]);
    assert(cell_within(c, 0, ts[i].len() as int));
    lemma_column_bounds(ts, n, i, j, a);
    assert(65535 <= usize::MAX / 8);
    lemma_column_caps(ts, n, j, a, usize::MAX as int / 8);
    reveal_with_fuel(pad_cells, 3);
    assert(g.width[j] == column_width(ts, j, a));
    if i != d {
        let p1 = some_pad(offset(ts[i], c.cs - c.lead), lead - c.lead, ' ', offset(ts[i], c.cs - c.lead));
        if c.closed {
            let p2 = some_pad(
                offset(ts[i], c.ce),
                minus(g.width[j], plus(plus(cw, lead), c.trail)),
                ' ',
                minus(offset(ts[i], c.ce + c.trail), 1),
            );
            assert(pads =~= p1 + p2);
            if p2.len() > 0 {
                assert((p1 + p2).drop_last() =~= p1);
            } else {
                assert(p1 + p2 =~= p1);
            }
            if p1.len() > 0 {
                assert(p1.drop_last() =~= Seq::<Pad>::empty());
            }
        }
    }
}

proof fn lemma_table_width(ts: Seq<Seq<char>>, d: int, n: int, i: int)
    requires
        0 <= i < n <= ts.len(),
    ensures
        plus(drawn(trim_end(ts[i])), pad_cells(line_pads(ts, d, i))) <= table_width(ts, d, n),
    decreases n,
{
    if i < n - 1 {
        lemma_table_width(ts, d, n - 1, i);
    }
}

/// No padded line of a table is wider than the width the table is laid out at, so a table that is
/// padded at all fits the pane it is padded for.
pub proof fn law_padded_lines_fit_the_table_width(ts: Seq<Seq<char>>, i: int)
    requires
        0 <= i < ts.len(),
    ensures
        aligned(ts) matches Some(v) ==> (v[i] matches Some(w) ==> plus(
            drawn(trim_end(ts[i])),
            pad_cells(w.pads),
        ) <= w.width),
{
    lemma_table_width(ts, rule_row(ts, 0), ts.len() as int, i);
}

// ---------------------------------------------------------------------------
// Which lines are tables, and which of them are padded
// ---------------------------------------------------------------------------

/// Line `l` is a line of one of the first `n` units that are table rows.
pub open spec fn in_a_row(blocks: Seq<Block>, n: int, l: int) -> bool {
    exists|i: int|
        0 <= i < n && (#[trigger] blocks[i]).kind@ == "table-row"@ && blocks[i].span.start.line <= l
            <= blocks[i].span.end.line
}

/// The lines from `a` to `b` are lines of one table.
pub open spec fn in_one_table(ranges: Seq<(int, int)>, a: int, b: int) -> bool {
    exists|r: int| 0 <= r < ranges.len() && (#[trigger] ranges[r]).0 <= a && b <= ranges[r].1
}

proof fn lemma_ranges(lines: Seq<Seq<char>>, blocks: Seq<Block>, n: int)
    requires
        0 <= n <= blocks.len(),
        forall|i: int|
            0 <= i < blocks.len() ==> (#[trigger] blocks[i]).span.start.line
                <= blocks[i].span.end.line,
    ensures
        ({
            let ranges = table_ranges(lines, blocks, n);
            &&& forall|r: int| 0 <= r < ranges.len() ==> (#[trigger] ranges[r]).0 <= ranges[r].1
            &&& forall|i: int|
                0 <= i < n && (#[trigger] blocks[i]).kind@ == "table-row"@ ==> in_one_table(
                    ranges,
                    blocks[i].span.start.line as int,
                    blocks[i].span.end.line as int,
                )
            &&& forall|r: int, l: int|
                #![trigger ranges[r], in_a_row(blocks, n, l)]
                0 <= r < ranges.len() && ranges[r].0 <= l <= ranges[r].1 ==> in_a_row(
                    blocks,
                    n,
                    l,
                )
            &&& forall|r: int, q: int|
                0 <= r && q == r + 1 && q < ranges.len() ==> !((#[trigger] ranges[r]).1 + 1 == (
                #[trigger] ranges[q]).0 && line_depth(lines, ranges[r].0) == line_depth(
                    lines,
                    ranges[q].0,
                ))
        }),
    decreases n,
{
    if n > 0 {
        lemma_ranges(lines, blocks, n - 1);
        let before = table_ranges(lines, blocks, n - 1);
        let ranges = table_ranges(lines, blocks, n);
        let b = blocks[n - 1];
        let (start, end) = (b.span.start.line as int, b.span.end.line as int);
        assert forall|l: int| in_a_row(blocks, n - 1, l) implies in_a_row(blocks, n, l) by {
            let i = choose|i: int|
                0 <= i < n - 1 && (#[trigger] blocks[i]).kind@ == "table-row"@
                    && blocks[i].span.start.line <= l <= blocks[i].span.end.line;
            assert(blocks[i].kind@ == "table-row"@);
        }
        if b.kind@ == "table-row"@ {
            let m = ranges.len() - 1;
            assert(ranges[m].1 == end && ranges[m].0 <= start);
            assert(forall|r: int| 0 <= r < m ==> ranges[r] == before[r]);
            assert forall|i: int| 0 <= i < n && (#[trigger] blocks[i]).kind@ == "table-row"@ implies
                in_one_table(
                ranges,
                blocks[i].span.start.line as int,
                blocks[i].span.end.line as int,
            ) by {
                if i < n - 1 {
                    let (x, y) = (blocks[i].span.start.line as int, blocks[i].span.end.line as int);
                    assert(in_one_table(before, x, y));
                    let r = choose|r: int|
                        0 <= r < before.len() && (#[trigger] before[r]).0 <= x && y <= before[r].1;
                    assert(ranges[r].0 <= x && y <= ranges[r].1);
                } else {
                    assert(ranges[m].0 <= start && end <= ranges[m].1);
                }
            }
            assert forall|r: int, l: int|
                #![trigger ranges[r], in_a_row(blocks, n, l)]
                0 <= r < ranges.len() && ranges[r].0 <= l <= ranges[r].1 implies in_a_row(blocks, n, l) by {
                if start <= l <= end {
                    assert(blocks[n - 1].kind@ == "table-row"@);
                } else {
                    assert(r < before.len() && before[r].0 <= l <= before[r].1);
                    assert(in_a_row(blocks, n - 1, l));
                }
            }
        }
    }
}

/// A table is the rows that follow each other line by line at one depth of quoting. Every unit that
/// is a table row lies in a table, whole; every line of a table is a line of a row; and two tables
/// that follow each other are not one: a line stands between them, or their depths differ.
pub proof fn law_tables_are_runs_of_rows(lines: Seq<Seq<char>>, blocks: Seq<Block>)
    requires
        forall|i: int|
            0 <= i < blocks.len() ==> (#[trigger] blocks[i]).span.start.line
                <= blocks[i].span.end.line,
    ensures
        ({
            let ranges = table_ranges(lines, blocks, blocks.len() as int);
            &&& forall|i: int|
                0 <= i < blocks.len() && (#[trigger] blocks[i]).kind@ == "table-row"@ ==> in_one_table(
                    ranges,
                    blocks[i].span.start.line as int,
                    blocks[i].span.end.line as int,
                )
            &&& forall|r: int, l: int|
                #![trigger ranges[r], in_a_row(blocks, blocks.len() as int, l)]
                0 <= r < ranges.len() && ranges[r].0 <= l <= ranges[r].1 ==> in_a_row(
                    blocks,
                    blocks.len() as int,
                    l,
                )
            &&& forall|r: int, q: int|
                0 <= r && q == r + 1 && q < ranges.len() ==> !((#[trigger] ranges[r]).1 + 1 == (
                #[trigger] ranges[q]).0 && line_depth(lines, ranges[r].0) == line_depth(
                    lines,
                    ranges[q].0,
                ))
        }),
{
    lemma_ranges(lines, blocks, blocks.len() as int);
}

proof fn lemma_paddings(lines: Seq<Seq<char>>, ranges: Seq<(int, int)>, n: int, i: int, k: int)
    requires
        0 <= i < n <= ranges.len(),
        1 <= ranges[i].0 <= k <= ranges[i].1 <= lines.len(),
        forall|j: int| i < j < n ==> !((#[trigger] ranges[j]).0 <= k <= ranges[j].1),
    ensures
        aligned(untabbed(lines, ranges[i].0, ranges[i].1)) matches Some(v) ==> paddings(lines, ranges, n)[k
            - 1] == v[k - ranges[i].0],
    decreases n,
{
    if i < n - 1 {
        lemma_paddings(lines, ranges, n - 1, i, k);
        assert(!(ranges[n - 1].0 <= k <= ranges[n - 1].1));
    }
}

proof fn lemma_no_padding(lines: Seq<Seq<char>>, ranges: Seq<(int, int)>, n: int, k: int)
    requires
        0 <= n <= ranges.len(),
        1 <= k <= lines.len(),
        forall|j: int| 0 <= j < n && (#[trigger] ranges[j]).0 <= k <= ranges[j].1 ==> aligned(
            untabbed(lines, ranges[j].0, ranges[j].1),
        ) is None,
    ensures
        paddings(lines, ranges, n)[k - 1] is None,
    decreases n,
{
    if n > 0 {
        lemma_no_padding(lines, ranges, n - 1, k);
    }
}

/// Every table of a document is padded, the last as well as the first: where aligning the lines of
/// table `i` on their own gives a padding, each of its lines has in the document the padding it has
/// there -- unless the line is a line of a later table too.
pub proof fn law_every_table_is_padded(lines: Seq<Seq<char>>, blocks: Seq<Block>, i: int, k: int)
    requires
        ({
            let ranges = table_ranges(lines, blocks, blocks.len() as int);
            &&& 0 <= i < ranges.len()
            &&& 1 <= ranges[i].0 <= k <= ranges[i].1 <= lines.len()
            &&& forall|j: int|
                i < j < ranges.len() ==> !((#[trigger] ranges[j]).0 <= k <= ranges[j].1)
        }),
    ensures
        ({
            let (from, to) = table_ranges(lines, blocks, blocks.len() as int)[i];
            aligned(untabbed(lines, from, to)) matches Some(v) ==> v.len() == to - from + 1
                && document_paddings(lines, blocks)[k - 1] == v[k - from]
        }),
{
    let ranges = table_ranges(lines, blocks, blocks.len() as int);
    lemma_paddings(lines, ranges, ranges.len() as int, i, k);
}

/// Only tables are padded: a line of no table has no padding, nor has one of a table that needs
/// none.
pub proof fn law_only_tables_are_padded(lines: Seq<Seq<char>>, blocks: Seq<Block>, k: int)
    requires
        1 <= k <= lines.len(),
        forall|j: int|
            0 <= j < table_ranges(lines, blocks, blocks.len() as int).len() && (
            #[trigger] table_ranges(lines, blocks, blocks.len() as int)[j]).0 <= k <= table_ranges(
                lines,
                blocks,
                blocks.len() as int,
            )[j].1 ==> aligned(
                untabbed(
                    lines,
                    table_ranges(lines, blocks, blocks.len() as int)[j].0,
                    table_ranges(lines, blocks, blocks.len() as int)[j].1,
                ),
            ) is None,
    ensures
        document_paddings(lines, blocks).len() == lines.len(),
        document_paddings(lines, blocks)[k - 1] is None,
{
    let ranges = table_ranges(lines, blocks, blocks.len() as int);
    lemma_no_padding(lines, ranges, ranges.len() as int, k);
    lemma_paddings_len(lines, ranges, ranges.len() as int);
}

proof fn lemma_paddings_len(lines: Seq<Seq<char>>, ranges: Seq<(int, int)>, n: int)
    requires
        0 <= n <= ranges.len(),
    ensures
        paddings(lines, ranges, n).len() == lines.len(),
    decreases n,
{
    if n > 0 {
        lemma_paddings_len(lines, ranges, n - 1);
    }
}

// ---------------------------------------------------------------------------
// What is padded, and by how much
// ---------------------------------------------------------------------------

/// The pads of a line, none where it has no padding.
pub open spec fn pads_of(w: Option<Widening>) -> Seq<Pad> {
    match w {
        Some(w) => w.pads,
        None => Seq::empty(),
    }
}

proof fn lemma_row_pads_hold(
    text: Seq<char>,
    row: Seq<Field>,
    rule: bool,
    g: Columns,
    n: int,
    j: int,
) -> (r: (Seq<Pad>, Seq<Pad>))
    requires
        0 <= j < n <= row.len(),
    ensures
        row_pads(text, row, rule, g, n) == r.0 + cell_pads(text, row[j], rule, g, j) + r.1,
    decreases n,
{
    let own = cell_pads(text, row[n - 1], rule, g, n - 1);
    let before = row_pads(text, row, rule, g, n - 1);
    if j == n - 1 {
        assert(row_pads(text, row, rule, g, n) =~= before + own + Seq::<Pad>::empty());
        (before, Seq::empty())
    } else {
        let (a, b) = lemma_row_pads_hold(text, row, rule, g, n - 1, j);
        assert(row_pads(text, row, rule, g, n) =~= a + cell_pads(text, row[j], rule, g, j) + (b + own));
        (a, b + own)
    }
}

/// The pads of a row of a padded table.
proof fn lemma_aligned_row(ts: Seq<Seq<char>>, i: int)
    requires
        aligned(ts) is Some,
        0 <= i < ts.len(),
    ensures
        0 <= rule_row(ts, 0) < ts.len(),
        aligned(ts)->0.len() == ts.len(),
        pads_of(aligned(ts)->0[i]) == line_pads(ts, rule_row(ts, 0), i),
{
    lemma_rule_row(ts, 0);
    assert(pads_of(aligned(ts)->0[i]) =~= line_pads(ts, rule_row(ts, 0), i));
}

/// Every cell of every row of a padded table gets its padding: the pads of a row hold, for each of
/// its cells that the grid has a column for, the pads of that cell, one cell after the other.
pub proof fn law_every_cell_of_a_table_is_padded(ts: Seq<Seq<char>>, i: int, j: int)
    requires
        aligned(ts) is Some,
        0 <= i < ts.len(),
        0 <= j < cells_of(ts[i]).len(),
        j < grid_of(ts, rule_row(ts, 0)).aligns.len(),
    ensures
        aligned(ts)->0.len() == ts.len(),
        exists|before: Seq<Pad>, after: Seq<Pad>|
            #![trigger before + after]
            pads_of(aligned(ts)->0[i]) == before + cell_pads(
                ts[i],
                cells_of(ts[i])[j],
                i == rule_row(ts, 0),
                grid_of(ts, rule_row(ts, 0)),
                j,
            ) + after,
{
    lemma_aligned_row(ts, i);
    let d = rule_row(ts, 0);
    let row = cells_of(ts[i]);
    let g = grid_of(ts, d);
    let (before, after) = lemma_row_pads_hold(ts[i], row, i == d, g, gridded(row, g), j);
    assert(before + after == before + after);
}

/// The pads of a cell stand at the cell, from where it starts to where it ends. They are dashes in
/// the rule row and spaces in every other, and none of them is empty.
pub proof fn law_pads_stand_at_their_cell(
    text: Seq<char>,
    c: Field,
    rule: bool,
    g: Columns,
    j: int,
    m: int,
)
    requires
        0 <= m < cell_pads(text, c, rule, g, j).len(),
        cell_within(c, 0, text.len() as int),
        blen(text) <= usize::MAX,
        0 <= j < g.width.len(),
        0 <= g.width[j] <= usize::MAX,
        content_cells(text, c) >= 0,
    ensures
        ({
            let p = cell_pads(text, c, rule, g, j)[m];
            &&& offset(text, c.cs - c.lead) <= p.at <= offset(text, c.ce + c.trail)
            &&& rule ==> p.fill == '-'
            &&& !rule ==> p.fill == ' '
            &&& p.n > 0
        }),
{
    lemma_offset_ends(text);
    lemma_offset_mono(text, 0, c.cs - c.lead);
    lemma_offset_mono(text, c.cs - c.lead, c.cs);
    lemma_offset_mono(text, c.cs, c.ce);
    lemma_offset_mono(text, c.ce, c.ce + c.trail);
    lemma_offset_mono(text, c.ce + c.trail, text.len() as int);
    lemma_after_dash(content(text, c), content(text, c).len() as int);
    let k = c.cs + after_dash(content(text, c), content(text, c).len() as int);
    lemma_offset_mono(text, c.cs, k);
    lemma_offset_mono(text, k, c.ce);
}

proof fn lemma_rule_row(ts: Seq<Seq<char>>, i: int)
    requires
        0 <= i <= ts.len(),
    ensures
        i <= rule_row(ts, i) <= ts.len(),
        rule_row(ts, i) < ts.len() ==> is_rule_row(ts[rule_row(ts, i)], cells_of(ts[rule_row(ts, i)])),
        forall|k: int|
            i <= k < rule_row(ts, i) ==> !is_rule_row(#[trigger] ts[k], cells_of(ts[k])),
    decreases ts.len() - i,
{
    if i < ts.len() && !is_rule_row(ts[i], cells_of(ts[i])) {
        lemma_rule_row(ts, i + 1);
    }
}

proof fn lemma_no_row_pads(text: Seq<char>, row: Seq<Field>, rule: bool, g: Columns, n: int, j: int)
    requires
        0 <= j < n <= row.len(),
        row_pads(text, row, rule, g, n).len() == 0,
    ensures
        cell_pads(text, row[j], rule, g, j).len() == 0,
    decreases n,
{
    if j < n - 1 {
        lemma_no_row_pads(text, row, rule, g, n - 1, j);
    }
}

/// A table is left alone only where its columns line up already, or where it has no rule row: with
/// one, every closed cell of an unpadded row has the width of its column.
pub proof fn law_what_is_left_alone_lines_up(ts: Seq<Seq<char>>, i: int, j: int)
    requires
        rule_row(ts, 0) < ts.len(),
        aligned(ts) is None || aligned(ts)->0[i] is None,
        0 <= i < ts.len(),
        0 <= j < cells_of(ts[i]).len(),
        j < grid_of(ts, rule_row(ts, 0)).aligns.len(),
        forall|k: int| 0 <= k < ts.len() ==> (#[trigger] ts[k]).len() <= usize::MAX / 8,
    ensures
        ({
            let d = rule_row(ts, 0);
            let c = cells_of(ts[i])[j];
            c.closed || i == d ==> c.lead + content_cells(ts[i], c) + c.trail == grid_of(
                ts,
                d,
            ).width[j]
        }),
{
    lemma_rule_row(ts, 0);
    let d = rule_row(ts, 0);
    let g = grid_of(ts, d);
    let row = cells_of(ts[i]);
    assert(line_pads(ts, d, i).len() == 0);
    lemma_no_row_pads(ts[i], row, i == d, g, gridded(row, g), j);
    law_columns_line_up(ts, d, i, j);
    assert(cell_pads(ts[i], row[j], i == d, g, j) =~= Seq::<Pad>::empty());
}

/// The rule row is the first row whose cells are all rules, and a table without one is not padded.
pub proof fn law_the_rule_row_is_the_first_of_rules(ts: Seq<Seq<char>>)
    ensures
        0 <= rule_row(ts, 0) <= ts.len(),
        rule_row(ts, 0) < ts.len() ==> ({
            let text = ts[rule_row(ts, 0)];
            let row = cells_of(text);
            row.len() > 0 && forall|j: int|
                0 <= j < row.len() ==> rule_of(text.subrange((#[trigger] row[j]).cs, row[j].ce)) is Some
        }),
        forall|k: int|
            0 <= k < rule_row(ts, 0) ==> cells_of(#[trigger] ts[k]).len() == 0 || exists|j: int|
                0 <= j < cells_of(ts[k]).len() && rule_of(
                    ts[k].subrange((#[trigger] cells_of(ts[k])[j]).cs, cells_of(ts[k])[j].ce),
                ) is None,
        rule_row(ts, 0) == ts.len() ==> aligned(ts) is None,
{
    lemma_rule_row(ts, 0);
    if rule_row(ts, 0) < ts.len() {
        let text = ts[rule_row(ts, 0)];
        let row = cells_of(text);
        assert forall|j: int| 0 <= j < row.len() implies rule_of(
            text.subrange((#[trigger] row[j]).cs, row[j].ce),
        ) is Some by {
            assert(rule_of(content(text, row[j])) is Some);
        }
    }
    assert forall|k: int| 0 <= k < rule_row(ts, 0) implies cells_of(#[trigger] ts[k]).len() == 0
        || exists|j: int|
        0 <= j < cells_of(ts[k]).len() && rule_of(
            ts[k].subrange((#[trigger] cells_of(ts[k])[j]).cs, cells_of(ts[k])[j].ce),
        ) is None by {
        assert(!is_rule_row(ts[k], cells_of(ts[k])));
        if cells_of(ts[k]).len() > 0 {
            let j = choose|j: int|
                0 <= j < cells_of(ts[k]).len() && rule_of(
                    content(ts[k], #[trigger] cells_of(ts[k])[j]),
                ) is None;
            assert(content(ts[k], cells_of(ts[k])[j]) == ts[k].subrange(
                cells_of(ts[k])[j].cs,
                cells_of(ts[k])[j].ce,
            ));
        }
    }
}

/// A rule is dashes, at least one, with a colon at the end or ends that the column is aligned to; in
/// the middle with both, to the left with none.
pub proof fn law_a_rule_is_dashes_and_colons(dashes: Seq<char>, left: bool, right: bool)
    requires
        dashes.len() > 0,
        forall|i: int| 0 <= i < dashes.len() ==> #[trigger] dashes[i] == '-',
    ensures
        rule_of(
            (if left {
                seq![':']
            } else {
                Seq::empty()
            }) + dashes + (if right {
                seq![':']
            } else {
                Seq::empty()
            }),
        ) == Some(
            if left && right {
                Align::Center
            } else if right {
                Align::Right
            } else {
                Align::Left
            },
        ),
{
    let a: Seq<char> = if left {
        seq![':']
    } else {
        Seq::empty()
    };
    let b: Seq<char> = if right {
        seq![':']
    } else {
        Seq::empty()
    };
    let s = a + dashes + b;
    assert(s[0] == if left {
        ':'
    } else {
        dashes[0]
    });
    assert(s.last() == if right {
        ':'
    } else {
        dashes[dashes.len() - 1]
    });
    lemma_trimmed(s);
    let t = if left {
        s.skip(1)
    } else {
        s
    };
    assert(t =~= dashes + b);
    assert(t.last() == s.last());
    let u = if right {
        t.drop_last()
    } else {
        t
    };
    assert(u =~= dashes);
    assert(all_dashes(dashes));
}

/// Nothing is a rule that holds anything but dashes and colons, white space around it aside.
pub proof fn law_nothing_else_is_a_rule(text: Seq<char>, k: int)
    requires
        0 <= k < trim(text).len(),
        trim(text)[k] != '-',
        trim(text)[k] != ':',
    ensures
        rule_of(text) is None,
{
    let s = trim(text);
    let left = s[0] == ':';
    let t = if left {
        s.skip(1)
    } else {
        s
    };
    let m = if left {
        k - 1
    } else {
        k
    };
    assert(t[m] == s[k]);
    let right = t.last() == ':';
    let u = if right {
        t.drop_last()
    } else {
        t
    };
    assert(u[m] == s[k]);
    assert(!all_dashes(u));
}

/// A text with no white space at either end is its own trim.
proof fn lemma_trimmed(s: Seq<char>)
    requires
        s.len() > 0,
        !is_white(s[0]),
        !is_white(s.last()),
    ensures
        trim(s) == s,
{
    let p = |c: char| is_white(c);
    crate::text::lemma_strip_front(s, p, 0);
    assert(s.skip(0) =~= s);
    crate::text::lemma_strip_back(s, p, s.len() as int);
    assert(s.take(s.len() as int) =~= s);
}

proof fn lemma_width_is_reached(ts: Seq<Seq<char>>, d: int, n: int) -> (i: int)
    requires
        0 < n <= ts.len(),
    ensures
        0 <= i < n,
        plus(drawn(trim_end(ts[i])), pad_cells(line_pads(ts, d, i))) == table_width(ts, d, n),
    decreases n,
{
    let own = plus(drawn(trim_end(ts[n - 1])), pad_cells(line_pads(ts, d, n - 1)));
    lemma_pad_cells(line_pads(ts, d, n - 1));
    assert(table_width(ts, d, 0) == 0);
    if n == 1 || own >= table_width(ts, d, n - 1) {
        n - 1
    } else {
        lemma_width_is_reached(ts, d, n - 1)
    }
}

proof fn lemma_pad_cells(pads: Seq<Pad>)
    ensures
        pad_cells(pads) >= 0,
    decreases pads.len(),
{
    if pads.len() > 0 {
        lemma_pad_cells(pads.drop_last());
    }
}

/// A table is not said to be wider than it is: one of its lines, padded, takes the width that the
/// table is laid out at, so a table that fits a pane is padded in it.
pub proof fn law_a_table_is_as_wide_as_its_widest_line(ts: Seq<Seq<char>>)
    requires
        aligned(ts) is Some,
    ensures
        exists|i: int|
            0 <= i < ts.len() && forall|k: int|
                0 <= k < ts.len() && (#[trigger] aligned(ts)->0[k]) is Some ==> (aligned(
                    ts,
                )->0[k]->0).width == plus(
                    drawn(trim_end(#[trigger] ts[i])),
                    pad_cells(pads_of(aligned(ts)->0[i])),
                ),
{
    let d = rule_row(ts, 0);
    let n = ts.len() as int;
    lemma_rule_row(ts, 0);
    let i = lemma_width_is_reached(ts, d, n);
    let v = aligned(ts)->0;
    assert(pads_of(v[i]) =~= line_pads(ts, d, i));
    assert forall|k: int| 0 <= k < ts.len() && (#[trigger] v[k]) is Some implies (v[k]->0).width
        == plus(drawn(trim_end(ts[i])), pad_cells(pads_of(v[i]))) by {
        assert((v[k]->0).width == table_width(ts, d, n));
    }
}

proof fn lemma_needs_reached(ts: Seq<Seq<char>>, n: int, j: int, a: Align) -> (i: int)
    requires
        0 <= n <= ts.len(),
        0 <= j,
    ensures
        most_needs(ts, n, j, a) > 0 ==> 0 <= i < n && j < cells_of(ts[i]).len() && needs(
            ts[i],
            cells_of(ts[i])[j],
            a,
        ) == most_needs(ts, n, j, a),
    decreases n,
{
    if n == 0 {
        0
    } else {
        let row = cells_of(ts[n - 1]);
        if j < row.len() && needs(ts[n - 1], row[j], a) >= most_needs(ts, n - 1, j, a) {
            n - 1
        } else {
            lemma_needs_reached(ts, n - 1, j, a)
        }
    }
}

proof fn lemma_lead_reached(ts: Seq<Seq<char>>, n: int, j: int) -> (i: int)
    requires
        0 <= n <= ts.len(),
        0 <= j,
    ensures
        most_lead(ts, n, j) > 0 ==> 0 <= i < n && j < cells_of(ts[i]).len() && cells_of(ts[i])[j].lead
            == most_lead(ts, n, j),
    decreases n,
{
    if n == 0 {
        0
    } else {
        let row = cells_of(ts[n - 1]);
        if j < row.len() && row[j].lead >= most_lead(ts, n - 1, j) {
            n - 1
        } else {
            lemma_lead_reached(ts, n - 1, j)
        }
    }
}

proof fn lemma_trail_reached(ts: Seq<Seq<char>>, n: int, j: int) -> (i: int)
    requires
        0 <= n <= ts.len(),
        0 <= j,
    ensures
        most_trail(ts, n, j) > 0 ==> 0 <= i < n && j < cells_of(ts[i]).len() && cells_of(
            ts[i],
        )[j].trail == most_trail(ts, n, j),
    decreases n,
{
    if n == 0 {
        0
    } else {
        let row = cells_of(ts[n - 1]);
        if j < row.len() && row[j].trail >= most_trail(ts, n - 1, j) {
            n - 1
        } else {
            lemma_trail_reached(ts, n - 1, j)
        }
    }
}

/// Some row has, in column `j`, a cell whose content and gaps say `n`.
pub open spec fn left_asks(ts: Seq<Seq<char>>, j: int, n: int) -> bool {
    exists|i: int|
        0 <= i < ts.len() && j < cells_of(#[trigger] ts[i]).len() && content_cells(
            ts[i],
            cells_of(ts[i])[j],
        ) + cells_of(ts[i])[j].trail == n
}

pub open spec fn right_asks(ts: Seq<Seq<char>>, j: int, n: int) -> bool {
    exists|i: int|
        0 <= i < ts.len() && j < cells_of(#[trigger] ts[i]).len() && cells_of(ts[i])[j].lead
            + content_cells(ts[i], cells_of(ts[i])[j]) == n
}

pub open spec fn cell_asks(ts: Seq<Seq<char>>, j: int, n: int) -> bool {
    exists|i: int|
        0 <= i < ts.len() && j < cells_of(#[trigger] ts[i]).len() && cells_of(ts[i])[j].lead
            + content_cells(ts[i], cells_of(ts[i])[j]) + cells_of(ts[i])[j].trail == n
}

pub open spec fn opens_with(ts: Seq<Seq<char>>, j: int, n: int) -> bool {
    exists|i: int|
        0 <= i < ts.len() && j < cells_of(#[trigger] ts[i]).len() && cells_of(ts[i])[j].lead == n
}

pub open spec fn closes_with(ts: Seq<Seq<char>>, j: int, n: int) -> bool {
    exists|i: int|
        0 <= i < ts.len() && j < cells_of(#[trigger] ts[i]).len() && cells_of(ts[i])[j].trail == n
}

proof fn lemma_cell_sizes(ts: Seq<Seq<char>>, i: int, j: int)
    requires
        0 <= i < ts.len(),
        0 <= j < cells_of(ts[i]).len(),
        ts[i].len() <= usize::MAX / 8,
    ensures
        0 <= cells_of(ts[i])[j].lead <= usize::MAX / 8,
        0 <= cells_of(ts[i])[j].trail <= usize::MAX / 8,
        0 <= content_cells(ts[i], cells_of(ts[i])[j]) <= 65535,
{
    lemma_cells_in_order(ts[i]);
    assert(cell_within(cells_of(ts[i])[j], 0, ts[i].len() as int));
}

/// A column to the left is no wider than its cells ask for: the widest opening gap, which some cell
/// opens with, and the widest content with its closing gap, which some cell has.
pub proof fn law_a_left_column_is_as_wide_as_its_cells_ask(ts: Seq<Seq<char>>, d: int, j: int)
    requires
        0 <= d < ts.len(),
        0 <= j < grid_of(ts, d).aligns.len(),
        grid_of(ts, d).aligns[j] is Left,
        forall|k: int| 0 <= k < ts.len() ==> (#[trigger] ts[k]).len() <= usize::MAX / 8,
    ensures
        grid_of(ts, d).lead[j] == 0 || opens_with(ts, j, grid_of(ts, d).lead[j]),
        grid_of(ts, d).width[j] == grid_of(ts, d).lead[j] || left_asks(
            ts,
            j,
            grid_of(ts, d).width[j] - grid_of(ts, d).lead[j],
        ),
{
    let n = ts.len() as int;
    let a = Align::Left;
    assert(65535 <= usize::MAX / 8);
    lemma_column_caps(ts, n, j, a, usize::MAX as int / 8);
    assert(grid_of(ts, d).width[j] == column_width(ts, j, a));
    let i = lemma_needs_reached(ts, n, j, a);
    let k = lemma_lead_reached(ts, n, j);
    if most_lead(ts, n, j) > 0 {
        assert(j < cells_of(ts[k]).len());
    }
    if most_needs(ts, n, j, a) > 0 {
        lemma_cell_sizes(ts, i, j);
        assert(j < cells_of(ts[i]).len());
    }
}

/// A column to the right is no wider than its cells ask for: the widest content with its opening gap,
/// and the widest closing gap, each of them found in some cell.
pub proof fn law_a_right_column_is_as_wide_as_its_cells_ask(ts: Seq<Seq<char>>, d: int, j: int)
    requires
        0 <= d < ts.len(),
        0 <= j < grid_of(ts, d).aligns.len(),
        grid_of(ts, d).aligns[j] is Right,
        forall|k: int| 0 <= k < ts.len() ==> (#[trigger] ts[k]).len() <= usize::MAX / 8,
    ensures
        grid_of(ts, d).trail[j] == 0 || closes_with(ts, j, grid_of(ts, d).trail[j]),
        grid_of(ts, d).width[j] == grid_of(ts, d).trail[j] || right_asks(
            ts,
            j,
            grid_of(ts, d).width[j] - grid_of(ts, d).trail[j],
        ),
{
    let n = ts.len() as int;
    let a = Align::Right;
    assert(65535 <= usize::MAX / 8);
    lemma_column_caps(ts, n, j, a, usize::MAX as int / 8);
    assert(grid_of(ts, d).width[j] == column_width(ts, j, a));
    let i = lemma_needs_reached(ts, n, j, a);
    let k = lemma_trail_reached(ts, n, j);
    if most_trail(ts, n, j) > 0 {
        assert(j < cells_of(ts[k]).len());
    }
    if most_needs(ts, n, j, a) > 0 {
        lemma_cell_sizes(ts, i, j);
        assert(j < cells_of(ts[i]).len());
    }
}

/// A column in the middle is as wide as its widest cell.
pub proof fn law_a_middle_column_is_as_wide_as_its_cells_ask(ts: Seq<Seq<char>>, d: int, j: int)
    requires
        0 <= d < ts.len(),
        0 <= j < grid_of(ts, d).aligns.len(),
        grid_of(ts, d).aligns[j] is Center,
        forall|k: int| 0 <= k < ts.len() ==> (#[trigger] ts[k]).len() <= usize::MAX / 8,
    ensures
        grid_of(ts, d).width[j] == 0 || cell_asks(ts, j, grid_of(ts, d).width[j]),
{
    let n = ts.len() as int;
    let a = Align::Center;
    assert(65535 <= usize::MAX / 8);
    lemma_column_caps(ts, n, j, a, usize::MAX as int / 8);
    assert(grid_of(ts, d).width[j] == column_width(ts, j, a));
    let i = lemma_needs_reached(ts, n, j, a);
    if most_needs(ts, n, j, a) > 0 {
        lemma_cell_sizes(ts, i, j);
        assert(j < cells_of(ts[i]).len());
    }
}

/// A `|` separates cells unless a backslash stands right before it that is not itself escaped: every
/// separator is a `|`, and every `|` that no backslash precedes is one.
pub proof fn law_bars_are_the_unescaped_pipes(s: Seq<char>, k: int)
    ensures
        bars_from(s, 0).contains(k) ==> 0 <= k < s.len() && s[k] == '|',
        0 <= k < s.len() && s[k] == '|' && (k == 0 || s[k - 1] != '\\') ==> bars_from(s, 0).contains(k),
        0 < k < s.len() && s[k - 1] == '\\' && (k == 1 || s[k - 2] != '\\') ==> !bars_from(s, 0).contains(
            k,
        ),
{
    lemma_bars_are(s, 0, k);
}

proof fn lemma_bars_are(s: Seq<char>, from: int, k: int)
    requires
        0 <= from,
    ensures
        bars_from(s, from).contains(k) ==> from <= k < s.len() && s[k] == '|',
        from <= k < s.len() && s[k] == '|' && (k == from || s[k - 1] != '\\') ==> bars_from(
            s,
            from,
        ).contains(k),
        from < k < s.len() && s[k - 1] == '\\' && (k == from + 1 || s[k - 2] != '\\') ==> !bars_from(
            s,
            from,
        ).contains(k),
    decreases s.len() - from,
{
    let r = bars_from(s, from);
    if from < s.len() {
        if s[from] == '\\' {
            if from + 1 < s.len() {
                lemma_bars_are(s, from + 2, k);
            }
        } else {
            lemma_bars_are(s, from + 1, k);
            let t = bars_from(s, from + 1);
            if s[from] == '|' {
                assert(r[0] == from);
                if t.contains(k) {
                    let m = choose|m: int| 0 <= m < t.len() && t[m] == k;
                    assert(r[m + 1] == k);
                }
                if r.contains(k) && k != from {
                    let m = choose|m: int| 0 <= m < r.len() && r[m] == k;
                    assert(t[m - 1] == k);
                }
            }
        }
    }
}

/// Between two neighbouring bars lies one cell, which takes all of what is between them: a gap of
/// spaces, the content, and a gap of spaces. The content neither starts nor ends with a space, and a
/// cell of nothing but spaces has none. Before the first bar and behind the last one there is a cell
/// where anything but white space stands.
pub proof fn law_cells_lie_between_the_bars(s: Seq<char>, i: int)
    requires
        0 <= i < bars_from(s, 0).len(),
    ensures
        ({
            let bars = bars_from(s, 0);
            let row = cells_of(s);
            let h: int = if is_blank(s.take(bars[0])) {
                0
            } else {
                1
            };
            let t: int = if is_blank(s.skip(bars.last() + 1)) {
                0
            } else {
                1
            };
            &&& row.len() == h + (bars.len() - 1) + t
            &&& h == 1 ==> cell_spans(s, row[0], 0, bars[0]) && row[0].closed
            &&& i + 1 < bars.len() ==> cell_spans(s, row[h + i], bars[i] + 1, bars[i + 1]) && row[h
                + i].closed
            &&& t == 1 ==> !row.last().closed && row.last().trail == 0 && row.last().cs
                - row.last().lead == bars.last() + 1
        }),
{
    let bars = bars_from(s, 0);
    lemma_bars(s, 0);
    lemma_cell_spans(s, 0, bars[0]);
    if i + 1 < bars.len() {
        assert(bars[i] < bars[i + 1]);
        lemma_cell_spans(s, bars[i] + 1, bars[i + 1]);
    }
    assert(bars.last() == bars[bars.len() - 1]);
    lemma_cell_of(s, bars.last() + 1, s.len() as int, false);
}

/// The cell takes all of `[a, b)`: spaces, a content that spaces do not touch from inside, spaces.
pub open spec fn cell_spans(s: Seq<char>, c: Field, a: int, b: int) -> bool {
    &&& a == c.cs - c.lead && c.cs <= c.ce && c.ce + c.trail == b && c.lead >= 0 && c.trail >= 0
    &&& forall|k: int| a <= k < c.cs ==> space(#[trigger] s[k])
    &&& forall|k: int| c.ce <= k < b ==> space(#[trigger] s[k])
    &&& c.cs < c.ce ==> !space(s[c.cs]) && !space(s[c.ce - 1])
}

proof fn lemma_cell_spans(s: Seq<char>, a: int, b: int)
    requires
        0 <= a <= b <= s.len(),
    ensures
        cell_spans(s, cell_of(s, a, b, true), a, b),
{
    let inner = s.subrange(a, b);
    let p = |c: char| space(c);
    let c = cell_of(s, a, b, true);
    lemma_cell_of(s, a, b, true);
    lemma_front_run_exists(inner, p);
    lemma_back_run_exists(inner, p);
    let lead = front_run(inner, p);
    let n = strip_back(inner, p).len() as int;
    assert forall|k: int| a <= k < c.cs implies space(#[trigger] s[k]) by {
        assert(inner[k - a] == s[k]);
        assert(p(inner[k - a]));
    }
    assert forall|k: int| c.ce <= k < b implies space(#[trigger] s[k]) by {
        assert(inner[k - a] == s[k]);
        assert(p(inner[k - a]));
    }
    if n > 0 {
        assert(inner[n - 1] == s[a + n - 1]);
        assert(!p(inner[n - 1]));
        if lead > n - 1 {
            assert(p(inner[n - 1]));
        }
        assert(inner[lead] == s[a + lead]);
    }
}

/// Padding is used where the whole table fits the pane, and nowhere else.
pub proof fn law_padding_is_used_where_it_fits(m: Seq<Option<Widening>>, line: int, width: int)
    requires
        1 <= line <= m.len(),
        width > 0,
    ensures
        m[line - 1] matches Some(w) ==> (w.width <= width ==> pads_at(m, line, width) == Some(w.pads))
            && (w.width > width ==> pads_at(m, line, width) is None),
        m[line - 1] is None ==> pads_at(m, line, width) is None,
{
}

/// Each pad of a padded row stands behind the source bytes before its place and ahead of those after
/// it, with its own width, fill and anchor.
pub proof fn law_a_padded_row_shows_every_pad(len: int, pads: Seq<Pad>, i: int)
    requires
        0 <= i < pads.len(),
        forall|a: int, b: int|
            0 <= a < b < pads.len() ==> (#[trigger] pads[a]).at <= (#[trigger] pads[b]).at,
    ensures
        exists|left: Seq<Piece>, right: Seq<Piece>|
            #![trigger left + right]
            padded_row(len, pads) == left + seq![
                Piece::Pad { n: pads[i].n, fill: pads[i].fill, anchor: pads[i].anchor },
            ] + right && shows(left, pads[i].at as int),
{
    let n = pads.len() as int;
    let (left, right) = lemma_spliced_pad(pads, n, i);
    let pad = seq![Piece::Pad { n: pads[i].n, fill: pads[i].fill, anchor: pads[i].anchor }];
    let at = splice_at(pads, n);
    let row = padded_row(len, pads);
    let end = if at < len || n == 0 {
        seq![Piece::Src(at as usize, len as usize)]
    } else {
        Seq::empty()
    };
    assert(row =~= spliced(pads, n) + end);
    assert(row =~= left + pad + (right + end));
    assert(left + (right + end) == left + (right + end));
}

proof fn lemma_spliced_pad(pads: Seq<Pad>, n: int, i: int) -> (r: (Seq<Piece>, Seq<Piece>))
    requires
        0 <= i < n <= pads.len(),
        forall|a: int, b: int|
            0 <= a < b < pads.len() ==> (#[trigger] pads[a]).at <= (#[trigger] pads[b]).at,
    ensures
        spliced(pads, n) == r.0 + seq![
            Piece::Pad { n: pads[i].n, fill: pads[i].fill, anchor: pads[i].anchor },
        ] + r.1,
        shows(r.0, pads[i].at as int),
    decreases n,
{
    let pad = seq![Piece::Pad { n: pads[i].n, fill: pads[i].fill, anchor: pads[i].anchor }];
    let p = pads[n - 1];
    let at = splice_at(pads, n - 1);
    let before = spliced(pads, n - 1);
    let src = if p.at > at {
        before.push(Piece::Src(at as usize, p.at))
    } else {
        before
    };
    lemma_spliced(pads, n - 1);
    if i == n - 1 {
        if n > 1 {
            assert(pads[n - 2].at <= pads[n - 1].at);
        }
        if p.at > at {
            assert(src.drop_last() =~= before);
        }
        assert(spliced(pads, n) =~= src + pad + Seq::<Piece>::empty());
        (src, Seq::empty())
    } else {
        let (left, right) = lemma_spliced_pad(pads, n - 1, i);
        let last = Piece::Pad { n: p.n, fill: p.fill, anchor: p.anchor };
        let more = if p.at > at {
            right.push(Piece::Src(at as usize, p.at)).push(last)
        } else {
            right.push(last)
        };
        assert(spliced(pads, n) =~= left + pad + more);
        (left, more)
    }
}

proof fn lemma_markers_front(c: char, s: Seq<char>)
    ensures
        markers(seq![c] + s) == markers(s) + if c == '>' {
            1int
        } else {
            0
        },
    decreases s.len(),
{
    let t = seq![c] + s;
    if s.len() == 0 {
        assert(t.drop_last() =~= s);
    } else {
        lemma_markers_front(c, s.drop_last());
        assert(t.drop_last() =~= seq![c] + s.drop_last());
    }
}

/// The depth of a line is the number of quote markers it opens with, spaces and tabs between them
/// aside: one more for each `>` in front, none for a blank in front, none at all once anything else
/// stands there.
pub proof fn law_depth_counts_the_quote_markers(c: char, s: Seq<char>)
    ensures
        depth_of(seq!['>'] + s) == depth_of(s) + 1,
        depth_of(seq![' '] + s) == depth_of(s),
        depth_of(seq!['\t'] + s) == depth_of(s),
        c != '>' && c != ' ' && c != '\t' ==> depth_of(seq![c] + s) == 0,
        depth_of(Seq::empty()) == 0,
{
    lemma_depth_front('>', s);
    lemma_depth_front(' ', s);
    lemma_depth_front('\t', s);
    let p = |x: char| is_chrome(x);
    if c != '>' && c != ' ' && c != '\t' {
        let t = seq![c] + s;
        lemma_strip_front(t, p, 0);
        assert(t.take(0) =~= Seq::<char>::empty());
    }
    lemma_strip_front(Seq::<char>::empty(), p, 0);
    assert(Seq::<char>::empty().take(0) =~= Seq::<char>::empty());
}

proof fn lemma_depth_front(c: char, s: Seq<char>)
    requires
        c == '>' || c == ' ' || c == '\t',
    ensures
        depth_of(seq![c] + s) == depth_of(s) + if c == '>' {
            1int
        } else {
            0
        },
{
    let p = |x: char| is_chrome(x);
    let t = seq![c] + s;
    lemma_front_run_exists(s, p);
    let n = front_run(s, p);
    assert forall|i: int| 0 <= i < n + 1 implies p(#[trigger] t[i]) by {
        if i > 0 {
            assert(t[i] == s[i - 1]);
            assert(p(s[i - 1]));
        }
    }
    if n + 1 < t.len() {
        assert(t[n + 1] == s[n]);
    }
    lemma_strip_front(t, p, n + 1);
    assert(t.take(n + 1) =~= seq![c] + s.take(n));
    lemma_markers_front(c, s.take(n));
}

/// A pad takes its style from its own cell: the one that opens a cell from its first byte, the one
/// that closes it from its last, the one in a rule from the dash before it.
pub proof fn law_pads_take_the_style_of_their_cell(
    text: Seq<char>,
    c: Field,
    rule: bool,
    g: Columns,
    j: int,
    m: int,
)
    requires
        0 <= m < cell_pads(text, c, rule, g, j).len(),
        cell_within(c, 0, text.len() as int),
        blen(text) <= usize::MAX,
    ensures
        ({
            let p = cell_pads(text, c, rule, g, j)[m];
            let first = offset(text, c.cs - c.lead);
            let end = offset(text, c.ce + c.trail);
            &&& !rule && p.at < offset(text, c.cs) ==> p.anchor == first || p.at == offset(text, c.ce)
            &&& !rule ==> p.anchor == first || p.anchor == end - 1 || end == 0
            &&& rule && p.at > 0 ==> p.anchor == p.at - 1
        }),
{
    lemma_offset_ends(text);
    lemma_offset_mono(text, 0, c.cs - c.lead);
    lemma_offset_mono(text, c.cs - c.lead, c.cs);
    lemma_offset_mono(text, c.cs, c.ce);
    lemma_offset_mono(text, c.ce, c.ce + c.trail);
    lemma_offset_mono(text, c.ce + c.trail, text.len() as int);
    lemma_after_dash(content(text, c), content(text, c).len() as int);
    let k = c.cs + after_dash(content(text, c), content(text, c).len() as int);
    lemma_offset_mono(text, c.cs, k);
    lemma_offset_mono(text, k, c.ce);
}

} // verus!
