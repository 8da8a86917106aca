//! Line wrapping.
//!
//! `wrap_line` is the primitive and reports **byte ranges**, not strings: a row is a byte window
//! of its line, so a mark within the line rebases onto a row by clipping.
//!
//! # Two measures of width, and the rule for picking one
//!
//! - [`cells_claimed`] is `Span::width()`: what a string's own width decides, the size of a block
//!   title's area.
//! - [`cells_drawn`] is `str::cell_width`: one cell more per halfwidth katakana sound mark
//!   (`U+FF9E`/`U+FF9F`), which is what reaches the screen.
//!
//! Fit it to a pane with [`cells_drawn`], size a title with [`cells_claimed`]. The drawn width is
//! one of sixteen bits; [`cells_spread`] counts the same cells without that bound.
use vstd::prelude::*;
use vstd::string::*;
use crate::text::{
    blen, byte_len, front_run, lemma_char_bytes, lemma_encode_one, lemma_front_run_exists,
    lemma_offset_ends, lemma_offset_mono, lemma_strip_front, offset, pieces, repeat, repeated,
    slices, split_on, texts, Laid,
};

verus! {

// ---------------------------------------------------------------------------
// Width
// ---------------------------------------------------------------------------

/// What `Span::width` of ratatui reports: the width of the text by `unicode-width`.
pub uninterp spec fn unicode_width(s: Seq<char>) -> usize;

/// How many halfwidth katakana sound marks `s` holds.
pub open spec fn sound_marks(s: Seq<char>) -> int
    decreases s.len(),
{
    if s.len() == 0 {
        0
    } else if s.last() == '\u{ff9e}' || s.last() == '\u{ff9f}' {
        sound_marks(s.drop_last()) + 1
    } else {
        sound_marks(s.drop_last())
    }
}

/// Cells a text is drawn in. A single byte takes one cell, whatever it is; beyond that a text
/// takes its width and one cell more per sound mark, in sixteen bits.
pub open spec fn drawn(s: Seq<char>) -> int {
    if s.len() == 0 {
        0
    } else if blen(s) == 1 {
        1
    } else {
        marked_width(unicode_width(s) as u16, sound_marks(s) as u16)
    }
}

/// Cells a text takes in all, however wide it is: its width and one cell more per sound mark.
pub open spec fn spread(s: Seq<char>) -> int {
    unicode_width(s) + sound_marks(s)
}

/// The sum of two widths, capped at the largest one there is.
pub open spec fn marked_width(width: u16, marks: u16) -> int {
    if width + marks <= u16::MAX {
        width + marks
    } else {
        u16::MAX as int
    }
}

/// `ratatui::text::Span::width` of a span that holds the text unstyled. Claimed: it is a function
/// of the text alone.
#[verifier::external_body]
fn span_width(s: &str) -> (r: usize)
    ensures
        r == unicode_width(s@),
{
    ratatui::text::Span::raw(s).width()
}

/// `ratatui::buffer::CellWidth::cell_width` of a string that is not a single byte -- on one it
/// asserts that the byte is no control character. Claimed: the low sixteen bits of what
/// `Span::width` reports, and one more for each halfwidth sound mark, capped.
#[verifier::external_body]
fn str_cell_width(s: &str) -> (r: u16)
    requires
        blen(s@) != 1,
    ensures
        r == marked_width(unicode_width(s@) as u16, sound_marks(s@) as u16),
{
    ratatui::buffer::CellWidth::cell_width(s)
}

/// Cells `s` *claims*: the number a block title's area is sized from.
pub fn cells_claimed(s: &str) -> (r: usize)
    ensures
        r == unicode_width(s@),
{
    span_width(s)
}

/// Cells `s` is *drawn* in. The measure for anything being fitted into a pane whose width was
/// decided elsewhere.
pub fn cells_drawn(s: &str) -> (r: usize)
    ensures
        r == drawn(s@),
        r <= 65535,
{
    let n: usize = byte_len(s);
    proof {
        lemma_offset_ends(s@);
        lemma_offset_mono(s@, 0, s@.len() as int);
    }
    if n == 0 {
        0
    } else if n == 1 {
        1
    } else {
        str_cell_width(s) as usize
    }
}

/// Cells `s` takes in all. The measure for whether a text runs past an edge, however far.
pub fn cells_spread(s: &str) -> (r: u128)
    ensures
        r == spread(s@),
        r <= 0x2_0000_0000_0000_0000,
{
    let l = Laid::new(s);
    let mut marks: usize = 0;
    let mut i: usize = 0;
    while i < l.chars.len()
        invariant
            l.wf(),
            l.text@ == s@,
            i <= s@.len(),
            marks <= i,
            marks == sound_marks(s@.take(i as int)),
        decreases s@.len() - i,
    {
        proof {
            assert(s@.take(i + 1).drop_last() =~= s@.take(i as int));
        }
        let c = l.chars[i];
        if c == '\u{ff9e}' || c == '\u{ff9f}' {
            marks += 1;
        }
        i += 1;
    }
    proof {
        assert(s@.take(i as int) =~= s@);
    }
    cells_claimed(s) as u128 + marks as u128
}

/// The two measures agree on every text of more than one byte that holds no halfwidth sound mark
/// and claims a width of sixteen bits; with sound marks the drawn width is larger by their number.
pub proof fn law_measures_differ_by_the_sound_marks(s: Seq<char>)
    requires
        blen(s) > 1,
        unicode_width(s) + sound_marks(s) <= 65535,
    ensures
        sound_marks(s) >= 0,
        drawn(s) == unicode_width(s) + sound_marks(s),
        sound_marks(s) == 0 ==> drawn(s) == unicode_width(s),
{
    lemma_sound_marks(s);
    lemma_offset_ends(s);
    assert(s.len() > 0) by {
        if s.len() == 0 {
            lemma_offset_mono(s, 0, 0);
        }
    }
}

pub proof fn lemma_sound_marks(s: Seq<char>)
    ensures
        0 <= sound_marks(s) <= s.len(),
    decreases s.len(),
{
    if s.len() > 0 {
        lemma_sound_marks(s.drop_last());
    }
}

/// Cells that characters `[a, b)` of a line are drawn in.
pub open spec fn cells(line: Seq<char>, a: int, b: int) -> int {
    drawn(line.subrange(a, b))
}

// ---------------------------------------------------------------------------
// Rows
// ---------------------------------------------------------------------------

/// One piece of a rendered row. The `Src` pieces of a row concatenate to a window of the line, in
/// order, dropping nothing.
#[derive(Debug, Clone, Copy, PartialEq, Eq, Structural)]
pub enum Piece {
    /// Bytes `[start, end)` of the line, rendered as they are.
    Src(usize, usize),
    /// `n` cells of `fill`, from nowhere. Having no byte of its own it has no style of its own
    /// either, so it names the byte to borrow one from.
    Pad { n: usize, fill: char, anchor: usize },
}

/// One screen line. Without pretty mode every row is exactly one `Src`.
pub type Row = Vec<Piece>;

/// Start of the first source piece.
pub open spec fn first_src(row: Seq<Piece>) -> int
    decreases row.len(),
{
    if row.len() == 0 {
        0
    } else {
        match row[0] {
            Piece::Src(s, _) => s as int,
            Piece::Pad { .. } => first_src(row.drop_first()),
        }
    }
}

/// End of the last source piece.
pub open spec fn last_src(row: Seq<Piece>) -> int
    decreases row.len(),
{
    if row.len() == 0 {
        0
    } else {
        match row.last() {
            Piece::Src(_, e) => e as int,
            Piece::Pad { .. } => last_src(row.drop_last()),
        }
    }
}

/// First source byte the row shows.
pub fn row_start(row: &Row) -> (r: usize)
    ensures
        r == first_src(row@),
{
    let mut i: usize = 0;
    proof {
        assert(row@.skip(0) =~= row@);
    }
    while i < row.len()
        invariant
            i <= row@.len(),
            first_src(row@.skip(i as int)) == first_src(row@),
        decreases row@.len() - i,
    {
        proof {
            assert(row@.skip(i as int)[0] == row@[i as int]);
            assert(row@.skip(i as int).drop_first() =~= row@.skip(i + 1));
        }
        match row[i] {
            Piece::Src(s, _) => {
                return s;
            },
            Piece::Pad { .. } => {},
        }
        i += 1;
    }
    0
}

/// One past the last source byte the row shows.
pub fn row_end(row: &Row) -> (r: usize)
    ensures
        r == last_src(row@),
{
    let mut n: usize = row.len();
    proof {
        assert(row@.take(n as int) =~= row@);
    }
    while n > 0
        invariant
            n <= row@.len(),
            last_src(row@.take(n as int)) == last_src(row@),
        decreases n,
    {
        proof {
            assert(row@.take(n as int).last() == row@[n - 1]);
            assert(row@.take(n as int).drop_last() =~= row@.take(n - 1));
        }
        match row[n - 1] {
            Piece::Src(_, e) => {
                return e;
            },
            Piece::Pad { .. } => {},
        }
        n -= 1;
    }
    0
}

// ---------------------------------------------------------------------------
// Packing
// ---------------------------------------------------------------------------

/// First index at or after `i` of which `p` does not hold.
pub open spec fn run_end(s: Seq<char>, i: int, p: spec_fn(char) -> bool) -> int
    decreases s.len() - i,
{
    if 0 <= i < s.len() && p(s[i]) {
        run_end(s, i + 1, p)
    } else {
        i
    }
}

pub proof fn lemma_run_end(s: Seq<char>, i: int, p: spec_fn(char) -> bool)
    requires
        0 <= i <= s.len(),
    ensures
        i <= run_end(s, i, p) <= s.len(),
        forall|k: int| i <= k < run_end(s, i, p) ==> p(#[trigger] s[k]),
        run_end(s, i, p) < s.len() ==> !p(s[run_end(s, i, p)]),
    decreases s.len() - i,
{
    if i < s.len() && p(s[i]) {
        lemma_run_end(s, i + 1, p);
    }
}

/// Where the word that starts at `i` ends.
pub open spec fn word_end(s: Seq<char>, i: int) -> int {
    run_end(s, i, |c: char| c != ' ')
}

/// Where the spaces that start at `i` end.
pub open spec fn gap_end(s: Seq<char>, i: int) -> int {
    run_end(s, i, |c: char| c == ' ')
}

/// Where the next word starts.
pub open spec fn next_word(s: Seq<char>, i: int) -> int {
    gap_end(s, word_end(s, i))
}

pub proof fn lemma_next_word(s: Seq<char>, i: int)
    requires
        0 <= i < s.len(),
    ensures
        i <= word_end(s, i) <= next_word(s, i) <= s.len(),
        i < next_word(s, i),
        s[i] != ' ' ==> i < word_end(s, i),
        forall|k: int| i <= k < word_end(s, i) ==> #[trigger] s[k] != ' ',
        forall|k: int| word_end(s, i) <= k < next_word(s, i) ==> #[trigger] s[k] == ' ',
        next_word(s, i) < s.len() ==> s[next_word(s, i)] != ' ',
{
    lemma_run_end(s, i, |c: char| c != ' ');
    lemma_run_end(s, word_end(s, i), |c: char| c == ' ');
}

/// How many characters of `s[a..b]` fit in `limit` cells, charged one by one, `w` of them taken.
pub open spec fn fit(s: Seq<char>, a: int, b: int, w: int, limit: int) -> int
    decreases b - a,
{
    if a < b && w + cells(s, a, a + 1) <= limit {
        1 + fit(s, a + 1, b, w + cells(s, a, a + 1), limit)
    } else {
        0
    }
}

pub open spec fn is_separator(c: char) -> bool {
    c == '/' || c == '-' || c == '_' || c == '.' || c == ',' || c == ';' || c == ':' || c == '?'
        || c == '&' || c == '=' || c == '#'
}

pub open spec fn is_wide(s: Seq<char>, k: int) -> bool {
    cells(s, k, k + 1) > 1
}

/// A word that starts at `from` may break before character `k`: after a separator, or between two
/// wide characters, which is the only break a script without spaces offers.
pub open spec fn breaks_before(s: Seq<char>, from: int, k: int) -> bool {
    k > from && (is_separator(s[k - 1]) || (is_wide(s, k - 1) && is_wide(s, k)))
}

/// The first place at or after `k` where the word `[from, to)` may break; its end where there is
/// none.
pub open spec fn next_break(s: Seq<char>, from: int, k: int, to: int) -> int
    decreases to - k,
{
    if k >= to {
        to
    } else if breaks_before(s, from, k) {
        k
    } else {
        next_break(s, from, k + 1, to)
    }
}

proof fn lemma_next_break(s: Seq<char>, from: int, k: int, to: int)
    requires
        k <= to,
    ensures
        k <= next_break(s, from, k, to) <= to,
    decreases to - k,
{
    if k < to && !breaks_before(s, from, k) {
        lemma_next_break(s, from, k + 1, to);
    }
}

/// A line on its way into rows: the rows that are closed, the open row `[start, end)`, the cells
/// taken in it -- those of the spaces behind `end` included -- and the cells it may take.
pub struct Packing {
    pub rows: Seq<(int, int)>,
    pub start: int,
    pub end: int,
    pub w: int,
    pub limit: int,
}

/// Rows of nothing but indentation, as long as what is left of `[p, at)` fills a row.
pub open spec fn spill(
    s: Seq<char>,
    rows: Seq<(int, int)>,
    p: int,
    at: int,
    limit: int,
    rest: int,
) -> Packing
    decreases at - p,
{
    let n = fit(s, p, at, 0, limit);
    if cells(s, p, at) >= limit && 0 < n && p + n <= at {
        spill(s, rows.push((p, p + n)), p + n, at, rest, rest)
    } else {
        Packing { rows, start: p, end: p, w: cells(s, p, at), limit }
    }
}

/// Opens a new row at `at`. With nothing placed yet, what lies before `at` is indentation: it
/// stays at the head of the row that follows, after what fills rows of its own.
pub open spec fn close_row(s: Seq<char>, p: Packing, at: int, rest: int) -> Packing {
    if p.end > p.start {
        Packing { rows: p.rows.push((p.start, p.end)), start: at, end: at, w: 0, limit: rest }
    } else {
        spill(s, p.rows, p.start, at, p.limit, rest)
    }
}

/// Places `[j, to)` character by character, breaking wherever the next one does not fit.
pub open spec fn hard_cut(s: Seq<char>, p: Packing, j: int, to: int, rest: int) -> Packing
    decreases to - j,
{
    if j >= to {
        p
    } else {
        let cw = cells(s, j, j + 1);
        let q = if p.w > 0 && p.w + cw > p.limit {
            if j > p.start {
                Packing { rows: p.rows.push((p.start, j)), start: j, end: p.end, w: 0, limit: rest }
            } else {
                Packing { start: j, w: 0, ..p }
            }
        } else {
            p
        };
        hard_cut(s, Packing { w: q.w + cw, end: j + 1, ..q }, j + 1, to, rest)
    }
}

/// Places the part `[from, to)` of a word that has to be split.
pub open spec fn place_part(s: Seq<char>, p: Packing, from: int, to: int, rest: int) -> Packing {
    let pw = cells(s, from, to);
    let q = if p.w > 0 && p.w + pw > p.limit {
        close_row(s, p, from, rest)
    } else {
        p
    };
    if q.w + pw > q.limit {
        hard_cut(s, q, from, to, rest)
    } else {
        Packing { w: q.w + pw, end: to, ..q }
    }
}

/// Places the rest of a word that starts at `word`, from `from` on, part by part.
pub open spec fn split_word(s: Seq<char>, p: Packing, word: int, from: int, to: int, rest: int) -> Packing
    decreases to - from,
{
    let bp = next_break(s, word, from + 1, to);
    if !(from < bp <= to) {
        p
    } else {
        split_word(s, place_part(s, p, from, bp, rest), word, bp, to, rest)
    }
}

/// Places the word `[from, to)` and the spaces behind it, up to `next`.
pub open spec fn place_word(
    s: Seq<char>,
    p: Packing,
    from: int,
    to: int,
    next: int,
    rest: int,
) -> Packing {
    let ww = cells(s, from, to);
    let q = if p.w > 0 && p.w + ww > p.limit {
        close_row(s, p, from, rest)
    } else {
        p
    };
    let r = if q.w + ww > q.limit {
        split_word(s, q, from, from, to, rest)
    } else {
        Packing { w: q.w + ww, end: to, ..q }
    };
    Packing { w: r.w + (next - to), ..r }
}

/// Places every word from `i` on.
pub open spec fn pack(s: Seq<char>, p: Packing, i: int, rest: int) -> Packing
    decreases s.len() - i,
{
    let next = next_word(s, i);
    if !(0 <= i < next <= s.len()) {
        p
    } else {
        pack(s, place_word(s, p, i, word_end(s, i), next, rest), next, rest)
    }
}

/// The rows of a line, as windows of characters: at most `first` cells in the first one, `rest` in
/// the others. Trailing spaces are left outside every row, so they overhang the edge.
pub open spec fn rows_of(s: Seq<char>, first: int, rest: int) -> Seq<(int, int)> {
    if first == 0 || rest == 0 {
        Seq::empty()
    } else {
        let p = pack(
            s,
            Packing { rows: Seq::empty(), start: 0, end: 0, w: 0, limit: first },
            0,
            rest,
        );
        p.rows.push((p.start, p.end))
    }
}

/// Windows of characters as windows of bytes.
pub open spec fn byte_windows(s: Seq<char>, rows: Seq<(int, int)>) -> Seq<(int, int)> {
    Seq::new(rows.len(), |i: int| (offset(s, rows[i].0), offset(s, rows[i].1)))
}

// ---------------------------------------------------------------------------
// What the rows of a line are
// ---------------------------------------------------------------------------

pub open spec fn all_spaces(s: Seq<char>, a: int, b: int) -> bool {
    forall|k: int| a <= k < b ==> #[trigger] s[k] == ' '
}

/// The rows are windows in order from the start of the line up to `start`, with nothing but spaces
/// between them.
pub open spec fn tiled(s: Seq<char>, rows: Seq<(int, int)>, start: int) -> bool {
    &&& rows.len() == 0 ==> start == 0
    &&& rows.len() > 0 ==> rows[0].0 == 0 && rows.last().1 <= start && all_spaces(
        s,
        rows.last().1,
        start,
    )
    &&& forall|i: int| 0 <= i < rows.len() ==> 0 <= (#[trigger] rows[i]).0 <= rows[i].1
    &&& forall|i: int, j: int|
        0 <= i && j == i + 1 && j < rows.len() ==> (#[trigger] rows[i]).1 <= (#[trigger] rows[j]).0
            && all_spaces(s, rows[i].1, rows[j].0)
}

proof fn lemma_tiled_push(s: Seq<char>, rows: Seq<(int, int)>, start: int, end: int, at: int)
    requires
        tiled(s, rows, start),
        0 <= start <= end <= at,
        all_spaces(s, end, at),
    ensures
        tiled(s, rows.push((start, end)), at),
{
    let r = rows.push((start, end));
    assert forall|i: int, j: int| 0 <= i && j == i + 1 && j < r.len() implies (#[trigger] r[i]).1 <= (
    #[trigger] r[j]).0 && all_spaces(s, r[i].1, r[j].0) by {
        if j < rows.len() {
            assert(rows[i].1 <= rows[j].0);
        } else {
            assert(rows.last() == r[i]);
        }
    }
    if rows.len() > 0 {
        assert(r[0] == rows[0]);
    }
}

/// Everything up to character `k` is in a row, in the open row, or a space.
spec fn sound(s: Seq<char>, p: Packing, k: int) -> bool {
    &&& tiled(s, p.rows, p.start)
    &&& 0 <= p.start <= p.end <= k <= s.len()
    &&& all_spaces(s, p.end, k)
}

proof fn lemma_spill_sound(
    s: Seq<char>,
    rows: Seq<(int, int)>,
    p: int,
    at: int,
    limit: int,
    rest: int,
)
    requires
        tiled(s, rows, p),
        0 <= p <= at <= s.len(),
        all_spaces(s, p, at),
    ensures
        sound(s, spill(s, rows, p, at, limit, rest), at),
    decreases at - p,
{
    let n = fit(s, p, at, 0, limit);
    if cells(s, p, at) >= limit && 0 < n && p + n <= at {
        lemma_tiled_push(s, rows, p, p + n, p + n);
        lemma_spill_sound(s, rows.push((p, p + n)), p + n, at, rest, rest);
    }
}

proof fn lemma_close_row_sound(s: Seq<char>, p: Packing, at: int, rest: int)
    requires
        sound(s, p, at),
    ensures
        sound(s, close_row(s, p, at, rest), at),
{
    if p.end > p.start {
        lemma_tiled_push(s, p.rows, p.start, p.end, at);
    } else {
        lemma_spill_sound(s, p.rows, p.start, at, p.limit, rest);
    }
}

proof fn lemma_hard_cut_sound(s: Seq<char>, p: Packing, j: int, to: int, rest: int)
    requires
        sound(s, p, j),
        j <= to <= s.len(),
    ensures
        sound(s, hard_cut(s, p, j, to, rest), to),
    decreases to - j,
{
    if j < to {
        let cw = cells(s, j, j + 1);
        let q = if p.w > 0 && p.w + cw > p.limit {
            if j > p.start {
                Packing { rows: p.rows.push((p.start, j)), start: j, end: p.end, w: 0, limit: rest }
            } else {
                Packing { start: j, w: 0, ..p }
            }
        } else {
            p
        };
        if p.w > 0 && p.w + cw > p.limit && j > p.start {
            lemma_tiled_push(s, p.rows, p.start, j, j);
        }
        lemma_hard_cut_sound(s, Packing { w: q.w + cw, end: j + 1, ..q }, j + 1, to, rest);
    }
}

proof fn lemma_place_part_sound(s: Seq<char>, p: Packing, from: int, to: int, rest: int)
    requires
        sound(s, p, from),
        from <= to <= s.len(),
    ensures
        sound(s, place_part(s, p, from, to, rest), to),
{
    let pw = cells(s, from, to);
    lemma_close_row_sound(s, p, from, rest);
    let q = if p.w > 0 && p.w + pw > p.limit {
        close_row(s, p, from, rest)
    } else {
        p
    };
    lemma_hard_cut_sound(s, q, from, to, rest);
}

proof fn lemma_split_word_sound(
    s: Seq<char>,
    p: Packing,
    word: int,
    from: int,
    to: int,
    rest: int,
)
    requires
        sound(s, p, from),
        from <= to <= s.len(),
    ensures
        sound(s, split_word(s, p, word, from, to, rest), to),
    decreases to - from,
{
    if from < to {
        lemma_next_break(s, word, from + 1, to);
        let bp = next_break(s, word, from + 1, to);
        lemma_place_part_sound(s, p, from, bp, rest);
        lemma_split_word_sound(s, place_part(s, p, from, bp, rest), word, bp, to, rest);
    } else {
        lemma_next_break_end(s, word, from, to);
    }
}

proof fn lemma_next_break_end(s: Seq<char>, word: int, from: int, to: int)
    requires
        from >= to,
    ensures
        next_break(s, word, from + 1, to) == to,
{
}

proof fn lemma_place_word_sound(s: Seq<char>, p: Packing, i: int, rest: int)
    requires
        0 <= i < s.len(),
        sound(s, p, i),
    ensures
        sound(s, place_word(s, p, i, word_end(s, i), next_word(s, i), rest), next_word(s, i)),
{
    lemma_next_word(s, i);
    let to = word_end(s, i);
    let ww = cells(s, i, to);
    lemma_close_row_sound(s, p, i, rest);
    let q = if p.w > 0 && p.w + ww > p.limit {
        close_row(s, p, i, rest)
    } else {
        p
    };
    lemma_split_word_sound(s, q, i, i, to, rest);
}

proof fn lemma_pack_sound(s: Seq<char>, p: Packing, i: int, rest: int)
    requires
        0 <= i <= s.len(),
        sound(s, p, i),
    ensures
        sound(s, pack(s, p, i, rest), s.len() as int),
    decreases s.len() - i,
{
    if i < s.len() {
        lemma_next_word(s, i);
        lemma_place_word_sound(s, p, i, rest);
        let q = place_word(s, p, i, word_end(s, i), next_word(s, i), rest);
        lemma_pack_sound(s, q, next_word(s, i), rest);
    }
}

/// No row is empty.
spec fn all_full(rows: Seq<(int, int)>) -> bool {
    forall|i: int| 0 <= i < rows.len() ==> (#[trigger] rows[i]).0 < rows[i].1
}

proof fn lemma_full_push(rows: Seq<(int, int)>, a: int, b: int)
    requires
        all_full(rows),
        a < b,
    ensures
        all_full(rows.push((a, b))),
{
    let r = rows.push((a, b));
    assert forall|i: int| 0 <= i < r.len() implies (#[trigger] r[i]).0 < r[i].1 by {
        if i < rows.len() {
            assert(r[i] == rows[i]);
        }
    }
}

proof fn lemma_spill_full(
    s: Seq<char>,
    rows: Seq<(int, int)>,
    p: int,
    at: int,
    limit: int,
    rest: int,
)
    requires
        all_full(rows),
    ensures
        all_full(spill(s, rows, p, at, limit, rest).rows),
    decreases at - p,
{
    let n = fit(s, p, at, 0, limit);
    if cells(s, p, at) >= limit && 0 < n && p + n <= at {
        lemma_full_push(rows, p, p + n);
        lemma_spill_full(s, rows.push((p, p + n)), p + n, at, rest, rest);
    }
}

proof fn lemma_close_row_full(s: Seq<char>, p: Packing, at: int, rest: int)
    requires
        all_full(p.rows),
    ensures
        all_full(close_row(s, p, at, rest).rows),
{
    if p.end > p.start {
        lemma_full_push(p.rows, p.start, p.end);
    } else {
        lemma_spill_full(s, p.rows, p.start, at, p.limit, rest);
    }
}

proof fn lemma_hard_cut_full(s: Seq<char>, p: Packing, j: int, to: int, rest: int)
    requires
        all_full(p.rows),
        p.start <= j,
        j < to || p.start < p.end,
    ensures
        all_full(hard_cut(s, p, j, to, rest).rows),
        hard_cut(s, p, j, to, rest).start < hard_cut(s, p, j, to, rest).end,
    decreases to - j,
{
    if j < to {
        let cw = cells(s, j, j + 1);
        let q = if p.w > 0 && p.w + cw > p.limit {
            if j > p.start {
                lemma_full_push(p.rows, p.start, j);
                Packing { rows: p.rows.push((p.start, j)), start: j, end: p.end, w: 0, limit: rest }
            } else {
                Packing { start: j, w: 0, ..p }
            }
        } else {
            p
        };
        lemma_hard_cut_full(s, Packing { w: q.w + cw, end: j + 1, ..q }, j + 1, to, rest);
    }
}

proof fn lemma_place_part_full(s: Seq<char>, p: Packing, from: int, to: int, rest: int)
    requires
        sound(s, p, from),
        all_full(p.rows),
        from < to <= s.len(),
    ensures
        all_full(place_part(s, p, from, to, rest).rows),
        place_part(s, p, from, to, rest).start < place_part(s, p, from, to, rest).end,
{
    let pw = cells(s, from, to);
    lemma_close_row_sound(s, p, from, rest);
    lemma_close_row_full(s, p, from, rest);
    let q = if p.w > 0 && p.w + pw > p.limit {
        close_row(s, p, from, rest)
    } else {
        p
    };
    if q.w + pw > q.limit {
        lemma_hard_cut_full(s, q, from, to, rest);
    }
}

proof fn lemma_split_word_full(
    s: Seq<char>,
    p: Packing,
    word: int,
    from: int,
    to: int,
    rest: int,
)
    requires
        sound(s, p, from),
        all_full(p.rows),
        from <= to <= s.len(),
        from < to || p.start < p.end,
    ensures
        all_full(split_word(s, p, word, from, to, rest).rows),
        split_word(s, p, word, from, to, rest).start < split_word(s, p, word, from, to, rest).end,
    decreases to - from,
{
    if from < to {
        lemma_next_break(s, word, from + 1, to);
        let bp = next_break(s, word, from + 1, to);
        lemma_place_part_sound(s, p, from, bp, rest);
        lemma_place_part_full(s, p, from, bp, rest);
        lemma_split_word_full(s, place_part(s, p, from, bp, rest), word, bp, to, rest);
    } else {
        lemma_next_break_end(s, word, from, to);
    }
}

proof fn lemma_pack_full(s: Seq<char>, p: Packing, i: int, rest: int)
    requires
        0 <= i <= s.len(),
        sound(s, p, i),
        all_full(p.rows),
        i < s.len() ==> s[i] != ' ',
        p.start < p.end || p.rows.len() == 0,
    ensures
        all_full(pack(s, p, i, rest).rows),
        pack(s, p, i, rest).start < pack(s, p, i, rest).end || pack(s, p, i, rest).rows.len() == 0,
    decreases s.len() - i,
{
    if i < s.len() {
        lemma_next_word(s, i);
        let to = word_end(s, i);
        let ww = cells(s, i, to);
        lemma_close_row_sound(s, p, i, rest);
        lemma_close_row_full(s, p, i, rest);
        let q = if p.w > 0 && p.w + ww > p.limit {
            close_row(s, p, i, rest)
        } else {
            p
        };
        if q.w + ww > q.limit {
            lemma_split_word_full(s, q, i, i, to, rest);
        }
        lemma_place_word_sound(s, p, i, rest);
        lemma_pack_full(s, place_word(s, p, i, to, next_word(s, i), rest), next_word(s, i), rest);
    }
}

/// No row is spent on nothing: a line that takes more than one row has a character in each of them.
pub proof fn law_no_row_is_spent_on_nothing(s: Seq<char>, first: int, rest: int, i: int)
    requires
        rows_of(s, first, rest).len() > 1,
        0 <= i < rows_of(s, first, rest).len(),
    ensures
        rows_of(s, first, rest)[i].0 < rows_of(s, first, rest)[i].1,
{
    let begin = Packing { rows: Seq::empty(), start: 0, end: 0, w: 0, limit: first };
    if s.len() > 0 && s[0] == ' ' {
        lemma_next_word(s, 0);
        lemma_no_cells(s, 0);
        lemma_place_word_sound(s, begin, 0, rest);
        lemma_next_break_end(s, 0, 0, 0);
        let p = place_word(s, begin, 0, word_end(s, 0), next_word(s, 0), rest);
        assert(p.rows.len() == 0);
        lemma_pack_full(s, p, next_word(s, 0), rest);
    } else {
        lemma_pack_full(s, begin, 0, rest);
    }
    let p = pack(s, begin, 0, rest);
    let rows = rows_of(s, first, rest);
    if i < p.rows.len() {
        assert(rows[i] == p.rows[i]);
    }
}

/// At any widths but zero a line has a row. The rows are windows of the line in order, the first
/// starts where the line does, and what lies between two rows or behind the last is only spaces:
/// every other character is in exactly one row.
pub proof fn law_rows_partition_the_line(s: Seq<char>, first: int, rest: int)
    requires
        first != 0,
        rest != 0,
    ensures
        rows_of(s, first, rest).len() > 0,
        tiled(s, rows_of(s, first, rest), s.len() as int),
        forall|k: int|
            0 <= k < s.len() && s[k] != ' ' ==> exists|i: int|
                0 <= i < rows_of(s, first, rest).len() && (#[trigger] rows_of(s, first, rest)[i]).0
                    <= k < rows_of(s, first, rest)[i].1,
        forall|i: int, j: int|
            0 <= i < j < rows_of(s, first, rest).len() ==> (#[trigger] rows_of(s, first, rest)[i]).1
                <= (#[trigger] rows_of(s, first, rest)[j]).0,
{
    let begin = Packing { rows: Seq::empty(), start: 0, end: 0, w: 0, limit: first };
    lemma_pack_sound(s, begin, 0, rest);
    let p = pack(s, begin, 0, rest);
    let rows = rows_of(s, first, rest);
    lemma_tiled_push(s, p.rows, p.start, p.end, s.len() as int);
    assert forall|k: int| 0 <= k < s.len() && s[k] != ' ' implies exists|i: int|
        0 <= i < rows.len() && (#[trigger] rows[i]).0 <= k < rows[i].1 by {
        lemma_row_of(s, rows, k, rows.len() as int);
    }
    assert forall|i: int, j: int| 0 <= i < j < rows.len() implies (#[trigger] rows[i]).1 <= (
    #[trigger] rows[j]).0 by {
        lemma_rows_apart(s, rows, s.len() as int, i, j);
    }
}

proof fn lemma_rows_apart(s: Seq<char>, rows: Seq<(int, int)>, start: int, i: int, j: int)
    requires
        tiled(s, rows, start),
        0 <= i < j < rows.len(),
    ensures
        rows[i].1 <= rows[j].0,
    decreases j - i,
{
    if i + 1 < j {
        lemma_rows_apart(s, rows, start, i, j - 1);
        assert(rows[j - 1].1 <= rows[j].0);
    } else {
        assert(rows[i].1 <= rows[j].0);
    }
}

proof fn lemma_row_of(s: Seq<char>, rows: Seq<(int, int)>, k: int, n: int)
    requires
        tiled(s, rows, s.len() as int),
        0 <= k < s.len(),
        s[k] != ' ',
        0 < n <= rows.len(),
        k < rows[n - 1].1 || n == rows.len(),
    ensures
        exists|i: int| 0 <= i < rows.len() && (#[trigger] rows[i]).0 <= k < rows[i].1,
    decreases n,
{
    if k >= rows[n - 1].1 {
        assert(rows.last() == rows[n - 1]);
        assert(s[k] == ' ');
    } else if k >= rows[n - 1].0 {
        assert(rows[n - 1].0 <= k < rows[n - 1].1);
    } else {
        assert(n > 1);
        if k >= rows[n - 2].1 {
            assert(all_spaces(s, rows[n - 2].1, rows[n - 1].0));
            assert(s[k] == ' ');
        }
        lemma_row_of(s, rows, k, n - 1);
    }
}

/// No stretch of the line is wider than its parts together. It is so wherever no character makes
/// its neighbour wider.
pub open spec fn subadditive(s: Seq<char>) -> bool {
    forall|a: int, b: int, c: int|
        0 <= a <= b <= c <= s.len() ==> #[trigger] cells(s, a, b) + #[trigger] cells(s, b, c)
            >= cells(s, a, c)
}

/// `[a, b)` takes at most `limit` cells, or ends in one character that takes more on its own, with
/// nothing that takes a cell before it.
pub open spec fn row_fits(s: Seq<char>, a: int, b: int, limit: int) -> bool {
    cells(s, a, b) <= limit || (a < b && cells(s, b - 1, b) > limit && cells(s, a, b - 1) == 0)
}

pub open spec fn rows_fit(s: Seq<char>, rows: Seq<(int, int)>, first: int, rest: int) -> bool {
    forall|i: int|
        0 <= i < rows.len() ==> row_fits(
            s,
            (#[trigger] rows[i]).0,
            rows[i].1,
            if i == 0 {
                first
            } else {
                rest
            },
        )
}

/// The count is no less than what is placed takes, and what is placed fits.
spec fn fitted(s: Seq<char>, p: Packing, k: int, first: int, rest: int) -> bool {
    &&& sound(s, p, k)
    &&& p.w >= cells(s, p.start, k)
    &&& p.limit == if p.rows.len() == 0 {
        first
    } else {
        rest
    }
    &&& row_fits(s, p.start, p.end, p.limit)
    &&& rows_fit(s, p.rows, first, rest)
}

proof fn lemma_no_cells(s: Seq<char>, a: int)
    requires
        0 <= a <= s.len(),
    ensures
        cells(s, a, a) == 0,
{
    assert(s.subrange(a, a) =~= Seq::<char>::empty());
}

proof fn lemma_space_cells(s: Seq<char>, a: int, b: int)
    requires
        subadditive(s),
        0 <= a <= b <= s.len(),
        all_spaces(s, a, b),
    ensures
        cells(s, a, b) <= b - a,
        b == a + 1 ==> cells(s, a, b) == 1,
    decreases b - a,
{
    if a == b {
        lemma_no_cells(s, a);
    } else {
        lemma_space_cells(s, a, b - 1);
        assert(s[b - 1] == ' ');
        assert(s.subrange(b - 1, b) =~= seq![' ']);
        lemma_encode_one(' ');
        lemma_char_bytes(' ');
        assert(cells(s, a, b - 1) + cells(s, b - 1, b) >= cells(s, a, b));
    }
}

proof fn lemma_fit_cells(s: Seq<char>, a: int, b: int, w: int, limit: int)
    requires
        subadditive(s),
        0 <= a <= b <= s.len(),
        w <= limit,
    ensures
        0 <= fit(s, a, b, w, limit) <= b - a,
        w + cells(s, a, a + fit(s, a, b, w, limit)) <= limit,
    decreases b - a,
{
    if a < b && w + cells(s, a, a + 1) <= limit {
        lemma_fit_cells(s, a + 1, b, w + cells(s, a, a + 1), limit);
        let n = fit(s, a, b, w, limit);
        assert(cells(s, a, a + 1) + cells(s, a + 1, a + n) >= cells(s, a, a + n));
    } else {
        lemma_no_cells(s, a);
    }
}

proof fn lemma_rows_fit_push(
    s: Seq<char>,
    rows: Seq<(int, int)>,
    a: int,
    b: int,
    first: int,
    rest: int,
)
    requires
        rows_fit(s, rows, first, rest),
        row_fits(
            s,
            a,
            b,
            if rows.len() == 0 {
                first
            } else {
                rest
            },
        ),
    ensures
        rows_fit(s, rows.push((a, b)), first, rest),
{
    let r = rows.push((a, b));
    assert forall|i: int| 0 <= i < r.len() implies row_fits(
        s,
        (#[trigger] r[i]).0,
        r[i].1,
        if i == 0 {
            first
        } else {
            rest
        },
    ) by {
        if i < rows.len() {
            assert(r[i] == rows[i]);
        }
    }
}

proof fn lemma_spill_fits(
    s: Seq<char>,
    rows: Seq<(int, int)>,
    p: int,
    at: int,
    limit: int,
    first: int,
    rest: int,
)
    requires
        subadditive(s),
        first > 0,
        rest > 0,
        tiled(s, rows, p),
        0 <= p <= at <= s.len(),
        all_spaces(s, p, at),
        limit == if rows.len() == 0 {
            first
        } else {
            rest
        },
        rows_fit(s, rows, first, rest),
    ensures
        fitted(s, spill(s, rows, p, at, limit, rest), at, first, rest),
        spill(s, rows, p, at, limit, rest).w < spill(s, rows, p, at, limit, rest).limit,
    decreases at - p,
{
    let n = fit(s, p, at, 0, limit);
    lemma_fit_cells(s, p, at, 0, limit);
    lemma_spill_sound(s, rows, p, at, limit, rest);
    if cells(s, p, at) >= limit {
        lemma_space_cells(s, p, at);
        lemma_space_cells(s, p, p + 1);
        lemma_fit(s, p + 1, at, cells(s, p, p + 1), limit);
        lemma_tiled_push(s, rows, p, p + n, p + n);
        lemma_rows_fit_push(s, rows, p, p + n, first, rest);
        lemma_spill_fits(s, rows.push((p, p + n)), p + n, at, rest, first, rest);
    } else {
        lemma_no_cells(s, p);
    }
}

proof fn lemma_close_row_fits(s: Seq<char>, p: Packing, at: int, first: int, rest: int)
    requires
        subadditive(s),
        first > 0,
        rest > 0,
        fitted(s, p, at, first, rest),
    ensures
        fitted(s, close_row(s, p, at, rest), at, first, rest),
        close_row(s, p, at, rest).w < close_row(s, p, at, rest).limit,
{
    lemma_close_row_sound(s, p, at, rest);
    lemma_no_cells(s, at);
    if p.end > p.start {
        lemma_rows_fit_push(s, p.rows, p.start, p.end, first, rest);
    } else {
        lemma_spill_fits(s, p.rows, p.start, at, p.limit, first, rest);
    }
}

proof fn lemma_hard_cut_fits(s: Seq<char>, p: Packing, j: int, to: int, first: int, rest: int)
    requires
        subadditive(s),
        first > 0,
        rest > 0,
        fitted(s, p, j, first, rest),
        row_fits(s, p.start, j, p.limit),
        j <= to <= s.len(),
    ensures
        fitted(s, hard_cut(s, p, j, to, rest), to, first, rest),
    decreases to - j,
{
    if j < to {
        let cw = cells(s, j, j + 1);
        lemma_no_cells(s, j);
        assert(cells(s, p.start, j) + cells(s, j, j + 1) >= cells(s, p.start, j + 1));
        lemma_hard_cut_sound(s, p, j, j + 1, rest);
        let q = if p.w > 0 && p.w + cw > p.limit {
            if j > p.start {
                lemma_rows_fit_push(s, p.rows, p.start, j, first, rest);
                lemma_tiled_push(s, p.rows, p.start, j, j);
                Packing { rows: p.rows.push((p.start, j)), start: j, end: p.end, w: 0, limit: rest }
            } else {
                Packing { start: j, w: 0, ..p }
            }
        } else {
            p
        };
        let n = Packing { w: q.w + cw, end: j + 1, ..q };
        assert(fitted(s, n, j + 1, first, rest));
        lemma_hard_cut_fits(s, n, j + 1, to, first, rest);
    }
}

proof fn lemma_place_part_fits(
    s: Seq<char>,
    p: Packing,
    from: int,
    to: int,
    first: int,
    rest: int,
)
    requires
        subadditive(s),
        first > 0,
        rest > 0,
        fitted(s, p, from, first, rest),
        from <= to <= s.len(),
    ensures
        fitted(s, place_part(s, p, from, to, rest), to, first, rest),
{
    let pw = cells(s, from, to);
    lemma_place_part_sound(s, p, from, to, rest);
    lemma_close_row_fits(s, p, from, first, rest);
    let q = if p.w > 0 && p.w + pw > p.limit {
        close_row(s, p, from, rest)
    } else {
        p
    };
    assert(cells(s, q.start, from) + cells(s, from, to) >= cells(s, q.start, to));
    if q.w + pw > q.limit {
        lemma_hard_cut_fits(s, q, from, to, first, rest);
    }
}

proof fn lemma_split_word_fits(
    s: Seq<char>,
    p: Packing,
    word: int,
    from: int,
    to: int,
    first: int,
    rest: int,
)
    requires
        subadditive(s),
        first > 0,
        rest > 0,
        fitted(s, p, from, first, rest),
        from <= to <= s.len(),
    ensures
        fitted(s, split_word(s, p, word, from, to, rest), to, first, rest),
    decreases to - from,
{
    if from < to {
        lemma_next_break(s, word, from + 1, to);
        let bp = next_break(s, word, from + 1, to);
        lemma_place_part_fits(s, p, from, bp, first, rest);
        lemma_split_word_fits(s, place_part(s, p, from, bp, rest), word, bp, to, first, rest);
    } else {
        lemma_next_break_end(s, word, from, to);
    }
}

proof fn lemma_place_word_fits(s: Seq<char>, p: Packing, i: int, first: int, rest: int)
    requires
        subadditive(s),
        first > 0,
        rest > 0,
        0 <= i < s.len(),
        fitted(s, p, i, first, rest),
    ensures
        fitted(
            s,
            place_word(s, p, i, word_end(s, i), next_word(s, i), rest),
            next_word(s, i),
            first,
            rest,
        ),
{
    lemma_next_word(s, i);
    lemma_place_word_sound(s, p, i, rest);
    let to = word_end(s, i);
    let next = next_word(s, i);
    let ww = cells(s, i, to);
    lemma_close_row_fits(s, p, i, first, rest);
    let q = if p.w > 0 && p.w + ww > p.limit {
        close_row(s, p, i, rest)
    } else {
        p
    };
    assert(cells(s, q.start, i) + cells(s, i, to) >= cells(s, q.start, to));
    let r = if q.w + ww > q.limit {
        lemma_split_word_fits(s, q, i, i, to, first, rest);
        split_word(s, q, i, i, to, rest)
    } else {
        Packing { w: q.w + ww, end: to, ..q }
    };
    lemma_space_cells(s, to, next);
    assert(cells(s, r.start, to) + cells(s, to, next) >= cells(s, r.start, next));
}

proof fn lemma_pack_fits(s: Seq<char>, p: Packing, i: int, first: int, rest: int)
    requires
        subadditive(s),
        first > 0,
        rest > 0,
        0 <= i <= s.len(),
        fitted(s, p, i, first, rest),
    ensures
        fitted(s, pack(s, p, i, rest), s.len() as int, first, rest),
    decreases s.len() - i,
{
    if i < s.len() {
        lemma_next_word(s, i);
        lemma_place_word_fits(s, p, i, first, rest);
        let q = place_word(s, p, i, word_end(s, i), next_word(s, i), rest);
        lemma_pack_fits(s, q, next_word(s, i), first, rest);
    }
}

/// On a line no stretch of which is wider than its parts together, every row fits its pane in the
/// cells the terminal draws: `first` for the first row, `rest` for the others. The one exception is
/// a character wider than the pane, which cannot be split and ends its row.
pub proof fn law_rows_fit_the_pane(s: Seq<char>, first: int, rest: int)
    requires
        first > 0,
        rest > 0,
        subadditive(s),
    ensures
        rows_fit(s, rows_of(s, first, rest), first, rest),
{
    let begin = Packing { rows: Seq::empty(), start: 0, end: 0, w: 0, limit: first };
    lemma_no_cells(s, 0);
    lemma_pack_fits(s, begin, 0, first, rest);
    let p = pack(s, begin, 0, rest);
    lemma_rows_fit_push(s, p.rows, p.start, p.end, first, rest);
}

// ---------------------------------------------------------------------------
// Greedy packing
// ---------------------------------------------------------------------------

/// Every stretch of the line is as wide as its parts together.
pub open spec fn additive(s: Seq<char>) -> bool {
    forall|a: int, b: int, c: int|
        0 <= a <= b <= c <= s.len() ==> #[trigger] cells(s, a, b) + #[trigger] cells(s, b, c)
            == cells(s, a, c)
}

/// `[a, b)` is a word: it holds no space, and stands between spaces or the ends of the line.
pub open spec fn is_word(s: Seq<char>, a: int, b: int) -> bool {
    &&& 0 <= a < b <= s.len()
    &&& forall|k: int| a <= k < b ==> #[trigger] s[k] != ' '
    &&& a == 0 || s[a - 1] == ' '
    &&& b == s.len() || s[b] == ' '
}

/// A word may break before its character `k`: after one of `/-_.,;:?&=#`, or between two characters
/// that take more than one cell each.
pub open spec fn may_break(s: Seq<char>, k: int) -> bool {
    let c = s[k - 1];
    (c == '/' || c == '-' || c == '_' || c == '.' || c == ',' || c == ';' || c == ':' || c == '?'
        || c == '&' || c == '=' || c == '#') || (drawn(seq![s[k - 1]]) > 1 && drawn(seq![s[k]]) > 1)
}

/// The row that starts at `a` and is followed by one that starts at `b` has no room for what stands
/// there: the first word from `b` on, with what lies before it, is wider than the row. A row of
/// nothing but indentation may be filled exactly.
pub open spec fn no_room_for_a_word(s: Seq<char>, a: int, b: int, limit: int) -> bool {
    forall|w: int, e: int|
        #![trigger all_spaces(s, b, w), cells(s, a, e)]
        0 <= a <= b <= w < e <= s.len() && all_spaces(s, b, w) && s[w] != ' ' && (forall|k: int|
            w <= k < e ==> #[trigger] s[k] != ' ') && (e == s.len() || s[e] == ' ') ==> cells(s, a, e)
            >= limit && (!all_spaces(s, a, b) ==> cells(s, a, e) > limit)
}

/// Where the break before `b` splits a word, the row has no room for the next part of the word, up
/// to the next place where it may break; where the word may not break at `b`, not even for the next
/// character.
pub open spec fn no_room_for_a_part(s: Seq<char>, a: int, b: int, limit: int) -> bool {
    forall|w: int, e: int, x: int|
        #![trigger is_word(s, w, e), cells(s, a, x)]
        is_word(s, w, e) && w < b < e && b < x <= e && (x == e || may_break(s, x) || (!may_break(s, b)
            && x == b + 1)) ==> cells(s, a, x) > limit
}

/// A word that starts in the row and is split at its end starts the row, indentation aside.
pub open spec fn split_words_start_rows(s: Seq<char>, a: int, b: int) -> bool {
    forall|w: int, e: int| #[trigger] is_word(s, w, e) && a <= w < b < e ==> all_spaces(s, a, w)
}

/// A part of a word that is cut where the word may not break starts the row, indentation and
/// characters that take no cell aside.
pub open spec fn cut_parts_start_rows(s: Seq<char>, a: int, b: int) -> bool {
    forall|w: int, e: int, x: int|
        #![trigger is_word(s, w, e), all_spaces(s, a, x)]
        is_word(s, w, e) && a <= x && w <= x < b < e && (x == w || may_break(s, x)) && (forall|k: int|
            x < k <= b ==> !#[trigger] may_break(s, k)) ==> all_spaces(s, a, x) || cells(s, a, x) == 0
}

/// A row of nothing but indentation that is followed by more of it has no room for one space more.
pub open spec fn indentation_fills_rows(s: Seq<char>, a: int, b: int, limit: int) -> bool {
    0 <= a <= b < s.len() && all_spaces(s, a, b) && s[b] == ' ' ==> cells(s, a, b + 1) > limit
}

/// What [`law_rows_are_packed_greedily`] says of a row that starts at `a` and may take `limit`
/// cells, where the next one starts at `b`.
pub open spec fn packed_greedily(s: Seq<char>, a: int, b: int, limit: int) -> bool {
    &&& no_room_for_a_word(s, a, b, limit)
    &&& no_room_for_a_part(s, a, b, limit)
    &&& split_words_start_rows(s, a, b)
    &&& cut_parts_start_rows(s, a, b)
    &&& indentation_fills_rows(s, a, b, limit)
}

spec fn row_limit(i: int, first: int, rest: int) -> int {
    if i == 0 {
        first
    } else {
        rest
    }
}

/// Each row is packed greedily, the last one before the row that starts at `next`.
#[verifier::opaque]
spec fn all_greedy(s: Seq<char>, rows: Seq<(int, int)>, next: int, first: int, rest: int) -> bool {
    forall|i: int|
        0 <= i < rows.len() ==> packed_greedily(
            s,
            (#[trigger] rows[i]).0,
            if i + 1 < rows.len() {
                rows[i + 1].0
            } else {
                next
            },
            row_limit(i, first, rest),
        )
}

/// The count is what is placed takes, and every closed row was closed for want of room.
spec fn counted(s: Seq<char>, p: Packing, k: int, first: int, rest: int) -> bool {
    &&& sound(s, p, k)
    &&& p.w == cells(s, p.start, k)
    &&& p.limit == row_limit(p.rows.len() as int, first, rest)
    &&& all_greedy(s, p.rows, p.start, first, rest)
}

proof fn lemma_cells_grow(s: Seq<char>, a: int, b: int, c: int)
    requires
        additive(s),
        0 <= a <= b <= c <= s.len(),
    ensures
        0 <= cells(s, a, b) <= cells(s, a, c),
{
    assert(cells(s, a, b) + cells(s, b, c) == cells(s, a, c));
}

proof fn lemma_spaces_take(s: Seq<char>, a: int, b: int)
    requires
        additive(s),
        0 <= a <= b <= s.len(),
        all_spaces(s, a, b),
    ensures
        cells(s, a, b) == b - a,
    decreases b - a,
{
    if a == b {
        lemma_no_cells(s, a);
    } else {
        lemma_spaces_take(s, a, b - 1);
        assert(s[b - 1] == ' ');
        assert(s.subrange(b - 1, b) =~= seq![' ']);
        lemma_encode_one(' ');
        lemma_char_bytes(' ');
        assert(cells(s, a, b - 1) + cells(s, b - 1, b) == cells(s, a, b));
    }
}

proof fn lemma_may_break(s: Seq<char>, from: int, k: int)
    requires
        0 <= from < k < s.len(),
    ensures
        breaks_before(s, from, k) == may_break(s, k),
{
    assert(s.subrange(k - 1, k) =~= seq![s[k - 1]]);
    assert(s.subrange(k, k + 1) =~= seq![s[k]]);
}

/// Where [`next_break`] leads: nothing before it is a place to break.
proof fn lemma_next_break_is_next(s: Seq<char>, from: int, k: int, to: int)
    requires
        0 <= from < k <= to <= s.len(),
    ensures
        k <= next_break(s, from, k, to) <= to,
        forall|x: int| k <= x < next_break(s, from, k, to) ==> !#[trigger] may_break(s, x),
        next_break(s, from, k, to) < to ==> may_break(s, next_break(s, from, k, to)),
    decreases to - k,
{
    if k < to {
        lemma_may_break(s, from, k);
        if !breaks_before(s, from, k) {
            lemma_next_break_is_next(s, from, k + 1, to);
        }
    }
}

/// Two words that share a character are one.
proof fn lemma_word_is_one(s: Seq<char>, w: int, e: int, v: int, f: int, k: int)
    requires
        is_word(s, w, e),
        is_word(s, v, f),
        w <= k < e,
        v <= k < f,
    ensures
        w == v,
        e == f,
{
    if w < v {
        assert(s[v - 1] != ' ');
    } else if v < w {
        assert(s[w - 1] != ' ');
    }
    if e < f {
        assert(s[e] != ' ');
    } else if f < e {
        assert(s[f] != ' ');
    }
}

proof fn lemma_greedy_push(
    s: Seq<char>,
    rows: Seq<(int, int)>,
    a: int,
    end: int,
    b: int,
    first: int,
    rest: int,
)
    requires
        all_greedy(s, rows, a, first, rest),
        packed_greedily(s, a, b, row_limit(rows.len() as int, first, rest)),
    ensures
        all_greedy(s, rows.push((a, end)), b, first, rest),
{
    reveal(all_greedy);
    let r = rows.push((a, end));
    assert forall|i: int| 0 <= i < r.len() implies packed_greedily(
        s,
        (#[trigger] r[i]).0,
        if i + 1 < r.len() {
            r[i + 1].0
        } else {
            b
        },
        row_limit(i, first, rest),
    ) by {
        if i < rows.len() {
            assert(r[i] == rows[i]);
        }
    }
}

/// A row closed before `b`, which is the start of a word or a place inside one, because what stands
/// in `[b, x)` does not fit.
proof fn lemma_closed_greedily(
    s: Seq<char>,
    a: int,
    b: int,
    x: int,
    word: int,
    to: int,
    part: int,
    limit: int,
)
    requires
        additive(s),
        is_word(s, word, to),
        0 <= a <= b,
        word <= b < x <= to,
        word <= part <= b,
        cells(s, a, x) > limit,
        b == word || x == b + 1 || (may_break(s, b) && forall|k: int|
            b < k < x ==> !#[trigger] may_break(s, k)),
        b == word || a > word || all_spaces(s, a, word),
        part == word || may_break(s, part),
        b == word || part == b || forall|k: int| part < k <= b ==> !#[trigger] may_break(s, k),
        b == word || part == b || a > part || all_spaces(s, a, part) || cells(s, a, part) == 0,
    ensures
        packed_greedily(s, a, b, limit),
{
    assert forall|w: int, e: int|
        #![trigger all_spaces(s, b, w), cells(s, a, e)]
        0 <= a <= b <= w < e <= s.len() && all_spaces(s, b, w) && s[w] != ' ' && (forall|k: int|
            w <= k < e ==> #[trigger] s[k] != ' ') && (e == s.len() || s[e] == ' ') implies cells(s, a, e)
        >= limit && (!all_spaces(s, a, b) ==> cells(s, a, e) > limit) by {
        assert(s[b] != ' ');
        if b < w {
            assert(s[b] == ' ');
        }
        if e < to {
            assert(s[e] != ' ');
        }
        lemma_cells_grow(s, a, x, e);
    }
    assert forall|w: int, e: int, y: int|
        #![trigger is_word(s, w, e), cells(s, a, y)]
        is_word(s, w, e) && w < b < e && b < y <= e && (y == e || may_break(s, y) || (!may_break(s, b)
            && y == b + 1)) implies cells(s, a, y) > limit by {
        lemma_word_is_one(s, w, e, word, to, b);
        lemma_cells_grow(s, a, x, if y >= x { y } else { x });
    }
    assert forall|w: int, e: int| #[trigger] is_word(s, w, e) && a <= w < b < e implies all_spaces(
        s,
        a,
        w,
    ) by {
        lemma_word_is_one(s, w, e, word, to, b);
    }
    assert forall|w: int, e: int, y: int|
        #![trigger is_word(s, w, e), all_spaces(s, a, y)]
        is_word(s, w, e) && a <= y && w <= y < b < e && (y == w || may_break(s, y)) && (forall|k: int|
            y < k <= b ==> !#[trigger] may_break(s, k)) implies all_spaces(s, a, y) || cells(s, a, y)
        == 0 by {
        lemma_word_is_one(s, w, e, word, to, b);
        if part == b {
            assert(may_break(s, b));
        } else if y < part {
            assert(!may_break(s, part));
        } else if y > part {
            assert(!may_break(s, y));
        }
    }
}

/// What fits is all that fits.
proof fn lemma_fit_is_full(s: Seq<char>, p: int, a: int, b: int, limit: int)
    requires
        additive(s),
        0 <= p <= a <= b <= s.len(),
    ensures
        fit(s, a, b, cells(s, p, a), limit) >= 0,
        a + fit(s, a, b, cells(s, p, a), limit) < b ==> cells(
            s,
            p,
            a + fit(s, a, b, cells(s, p, a), limit) + 1,
        ) > limit,
    decreases b - a,
{
    if a < b {
        assert(cells(s, p, a) + cells(s, a, a + 1) == cells(s, p, a + 1));
        if cells(s, p, a) + cells(s, a, a + 1) <= limit {
            lemma_fit_is_full(s, p, a + 1, b, limit);
        }
    }
}

proof fn lemma_spill_greedy(
    s: Seq<char>,
    rows: Seq<(int, int)>,
    p: int,
    at: int,
    limit: int,
    first: int,
    rest: int,
)
    requires
        additive(s),
        tiled(s, rows, p),
        0 <= p <= at < s.len(),
        all_spaces(s, p, at),
        s[at] != ' ',
        limit == row_limit(rows.len() as int, first, rest),
        all_greedy(s, rows, p, first, rest),
    ensures
        counted(s, spill(s, rows, p, at, limit, rest), at, first, rest),
        spill(s, rows, p, at, limit, rest).start >= p,
    decreases at - p,
{
    let n = fit(s, p, at, 0, limit);
    lemma_spill_sound(s, rows, p, at, limit, rest);
    if cells(s, p, at) >= limit && 0 < n && p + n <= at {
        let b = p + n;
        lemma_fit_is_full(s, p, p, at, limit);
        lemma_no_cells(s, p);
        assert(packed_greedily(s, p, b, limit)) by {
            assert forall|w: int, e: int|
                #![trigger all_spaces(s, b, w), cells(s, p, e)]
                0 <= p <= b <= w < e <= s.len() && all_spaces(s, b, w) && s[w] != ' ' && (forall|k: int|
                    w <= k < e ==> #[trigger] s[k] != ' ') && (e == s.len() || s[e] == ' ') implies cells(
                s,
                p,
                e,
            ) >= limit && (!all_spaces(s, p, b) ==> cells(s, p, e) > limit) by {
                if w < at {
                    assert(s[w] == ' ');
                }
                lemma_cells_grow(s, p, at, e);
            }
            assert(s[b - 1] == ' ');
        }
        lemma_tiled_push(s, rows, p, b, b);
        lemma_greedy_push(s, rows, p, b, b, first, rest);
        lemma_spill_greedy(s, rows.push((p, b)), b, at, rest, first, rest);
    }
}

/// Closing the row before `at`, because `[at, x)` does not fit.
proof fn lemma_close_row_greedy(
    s: Seq<char>,
    p: Packing,
    at: int,
    x: int,
    word: int,
    to: int,
    first: int,
    rest: int,
)
    requires
        additive(s),
        counted(s, p, at, first, rest),
        is_word(s, word, to),
        word <= at < x <= to,
        p.w + cells(s, at, x) > p.limit,
        at == word || (may_break(s, at) && forall|k: int|
            at < k < x ==> !#[trigger] may_break(s, k)),
        at == word || p.start > word || all_spaces(s, p.start, word),
    ensures
        counted(s, close_row(s, p, at, rest), at, first, rest),
        close_row(s, p, at, rest).start > word || all_spaces(
            s,
            close_row(s, p, at, rest).start,
            word,
        ),
        all_spaces(s, close_row(s, p, at, rest).start, at),
{
    lemma_close_row_sound(s, p, at, rest);
    lemma_no_cells(s, at);
    assert(s[at] != ' ');
    assert(cells(s, p.start, at) + cells(s, at, x) == cells(s, p.start, x));
    if p.end > p.start {
        lemma_closed_greedily(s, p.start, at, x, word, to, at, p.limit);
        lemma_greedy_push(s, p.rows, p.start, p.end, at, first, rest);
    } else {
        lemma_spill_greedy(s, p.rows, p.start, at, p.limit, first, rest);
    }
}

proof fn lemma_hard_cut_greedy(
    s: Seq<char>,
    p: Packing,
    j: int,
    to: int,
    word: int,
    end: int,
    part: int,
    first: int,
    rest: int,
)
    requires
        additive(s),
        counted(s, p, j, first, rest),
        is_word(s, word, end),
        word <= part <= j <= to <= end,
        part == word || may_break(s, part),
        forall|k: int| part < k < to ==> !#[trigger] may_break(s, k),
        p.start > word || all_spaces(s, p.start, word),
        p.start > part || all_spaces(s, p.start, part) || cells(s, p.start, part) == 0,
    ensures
        counted(s, hard_cut(s, p, j, to, rest), to, first, rest),
        hard_cut(s, p, j, to, rest).start > word || all_spaces(
            s,
            hard_cut(s, p, j, to, rest).start,
            word,
        ),
    decreases to - j,
{
    if j < to {
        let cw = cells(s, j, j + 1);
        lemma_no_cells(s, j);
        lemma_hard_cut_sound(s, p, j, j + 1, rest);
        assert(cells(s, p.start, j) + cells(s, j, j + 1) == cells(s, p.start, j + 1));
        let q = if p.w > 0 && p.w + cw > p.limit {
            assert(j > p.start);
            lemma_closed_greedily(s, p.start, j, j + 1, word, end, part, p.limit);
            lemma_greedy_push(s, p.rows, p.start, j, j, first, rest);
            lemma_tiled_push(s, p.rows, p.start, j, j);
            Packing { rows: p.rows.push((p.start, j)), start: j, end: p.end, w: 0, limit: rest }
        } else {
            p
        };
        let n = Packing { w: q.w + cw, end: j + 1, ..q };
        assert(counted(s, n, j + 1, first, rest));
        lemma_hard_cut_greedy(s, n, j + 1, to, word, end, part, first, rest);
    }
}

proof fn lemma_split_word_greedy(
    s: Seq<char>,
    p: Packing,
    word: int,
    from: int,
    to: int,
    first: int,
    rest: int,
)
    requires
        additive(s),
        counted(s, p, from, first, rest),
        is_word(s, word, to),
        word <= from <= to,
        from == word || from == to || may_break(s, from),
        p.start > word || all_spaces(s, p.start, word),
    ensures
        counted(s, split_word(s, p, word, from, to, rest), to, first, rest),
    decreases to - from,
{
    if from < to {
        lemma_next_break_is_next(s, word, from + 1, to);
        let bp = next_break(s, word, from + 1, to);
        let pw = cells(s, from, bp);
        lemma_place_part_sound(s, p, from, bp, rest);
        let q = if p.w > 0 && p.w + pw > p.limit {
            lemma_close_row_greedy(s, p, from, bp, word, to, first, rest);
            close_row(s, p, from, rest)
        } else {
            p
        };
        assert(cells(s, q.start, from) + cells(s, from, bp) == cells(s, q.start, bp));
        if q.w + pw > q.limit {
            lemma_cells_grow(s, p.start, from, from);
            lemma_hard_cut_greedy(s, q, from, bp, word, to, from, first, rest);
        }
        let n = place_part(s, p, from, bp, rest);
        assert(counted(s, n, bp, first, rest));
        lemma_split_word_greedy(s, n, word, bp, to, first, rest);
    } else {
        lemma_next_break_end(s, word, from, to);
    }
}

proof fn lemma_pack_greedy(s: Seq<char>, p: Packing, i: int, first: int, rest: int)
    requires
        additive(s),
        0 <= i <= s.len(),
        counted(s, p, i, first, rest),
        i < s.len() ==> s[i] != ' ',
        i == 0 || i == s.len() || s[i - 1] == ' ',
    ensures
        counted(s, pack(s, p, i, rest), s.len() as int, first, rest),
    decreases s.len() - i,
{
    if i < s.len() {
        lemma_next_word(s, i);
        let to = word_end(s, i);
        let next = next_word(s, i);
        let ww = cells(s, i, to);
        assert(is_word(s, i, to)) by {
            lemma_run_end(s, i, |c: char| c != ' ');
        }
        lemma_place_word_sound(s, p, i, rest);
        let q = if p.w > 0 && p.w + ww > p.limit {
            lemma_close_row_greedy(s, p, i, to, i, to, first, rest);
            close_row(s, p, i, rest)
        } else {
            p
        };
        assert(cells(s, q.start, i) + cells(s, i, to) == cells(s, q.start, to));
        let r = if q.w + ww > q.limit {
            if q.start < i {
                if q == p && p.w == 0 {
                    lemma_spaces_take(s, i - 1, i);
                    assert(cells(s, p.start, i - 1) + cells(s, i - 1, i) == cells(s, p.start, i));
                    lemma_cells_grow(s, p.start, i - 1, i);
                }
            }
            lemma_split_word_greedy(s, q, i, i, to, first, rest);
            split_word(s, q, i, i, to, rest)
        } else {
            Packing { w: q.w + ww, end: to, ..q }
        };
        lemma_spaces_take(s, to, next);
        assert(cells(s, r.start, to) + cells(s, to, next) == cells(s, r.start, next));
        let n = place_word(s, p, i, to, next, rest);
        assert(counted(s, n, next, first, rest));
        lemma_pack_greedy(s, n, next, first, rest);
    }
}

/// Rows are packed greedily. On a line as wide as its parts together, a row that another follows
/// was closed for want of room and for nothing else: the first word of the next row, with the spaces
/// before it, is more than the row could take -- or, where the break splits a word, the next part of
/// it is. A word is split only where it starts its row and still runs past the edge, and cut where
/// it may not break only where one part of it does. Indentation that fills rows of its own fills them.
pub proof fn law_rows_are_packed_greedily(s: Seq<char>, first: int, rest: int, i: int)
    requires
        first > 0,
        rest > 0,
        additive(s),
        0 <= i,
        i + 1 < rows_of(s, first, rest).len(),
    ensures
        packed_greedily(
            s,
            rows_of(s, first, rest)[i].0,
            rows_of(s, first, rest)[i + 1].0,
            if i == 0 {
                first
            } else {
                rest
            },
        ),
{
    let begin = Packing { rows: Seq::empty(), start: 0, end: 0, w: 0, limit: first };
    reveal(all_greedy);
    lemma_no_cells(s, 0);
    if s.len() > 0 && s[0] == ' ' {
        lemma_next_word(s, 0);
        lemma_run_end(s, 0, |c: char| c != ' ');
        let next = next_word(s, 0);
        assert(word_end(s, 0) == 0);
        lemma_next_break_end(s, 0, 0, 0);
        lemma_place_word_sound(s, begin, 0, rest);
        lemma_spaces_take(s, 0, next);
        let p = place_word(s, begin, 0, 0, next, rest);
        assert(counted(s, p, next, first, rest));
        lemma_pack_greedy(s, p, next, first, rest);
    } else {
        lemma_pack_greedy(s, begin, 0, first, rest);
    }
    let p = pack(s, begin, 0, rest);
    let rows = rows_of(s, first, rest);
    assert(rows[i] == p.rows[i]);
    if i + 1 < p.rows.len() {
        assert(rows[i + 1] == p.rows[i + 1]);
    }
}

// ---------------------------------------------------------------------------
// Packing, executed
// ---------------------------------------------------------------------------

pub open spec fn pairs(v: Seq<(usize, usize)>) -> Seq<(int, int)> {
    v.map_values(|t: (usize, usize)| (t.0 as int, t.1 as int))
}

proof fn lemma_pairs_push(v: Seq<(usize, usize)>, a: usize, b: usize)
    ensures
        pairs(v.push((a, b))) == pairs(v).push((a as int, b as int)),
{
    assert(pairs(v.push((a, b))) =~= pairs(v).push((a as int, b as int)));
}

proof fn lemma_fit(s: Seq<char>, a: int, b: int, w: int, limit: int)
    requires
        a <= b,
    ensures
        0 <= fit(s, a, b, w, limit) <= b - a,
    decreases b - a,
{
    if a < b && w + cells(s, a, a + 1) <= limit {
        lemma_fit(s, a + 1, b, w + cells(s, a, a + 1), limit);
    }
}

struct Packer {
    rows: Vec<(usize, usize)>,
    start: usize,
    end: usize,
    w: u128,
    limit: usize,
}

impl Packer {
    closed spec fn model(self) -> Packing {
        Packing {
            rows: pairs(self.rows@),
            start: self.start as int,
            end: self.end as int,
            w: self.w as int,
            limit: self.limit as int,
        }
    }
}

fn measure(l: &Laid, a: usize, b: usize) -> (r: u128)
    requires
        l.wf(),
        a <= b <= l.text@.len(),
    ensures
        r == cells(l.text@, a as int, b as int),
        r <= 65535,
{
    cells_drawn(l.sub(a, b)) as u128
}

/// How many characters of `[a, b)` fit in `limit` cells of pane, charged one by one.
fn prefix_cells(l: &Laid, a: usize, b: usize, limit: usize) -> (r: usize)
    requires
        l.wf(),
        a <= b <= l.text@.len(),
    ensures
        r == fit(l.text@, a as int, b as int, 0, limit as int),
        r <= b - a,
{
    let mut n: usize = 0;
    let mut w: u128 = 0;
    let limit: u128 = limit as u128;
    loop
        invariant
            l.wf(),
            a <= b <= l.text@.len(),
            n <= b - a,
            w <= limit,
            limit <= usize::MAX,
            fit(l.text@, a as int, b as int, 0, limit as int) == n + fit(
                l.text@,
                a + n,
                b as int,
                w as int,
                limit as int,
            ),
        ensures
            n <= b - a,
            fit(l.text@, a as int, b as int, 0, limit as int) == n,
        decreases b - a - n,
    {
        if n >= b - a {
            break;
        }
        let cw: u128 = measure(l, a + n, a + n + 1);
        if w + cw > limit {
            break;
        }
        w += cw;
        n += 1;
    }
    n
}

fn separator(c: char) -> (r: bool)
    ensures
        r == is_separator(c),
{
    c == '/' || c == '-' || c == '_' || c == '.' || c == ',' || c == ';' || c == ':' || c == '?'
        || c == '&' || c == '=' || c == '#'
}

/// The first place at or after `k` where the word `[from, to)` may break.
fn break_point(l: &Laid, from: usize, k: usize, to: usize) -> (r: usize)
    requires
        l.wf(),
        from < k <= to <= l.text@.len(),
    ensures
        r == next_break(l.text@, from as int, k as int, to as int),
        k <= r <= to,
{
    let mut i: usize = k;
    while i < to && !(separator(l.chars[i - 1]) || (measure(l, i - 1, i) > 1 && measure(l, i, i + 1)
        > 1))
        invariant
            l.wf(),
            from < k <= i <= to <= l.text@.len(),
            next_break(l.text@, from as int, i as int, to as int) == next_break(
                l.text@,
                from as int,
                k as int,
                to as int,
            ),
        decreases to - i,
    {
        i += 1;
    }
    i
}

/// More than any number of cells the first `k` characters can take.
spec fn most(k: int) -> int {
    65536 * (k + 1)
}

/// Opens a new row at `at`.
fn break_row(l: &Laid, p: Packer, at: usize, rest: usize) -> (r: Packer)
    requires
        l.wf(),
        p.start <= at <= l.text@.len(),
    ensures
        r.model() == close_row(l.text@, p.model(), at as int, rest as int),
        r.start <= at,
        r.w <= 65535,
{
    let mut rows = p.rows;
    if p.end > p.start {
        proof {
            lemma_pairs_push(rows@, p.start, p.end);
        }
        rows.push((p.start, p.end));
        return Packer { rows, start: at, end: at, w: 0, limit: rest };
    }
    let mut q: usize = p.start;
    let mut limit: usize = p.limit;
    let ghost all = spill(l.text@, pairs(rows@), q as int, at as int, limit as int, rest as int);
    loop
        invariant
            l.wf(),
            q <= at <= l.text@.len(),
            all == spill(
                l.text@,
                pairs(rows@),
                q as int,
                at as int,
                limit as int,
                rest as int,
            ),
        ensures
            q <= at <= l.text@.len(),
            all == (Packing {
                rows: pairs(rows@),
                start: q as int,
                end: q as int,
                w: cells(l.text@, q as int, at as int),
                limit: limit as int,
            }),
        decreases at - q,
    {
        if measure(l, q, at) < limit as u128 {
            break;
        }
        let n: usize = prefix_cells(l, q, at, limit);
        if n == 0 {
            break;
        }
        proof {
            lemma_pairs_push(rows@, q, (q + n) as usize);
        }
        rows.push((q, q + n));
        limit = rest;
        q = q + n;
    }
    let w: u128 = measure(l, q, at);
    Packer { rows, start: q, end: q, w, limit }
}

fn cut_hard(l: &Laid, p: Packer, from: usize, to: usize, rest: usize) -> (r: Packer)
    requires
        l.wf(),
        p.start <= from <= to <= l.text@.len(),
        p.w <= most(from as int),
    ensures
        r.model() == hard_cut(l.text@, p.model(), from as int, to as int, rest as int),
        r.start <= to,
        r.w <= most(to as int),
{
    let ghost all = hard_cut(l.text@, p.model(), from as int, to as int, rest as int);
    let Packer { mut rows, mut start, mut end, mut w, mut limit } = p;
    let mut j: usize = from;
    while j < to
        invariant
            l.wf(),
            start <= j,
            from <= j <= to <= l.text@.len(),
            w <= most(j as int),
            all == hard_cut(
                l.text@,
                Packing {
                    rows: pairs(rows@),
                    start: start as int,
                    end: end as int,
                    w: w as int,
                    limit: limit as int,
                },
                j as int,
                to as int,
                rest as int,
            ),
        decreases to - j,
    {
        let cw: u128 = measure(l, j, j + 1);
        if w > 0 && w + cw > limit as u128 {
            if j > start {
                proof {
                    lemma_pairs_push(rows@, start, j);
                }
                rows.push((start, j));
                limit = rest;
            }
            start = j;
            w = 0;
        }
        w += cw;
        j += 1;
        end = j;
    }
    Packer { rows, start, end, w, limit }
}

fn part_placed(l: &Laid, p: Packer, from: usize, to: usize, rest: usize) -> (r: Packer)
    requires
        l.wf(),
        p.start <= from < to <= l.text@.len(),
        p.w <= most(from as int),
    ensures
        r.model() == place_part(l.text@, p.model(), from as int, to as int, rest as int),
        r.start <= to,
        r.w <= most(to as int),
{
    let pw: u128 = measure(l, from, to);
    let mut q = p;
    if q.w > 0 && q.w + pw > q.limit as u128 {
        q = break_row(l, q, from, rest);
    }
    if q.w + pw > q.limit as u128 {
        cut_hard(l, q, from, to, rest)
    } else {
        Packer { rows: q.rows, start: q.start, end: to, w: q.w + pw, limit: q.limit }
    }
}

fn word_split(l: &Laid, p: Packer, word: usize, to: usize, rest: usize) -> (r: Packer)
    requires
        l.wf(),
        p.start <= word < to <= l.text@.len(),
        p.w <= most(word as int),
    ensures
        r.model() == split_word(
            l.text@,
            p.model(),
            word as int,
            word as int,
            to as int,
            rest as int,
        ),
        r.start <= to,
        r.w <= most(to as int),
{
    let ghost all = split_word(
        l.text@,
        p.model(),
        word as int,
        word as int,
        to as int,
        rest as int,
    );
    let mut q = p;
    let mut from: usize = word;
    while from < to
        invariant
            l.wf(),
            q.start <= from,
            word <= from <= to <= l.text@.len(),
            q.w <= most(from as int),
            all == split_word(
                l.text@,
                q.model(),
                word as int,
                from as int,
                to as int,
                rest as int,
            ),
        decreases to - from,
    {
        let bp: usize = break_point(l, word, from + 1, to);
        q = part_placed(l, q, from, bp, rest);
        from = bp;
    }
    proof {
        lemma_next_break(l.text@, word as int, from as int, to as int);
    }
    q
}

/// Greedy-packs one line into rows of at most `first` cells for the first row and `rest` for the
/// others, as windows of characters.
fn pack_line(l: &Laid, first: usize, rest: usize) -> (r: Vec<(usize, usize)>)
    requires
        l.wf(),
    ensures
        pairs(r@) == rows_of(l.text@, first as int, rest as int),
        forall|i: int| 0 <= i < r@.len() ==> (#[trigger] r@[i]).0 <= r@[i].1 <= l.text@.len(),
{
    let n: usize = l.chars.len();
    if first == 0 || rest == 0 {
        let none: Vec<(usize, usize)> = Vec::new();
        proof {
            assert(pairs(none@) =~= rows_of(l.text@, first as int, rest as int));
        }
        return none;
    }
    let mut p = Packer { rows: Vec::new(), start: 0, end: 0, w: 0, limit: first };
    let ghost begin = Packing {
        rows: Seq::empty(),
        start: 0,
        end: 0,
        w: 0,
        limit: first as int,
    };
    proof {
        assert(p.model().rows =~= begin.rows);
    }
    let mut i: usize = 0;
    while i < n
        invariant
            l.wf(),
            n == l.text@.len(),
            i <= n,
            p.start <= i,
            p.w <= most(i as int),
            i == 0 ==> p.w == 0 && p.limit > 0,
            0 < i < n ==> l.text@[i as int] != ' ',
            pack(l.text@, p.model(), i as int, rest as int) == pack(
                l.text@,
                begin,
                0,
                rest as int,
            ),
        decreases n - i,
    {
        let mut e: usize = i;
        while e < n && l.chars[e] != ' '
            invariant
                l.wf(),
                n == l.text@.len(),
                i <= e <= n,
                word_end(l.text@, e as int) == word_end(l.text@, i as int),
            decreases n - e,
        {
            e += 1;
        }
        let mut next: usize = e;
        while next < n && l.chars[next] == ' '
            invariant
                l.wf(),
                n == l.text@.len(),
                e <= next <= n,
                gap_end(l.text@, next as int) == gap_end(l.text@, e as int),
            decreases n - next,
        {
            next += 1;
        }
        proof {
            lemma_next_word(l.text@, i as int);
        }
        let ww: u128 = measure(l, i, e);
        if p.w > 0 && p.w + ww > p.limit as u128 {
            p = break_row(l, p, i, rest);
        }
        if p.w + ww > p.limit as u128 {
            proof {
                if i == e {
                    assert(l.text@.subrange(i as int, e as int) =~= Seq::<char>::empty());
                }
            }
            p = word_split(l, p, i, e, rest);
        } else {
            p = Packer { rows: p.rows, start: p.start, end: e, w: p.w + ww, limit: p.limit };
        }
        p = Packer {
            rows: p.rows,
            start: p.start,
            end: p.end,
            w: p.w + (next - e) as u128,
            limit: p.limit,
        };
        i = next;
    }
    let Packer { mut rows, start, end, .. } = p;
    proof {
        lemma_pairs_push(rows@, start, end);
    }
    rows.push((start, end));
    proof {
        law_rows_partition_the_line(l.text@, first as int, rest as int);
        let all = rows_of(l.text@, first as int, rest as int);
        assert forall|i: int| 0 <= i < rows@.len() implies (#[trigger] rows@[i]).0 <= rows@[i].1
            <= l.text@.len() by {
            assert(all[i] == (rows@[i].0 as int, rows@[i].1 as int));
            if i + 1 < all.len() {
                lemma_rows_apart(l.text@, all, l.text@.len() as int, i, all.len() - 1);
            }
            assert(all.last() == all[all.len() - 1]);
        }
    }
    rows
}

/// Greedy-packs one source line into rows of at most `first` cells for the first row and `rest` for
/// the others, reported as byte ranges into `line`.
pub fn wrap_line(line: &str, first: usize, rest: usize) -> (r: Vec<(usize, usize)>)
    ensures
        pairs(r@) == byte_windows(line@, rows_of(line@, first as int, rest as int)),
{
    let l = Laid::new(line);
    let rows = pack_line(&l, first, rest);
    let mut out: Vec<(usize, usize)> = Vec::new();
    let mut i: usize = 0;
    let ghost all = byte_windows(line@, rows_of(line@, first as int, rest as int));
    proof {
        assert(pairs(out@) =~= all.take(0));
    }
    while i < rows.len()
        invariant
            l.wf(),
            l.text@ == line@,
            i <= rows@.len(),
            pairs(rows@) == rows_of(line@, first as int, rest as int),
            all == byte_windows(line@, rows_of(line@, first as int, rest as int)),
            forall|j: int| 0 <= j < rows@.len() ==> (#[trigger] rows@[j]).0 <= rows@[j].1 <= line@.len(),
            pairs(out@) == all.take(i as int),
        decreases rows@.len() - i,
    {
        let (a, b) = rows[i];
        proof {
            assert(pairs(rows@)[i as int] == (a as int, b as int));
            lemma_pairs_push(out@, l.offs@[a as int], l.offs@[b as int]);
            assert(all.take(i + 1) =~= all.take(i as int).push(all[i as int]));
        }
        out.push((l.offs[a], l.offs[b]));
        i += 1;
    }
    proof {
        assert(all.take(i as int) =~= all);
    }
    out
}

// ---------------------------------------------------------------------------
// Hanging indent
// ---------------------------------------------------------------------------

pub open spec fn is_digit(c: char) -> bool {
    '0' <= c <= '9'
}

pub open spec fn leads(c: char) -> bool {
    c == ' ' || c == '>'
}

pub open spec fn space(c: char) -> bool {
    c == ' '
}

/// Characters of a list marker and the spaces behind it; 0 where there is none.
pub open spec fn marker_len(s: Seq<char>) -> int {
    let d = front_run(s, |c: char| is_digit(c));
    if s.len() >= 2 && (s[0] == '-' || s[0] == '*' || s[0] == '+') && s[1] == ' ' {
        1 + front_run(s.skip(1), |c: char| space(c))
    } else if 0 < d && d + 1 < s.len() && (s[d] == '.' || s[d] == ')') && s[d + 1] == ' ' {
        d + 1 + front_run(s.skip(d + 1), |c: char| space(c))
    } else {
        0
    }
}

/// Cells a continuation row is padded by: the indentation and block quote prefix, and the list
/// marker after it.
pub open spec fn hang(line: Seq<char>) -> int {
    let n = front_run(line, |c: char| leads(c));
    n + marker_len(line.skip(n))
}

fn spaces_from(l: &Laid, from: usize) -> (r: usize)
    requires
        l.wf(),
        from <= l.text@.len(),
    ensures
        r == front_run(l.text@.skip(from as int), |c: char| space(c)),
        from + r <= l.text@.len(),
{
    let n: usize = l.chars.len();
    let mut k: usize = from;
    while k < n && l.chars[k] == ' '
        invariant
            l.wf(),
            n == l.text@.len(),
            from <= k <= n,
            forall|i: int| from <= i < k ==> space(#[trigger] l.text@[i]),
        decreases n - k,
    {
        k += 1;
    }
    proof {
        let t = l.text@.skip(from as int);
        assert forall|i: int| 0 <= i < k - from implies space(#[trigger] t[i]) by {
            assert(t[i] == l.text@[i + from]);
        }
        lemma_strip_front(t, |c: char| space(c), k - from);
    }
    k - from
}

/// Cells a continuation row is padded by, so a wrapped line keeps the shape of the construct it
/// belongs to: text lines up under text rather than under the bullet.
pub fn hang_indent(line: &str) -> (r: usize)
    ensures
        r == hang(line@),
        r <= line@.len(),
{
    let l = Laid::new(line);
    let len: usize = l.chars.len();
    let mut n: usize = 0;
    while n < len && (l.chars[n] == ' ' || l.chars[n] == '>')
        invariant
            l.wf(),
            l.text@ == line@,
            len == line@.len(),
            n <= len,
            forall|i: int| 0 <= i < n ==> leads(#[trigger] line@[i]),
        decreases len - n,
    {
        n += 1;
    }
    let ghost rest = line@.skip(n as int);
    let mut d: usize = n;
    while d < len && '0' <= l.chars[d] && l.chars[d] <= '9'
        invariant
            l.wf(),
            l.text@ == line@,
            len == line@.len(),
            n <= d <= len,
            forall|i: int| n <= i < d ==> is_digit(#[trigger] line@[i]),
        decreases len - d,
    {
        d += 1;
    }
    proof {
        lemma_strip_front(line@, |c: char| leads(c), n as int);
        assert forall|i: int| 0 <= i < d - n implies is_digit(#[trigger] rest[i]) by {
            assert(rest[i] == line@[i + n]);
        }
        lemma_strip_front(rest, |c: char| is_digit(c), d - n);
        if n + 1 <= len {
            assert(rest.skip(1) =~= line@.skip(n + 1));
        }
        if d + 1 <= len {
            assert(rest.skip(d - n + 1) =~= line@.skip(d + 1));
        }
    }
    if len - n >= 2 && (l.chars[n] == '-' || l.chars[n] == '*' || l.chars[n] == '+') && l.chars[n
        + 1] == ' ' {
        return n + 1 + spaces_from(&l, n + 1);
    }
    if d > n && len - d >= 2 && (l.chars[d] == '.' || l.chars[d] == ')') && l.chars[d + 1] == ' ' {
        return d + 1 + spaces_from(&l, d + 1);
    }
    n
}

/// Half the pane is the cap: past that a deep indent costs more than the alignment it buys.
pub open spec fn capped_hang(line: Seq<char>, width: int) -> int {
    if hang(line) <= width / 2 {
        hang(line)
    } else {
        width / 2
    }
}

fn capped_indent(line: &str, width: usize) -> (r: usize)
    ensures
        r == capped_hang(line@, width as int),
        r <= width / 2,
{
    let h: usize = hang_indent(line);
    if h <= width / 2 {
        h
    } else {
        width / 2
    }
}

pub open spec fn one_src(w: (int, int)) -> Seq<Piece> {
    seq![Piece::Src(w.0 as usize, w.1 as usize)]
}

/// The rows of one source line at `width` cells; one row that shows all of it where the width is 0.
pub open spec fn source_rows(line: Seq<char>, width: int) -> Seq<Seq<Piece>> {
    if width == 0 {
        seq![one_src((0, blen(line)))]
    } else {
        let w = byte_windows(line, rows_of(line, width, width - capped_hang(line, width)));
        Seq::new(w.len(), |i: int| one_src(w[i]))
    }
}

pub open spec fn row_views(v: Seq<Row>) -> Seq<Seq<Piece>> {
    v.map_values(|r: Row| r@)
}

/// The rows one source line occupies at `width` cells, with the hanging indent its continuation
/// rows are padded by. `width == 0` means "do not wrap".
pub fn wrap_source(line: &str, width: usize) -> (r: (Vec<Row>, usize))
    ensures
        row_views(r.0@) == source_rows(line@, width as int),
        r.1 == if width == 0 {
            0
        } else {
            capped_hang(line@, width as int)
        },
{
    if width == 0 {
        let n: usize = byte_len(line);
        let mut row: Row = Vec::new();
        row.push(Piece::Src(0, n));
        proof {
            assert(row@ =~= one_src((0, n as int)));
        }
        let mut out: Vec<Row> = Vec::new();
        out.push(row);
        proof {
            assert(row_views(out@) =~= source_rows(line@, 0));
        }
        return (out, 0);
    }
    let indent: usize = capped_indent(line, width);
    let windows = wrap_line(line, width, width - indent);
    let ghost all = source_rows(line@, width as int);
    let mut out: Vec<Row> = Vec::new();
    let mut i: usize = 0;
    proof {
        assert(row_views(out@) =~= all.take(0));
    }
    while i < windows.len()
        invariant
            i <= windows@.len(),
            width > 0,
            all == source_rows(line@, width as int),
            pairs(windows@) == byte_windows(
                line@,
                rows_of(line@, width as int, width - capped_hang(line@, width as int)),
            ),
            row_views(out@) == all.take(i as int),
        decreases windows@.len() - i,
    {
        let (a, b) = windows[i];
        let mut row: Row = Vec::new();
        row.push(Piece::Src(a, b));
        let ghost before = out@;
        proof {
            assert(pairs(windows@)[i as int] == (a as int, b as int));
            assert(row@ =~= one_src((a as int, b as int)));
            assert(row_views(before.push(row)) =~= row_views(before).push(row@));
            assert(all.take(i + 1) =~= all.take(i as int).push(all[i as int]));
        }
        out.push(row);
        i += 1;
    }
    proof {
        assert(all.take(i as int) =~= all);
    }
    (out, indent)
}

/// The rows of one line as text, each continuation row behind the hanging indent.
pub open spec fn wrapped_line(line: Seq<char>, width: int) -> Seq<Seq<char>> {
    let indent = capped_hang(line, width);
    let rows = rows_of(line, width, width - indent);
    Seq::new(
        rows.len(),
        |i: int|
            if i == 0 {
                line.subrange(rows[i].0, rows[i].1)
            } else {
                repeat(' ', indent) + line.subrange(rows[i].0, rows[i].1)
            },
    )
}

/// The rows of the first `n` of `lines`.
pub open spec fn wrapped(lines: Seq<Seq<char>>, n: int, width: int) -> Seq<Seq<char>>
    decreases n,
{
    if n <= 0 {
        Seq::empty()
    } else {
        wrapped(lines, n - 1, width) + wrapped_line(lines[n - 1], width)
    }
}

/// The characters of `s` that are not spaces.
pub open spec fn inked(s: Seq<char>) -> Seq<char>
    decreases s.len(),
{
    if s.len() == 0 {
        s
    } else if s.last() == ' ' {
        inked(s.drop_last())
    } else {
        inked(s.drop_last()).push(s.last())
    }
}

/// The characters of the first `n` texts that are not spaces.
pub open spec fn all_inked(v: Seq<Seq<char>>, n: int) -> Seq<char>
    decreases n,
{
    if n <= 0 {
        Seq::empty()
    } else {
        all_inked(v, n - 1) + inked(v[n - 1])
    }
}

proof fn lemma_inked_concat(a: Seq<char>, b: Seq<char>)
    ensures
        inked(a + b) == inked(a) + inked(b),
    decreases b.len(),
{
    if b.len() == 0 {
        assert(a + b =~= a);
        assert(inked(a) + inked(b) =~= inked(a));
    } else {
        lemma_inked_concat(a, b.drop_last());
        assert((a + b).drop_last() =~= a + b.drop_last());
        assert(inked(a + b) =~= inked(a) + inked(b));
    }
}

proof fn lemma_inked_spaces(s: Seq<char>)
    requires
        all_spaces(s, 0, s.len() as int),
    ensures
        inked(s) == Seq::<char>::empty(),
    decreases s.len(),
{
    if s.len() > 0 {
        assert(s[s.len() - 1] == ' ');
        lemma_inked_spaces(s.drop_last());
    }
}

proof fn lemma_all_inked_concat(a: Seq<Seq<char>>, b: Seq<Seq<char>>, n: int)
    requires
        0 <= n <= b.len(),
    ensures
        all_inked(a + b, a.len() + n) == all_inked(a, a.len() as int) + all_inked(b, n),
    decreases n,
{
    if n == 0 {
        lemma_all_inked_same(a + b, a, a.len() as int);
        assert(all_inked(a, a.len() as int) + all_inked(b, 0) =~= all_inked(a, a.len() as int));
    } else {
        lemma_all_inked_concat(a, b, n - 1);
        assert((a + b)[a.len() + n - 1] == b[n - 1]);
        assert(all_inked(a + b, a.len() + n) =~= all_inked(a, a.len() as int) + all_inked(b, n));
    }
}

proof fn lemma_all_inked_same(a: Seq<Seq<char>>, b: Seq<Seq<char>>, n: int)
    requires
        forall|i: int| 0 <= i < n ==> #[trigger] a[i] == b[i],
    ensures
        all_inked(a, n) == all_inked(b, n),
    decreases n,
{
    if n > 0 {
        lemma_all_inked_same(a, b, n - 1);
        assert(a[n - 1] == b[n - 1]);
    }
}

proof fn lemma_wrapped_line_inked(line: Seq<char>, width: int, n: int)
    requires
        width > 0,
        0 < n <= wrapped_line(line, width).len(),
    ensures
        all_inked(wrapped_line(line, width), n) == inked(
            line.take(rows_of(line, width, width - capped_hang(line, width))[n - 1].1),
        ),
    decreases n,
{
    let indent = capped_hang(line, width);
    let rows = rows_of(line, width, width - indent);
    let out = wrapped_line(line, width);
    law_rows_partition_the_line(line, width, width - indent);
    let (a, b) = rows[n - 1];
    assert(b <= line.len()) by {
        if n < rows.len() {
            assert(rows[n - 1].1 <= rows[rows.len() - 1].0);
            assert(rows[rows.len() - 1].0 <= rows[rows.len() - 1].1);
        }
    }
    let part = line.subrange(a, b);
    if n == 1 {
        assert(line.take(b) =~= part);
        assert(all_inked(out, 0) + inked(out[0]) =~= inked(part));
    } else {
        let e = rows[n - 2].1;
        assert(e <= a && all_spaces(line, e, a));
        let gap = line.subrange(e, a);
        lemma_wrapped_line_inked(line, width, n - 1);
        assert(line.take(b) =~= line.take(e) + gap + part);
        lemma_inked_concat(line.take(e) + gap, part);
        lemma_inked_concat(line.take(e), gap);
        assert forall|k: int| 0 <= k < gap.len() implies #[trigger] gap[k] == ' ' by {
            assert(line[e + k] == ' ');
        }
        lemma_inked_spaces(gap);
        lemma_inked_spaces(repeat(' ', indent));
        lemma_inked_concat(repeat(' ', indent), part);
        assert(inked(line.take(b)) =~= inked(line.take(e)) + inked(part));
        assert(inked(out[n - 1]) =~= inked(part));
    }
}

/// Wrapping moves no word and drops none: whatever the width, the rows hold the characters of the
/// lines that are not spaces, all of them and in order.
pub proof fn law_wrapping_keeps_every_word(lines: Seq<Seq<char>>, n: int, width: int)
    requires
        width > 0,
        0 <= n <= lines.len(),
    ensures
        all_inked(wrapped(lines, n, width), wrapped(lines, n, width).len() as int) == all_inked(lines, n),
    decreases n,
{
    if n > 0 {
        let line = lines[n - 1];
        let before = wrapped(lines, n - 1, width);
        let out = wrapped_line(line, width);
        let indent = capped_hang(line, width);
        let rows = rows_of(line, width, width - indent);
        law_wrapping_keeps_every_word(lines, n - 1, width);
        law_rows_partition_the_line(line, width, width - indent);
        lemma_wrapped_line_inked(line, width, out.len() as int);
        let e = rows.last().1;
        let tail = line.skip(e);
        assert(line =~= line.take(e) + tail);
        lemma_inked_concat(line.take(e), tail);
        assert forall|k: int| 0 <= k < tail.len() implies #[trigger] tail[k] == ' ' by {
            assert(line[e + k] == ' ');
        }
        lemma_inked_spaces(tail);
        assert(inked(line) =~= inked(line.take(e)));
        lemma_all_inked_concat(before, out, out.len() as int);
    }
}

fn wrap_into(line: &str, width: usize, out: &mut Vec<String>)
    requires
        width > 0,
    ensures
        texts(final(out)@) == texts(old(out)@) + wrapped_line(line@, width as int),
{
    let l = Laid::new(line);
    let indent: usize = capped_indent(line, width);
    let pad = repeated(' ', indent);
    let rows = pack_line(&l, width, width - indent);
    let ghost all = wrapped_line(line@, width as int);
    let ghost start = texts(out@);
    let mut i: usize = 0;
    proof {
        assert(texts(out@) =~= start + all.take(0));
    }
    while i < rows.len()
        invariant
            l.wf(),
            l.text@ == line@,
            pad@ == repeat(' ', indent as int),
            indent == capped_hang(line@, width as int),
            all == wrapped_line(line@, width as int),
            i <= rows@.len(),
            pairs(rows@) == rows_of(line@, width as int, width - indent),
            forall|j: int| 0 <= j < rows@.len() ==> (#[trigger] rows@[j]).0 <= rows@[j].1 <= line@.len(),
            texts(out@) == start + all.take(i as int),
        decreases rows@.len() - i,
    {
        let (a, b) = rows[i];
        let part = l.sub(a, b);
        let mut row = String::new();
        if i > 0 {
            row.append(pad.as_str());
        }
        row.append(part);
        let ghost before = out@;
        proof {
            assert(pairs(rows@)[i as int] == (a as int, b as int));
            assert(row@ =~= all[i as int]);
            assert(texts(before.push(row)) =~= texts(before).push(row@));
            assert(start + all.take(i + 1) =~= (start + all.take(i as int)).push(all[i as int]));
        }
        out.push(row);
        i += 1;
    }
    proof {
        assert(all.take(i as int) =~= all);
    }
}

/// Word-wrap to `width` cells, preserving each source line's own break and its leading
/// indentation.
pub fn wrap(text: &str, width: usize) -> (r: Vec<String>)
    ensures
        texts(r@) == if width == 0 {
            Seq::empty()
        } else {
            wrapped(split_on(text@, '\n'), split_on(text@, '\n').len() as int, width as int)
        },
{
    let mut out: Vec<String> = Vec::new();
    if width == 0 {
        proof {
            assert(texts(out@) =~= Seq::empty());
        }
        return out;
    }
    let lines = pieces(text, '\n');
    let mut i: usize = 0;
    proof {
        assert(texts(out@) =~= wrapped(slices(lines@), 0, width as int));
    }
    while i < lines.len()
        invariant
            width > 0,
            i <= lines@.len(),
            texts(out@) == wrapped(slices(lines@), i as int, width as int),
        decreases lines@.len() - i,
    {
        wrap_into(lines[i], width, &mut out);
        i += 1;
    }
    out
}

// ---------------------------------------------------------------------------
// Hanging indents
// ---------------------------------------------------------------------------

/// The rows of a wrapped line are windows of it, the first at the edge, each other one behind the
/// indent: as wide as what its text hangs under, but never more than half the pane.
pub proof fn law_continuation_rows_hang(line: Seq<char>, width: int, i: int)
    requires
        width > 0,
        0 <= i < wrapped_line(line, width).len(),
    ensures
        ({
            let indent = if hang(line) > width / 2 {
                width / 2
            } else {
                hang(line)
            };
            let rows = rows_of(line, width, width - indent);
            &&& wrapped_line(line, width).len() == rows.len()
            &&& i == 0 ==> wrapped_line(line, width)[i] == line.subrange(rows[0].0, rows[0].1)
            &&& i > 0 ==> wrapped_line(line, width)[i] == Seq::new(indent as nat, |k: int| ' ')
                + line.subrange(rows[i].0, rows[i].1)
            &&& source_rows(line, width).len() == rows.len()
            &&& source_rows(line, width)[i] == seq![
                Piece::Src(offset(line, rows[i].0) as usize, offset(line, rows[i].1) as usize),
            ]
        }),
{
    let indent = capped_hang(line, width);
    lemma_hang(line);
    assert(repeat(' ', indent) =~= Seq::new(indent as nat, |k: int| ' '));
    let rows = rows_of(line, width, width - indent);
    assert(source_rows(line, width)[i] =~= seq![
        Piece::Src(offset(line, rows[i].0) as usize, offset(line, rows[i].1) as usize),
    ]);
}

proof fn lemma_hang(line: Seq<char>)
    ensures
        hang(line) >= 0,
{
    lemma_front_run_exists(line, |c: char| leads(c));
    let t = line.skip(front_run(line, |c: char| leads(c)));
    lemma_front_run_exists(t, |c: char| is_digit(c));
    lemma_front_run_exists(t.skip(1), |c: char| space(c));
    let d = front_run(t, |c: char| is_digit(c));
    lemma_front_run_exists(t.skip(d + 1), |c: char| space(c));
}

/// Text hangs under text. Behind indentation and quote markers, a bullet or an ordinal and the
/// spaces after it are part of what a continuation row is indented by; without a list marker it is
/// the indentation and the quote markers alone.
pub proof fn law_text_hangs_under_text(
    lead: Seq<char>,
    marker: Seq<char>,
    gap: Seq<char>,
    text: Seq<char>,
)
    requires
        forall|i: int| 0 <= i < lead.len() ==> #[trigger] lead[i] == ' ' || lead[i] == '>',
        forall|i: int| 0 <= i < gap.len() ==> #[trigger] gap[i] == ' ',
        gap.len() > 0,
        text.len() > 0,
        text[0] != ' ',
    ensures
        marker.len() == 1 && (marker[0] == '-' || marker[0] == '*' || marker[0] == '+') ==> hang(
            lead + (marker + gap + text),
        ) == lead.len() + 1 + gap.len(),
        marker.len() > 1 && (marker.last() == '.' || marker.last() == ')') && (forall|i: int|
            0 <= i < marker.len() - 1 ==> '0' <= #[trigger] marker[i] <= '9') ==> hang(
            lead + (marker + gap + text),
        ) == lead.len() + marker.len() + gap.len(),
        text[0] != '>' && text[0] != '-' && text[0] != '*' && text[0] != '+' && !('0' <= text[0]
            <= '9') ==> hang(lead + text) == lead.len(),
{
    let n = lead.len() as int;
    if text[0] != '>' && text[0] != '-' && text[0] != '*' && text[0] != '+' && !('0' <= text[0]
        <= '9') {
        lemma_hang_front(lead, text);
        lemma_strip_front(text, |c: char| is_digit(c), 0);
    }
    let t = marker + gap + text;
    let m = marker.len() as int;
    if m > 0 {
        assert(t[0] == marker[0]);
        assert(t.skip(m) =~= gap + text);
        assert forall|i: int| 0 <= i < gap.len() implies space(#[trigger] (gap + text)[i]) by {}
        lemma_strip_front(gap + text, |c: char| space(c), gap.len() as int);
        if m == 1 && (marker[0] == '-' || marker[0] == '*' || marker[0] == '+') {
            lemma_hang_front(lead, t);
            assert(t[1] == gap[0]);
        }
        if m > 1 && (marker.last() == '.' || marker.last() == ')') && (forall|i: int|
            0 <= i < m - 1 ==> '0' <= #[trigger] marker[i] <= '9') {
            assert('0' <= marker[0] <= '9');
            lemma_hang_front(lead, t);
            assert forall|i: int| 0 <= i < m - 1 implies is_digit(#[trigger] t[i]) by {
                assert(t[i] == marker[i]);
            }
            assert(t[m - 1] == marker.last());
            lemma_strip_front(t, |c: char| is_digit(c), m - 1);
            assert(t[m] == gap[0]);
        }
    }
}

proof fn lemma_hang_front(lead: Seq<char>, t: Seq<char>)
    requires
        forall|i: int| 0 <= i < lead.len() ==> #[trigger] lead[i] == ' ' || lead[i] == '>',
        t.len() > 0,
        t[0] != ' ',
        t[0] != '>',
    ensures
        hang(lead + t) == lead.len() + marker_len(t),
{
    let n = lead.len() as int;
    let s = lead + t;
    assert forall|i: int| 0 <= i < n implies leads(#[trigger] s[i]) by {
        assert(s[i] == lead[i]);
    }
    assert(s[n] == t[0]);
    lemma_strip_front(s, |c: char| leads(c), n);
    assert(s.skip(n) =~= t);
}

/// A text is wrapped line by line: one line more adds its own rows at the end, one at least, be it
/// empty, and leaves the rows there were.
pub proof fn law_a_text_is_wrapped_line_by_line(lines: Seq<Seq<char>>, line: Seq<char>, width: int)
    requires
        width > 0,
    ensures
        wrapped(lines.push(line), lines.len() as int + 1, width) == wrapped(
            lines,
            lines.len() as int,
            width,
        ) + wrapped_line(line, width),
        wrapped_line(line, width).len() >= 1,
{
    lemma_wrapped_prefix(lines, lines.push(line), lines.len() as int, width);
    lemma_hang(line);
    law_rows_partition_the_line(line, width, width - capped_hang(line, width));
}

proof fn lemma_wrapped_prefix(a: Seq<Seq<char>>, b: Seq<Seq<char>>, n: int, width: int)
    requires
        0 <= n <= a.len(),
        n <= b.len(),
        forall|i: int| 0 <= i < n ==> a[i] == b[i],
    ensures
        wrapped(a, n, width) == wrapped(b, n, width),
    decreases n,
{
    if n > 0 {
        lemma_wrapped_prefix(a, b, n - 1, width);
    }
}

} // verus!
