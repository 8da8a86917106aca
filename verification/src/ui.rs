//! What the screen shows, as plain values. The screen shows raw source lines with a gutter;
//! structure is expressed purely through looks, so there is no rendered-to-source mapping to get
//! wrong.
//!
//! Selections can start and end mid-line, so each rendered line is cut into runs at the union of the
//! selection and cursor boundaries. All cuts land on character boundaries.
use vstd::prelude::*;
use vstd::string::*;
use vstd::utf8::*;
use crate::app::{
    at_least_one, count_on, law_rows_show_the_line, less, piece_cut, region_note, region_text,
    smaller, Anchor, Annotation, App, Mode,
};
use crate::blocks::Span;
use crate::editor::line_start_of;
use crate::text::{
    blen, byte_len, byte_slice, bytes_between, char_index, decimal, decimal_string, floor_at,
    floor_boundary, is_cut, lemma_boundary_ends, lemma_boundary_is_offset, lemma_offset_ends,
    lemma_offset_is_boundary, lemma_offset_mono, lemma_round, offset, pad_left, pad_right, padded_left,
    padded_right, repeat, repeated, replace_char, replaced, slices, split_on, texts, Laid,
};
use crate::wrap::{
    cells_claimed, cells_spread, lemma_sound_marks, row_views, spread, unicode_width, wrap, wrapped,
    Piece, Row,
};

verus! {

/// How a run of text looks. A syntax tag of the highlighter has a look of its own.
#[derive(Debug, Clone, Copy)]
pub enum Look {
    Plain,
    Syntax(&'static str),
    Selected,
    Cursor,
    Caret,
    Muted,
    Accent,
    Note,
    Info,
}

/// A stretch of text in one look.
#[derive(Debug)]
pub struct Run {
    pub text: String,
    pub look: Look,
}

/// The mathematical form of [`Run`].
pub struct Stretch {
    pub text: Seq<char>,
    pub look: Look,
}

pub open spec fn stretches(v: Seq<Run>) -> Seq<Stretch> {
    v.map_values(|r: Run| Stretch { text: r.text@, look: r.look })
}

proof fn lemma_stretches_push(v: Seq<Run>, r: Run)
    ensures
        stretches(v.push(r)) == stretches(v).push(Stretch { text: r.text@, look: r.look }),
{
    assert(stretches(v.push(r)) =~= stretches(v).push(Stretch { text: r.text@, look: r.look }));
}

/// A byte range and the look it asks for.
pub type Mark = (usize, usize, Look);

// ---------------------------------------------------------------------------
// Segments
// ---------------------------------------------------------------------------

/// A mark starts or ends before character `k`.
pub open spec fn cut_here(text: Seq<char>, marks: Seq<Mark>, k: int) -> bool {
    exists|i: int|
        0 <= i < marks.len() && ((#[trigger] marks[i]).0 == offset(text, k) || marks[i].1 == offset(
            text,
            k,
        ))
}

/// The first character at or after `k` that a mark starts or ends before; the end of the text where
/// there is none.
pub open spec fn next_cut(text: Seq<char>, marks: Seq<Mark>, k: int) -> int
    decreases text.len() - k,
{
    if k >= text.len() {
        text.len() as int
    } else if cut_here(text, marks, k) {
        k
    } else {
        next_cut(text, marks, k + 1)
    }
}

/// The look of bytes `[a, b)`: that of the last of the first `n` marks that covers them.
pub open spec fn look_over(marks: Seq<Mark>, a: int, b: int, base: Look, n: int) -> Look
    decreases n,
{
    if n <= 0 {
        base
    } else if marks[n - 1].0 <= a && b <= marks[n - 1].1 {
        marks[n - 1].2
    } else {
        look_over(marks, a, b, base, n - 1)
    }
}

/// The runs of `text` from character `a` on.
pub open spec fn segments_from(text: Seq<char>, marks: Seq<Mark>, base: Look, a: int) -> Seq<Stretch>
    decreases text.len() - a,
{
    let b = next_cut(text, marks, a + 1);
    if !(0 <= a < b <= text.len()) {
        Seq::empty()
    } else {
        seq![
            Stretch {
                text: text.subrange(a, b),
                look: look_over(
                    marks,
                    offset(text, a),
                    offset(text, b),
                    base,
                    marks.len() as int,
                ),
            },
        ] + segments_from(text, marks, base, b)
    }
}

proof fn lemma_next_cut(text: Seq<char>, marks: Seq<Mark>, k: int)
    requires
        k <= text.len(),
    ensures
        k <= next_cut(text, marks, k) <= text.len(),
    decreases text.len() - k,
{
    if k < text.len() && !cut_here(text, marks, k) {
        lemma_next_cut(text, marks, k + 1);
    }
}

/// The text of a list of runs.
pub open spec fn text_of(v: Seq<Stretch>) -> Seq<char>
    decreases v.len(),
{
    if v.len() == 0 {
        Seq::empty()
    } else {
        text_of(v.drop_last()) + v.last().text
    }
}

proof fn lemma_text_of_concat(a: Seq<Stretch>, b: Seq<Stretch>)
    ensures
        text_of(a + b) == text_of(a) + text_of(b),
    decreases b.len(),
{
    if b.len() == 0 {
        assert(a + b =~= a);
        assert(text_of(a) + text_of(b) =~= text_of(a));
    } else {
        assert((a + b).drop_last() =~= a + b.drop_last());
        lemma_text_of_concat(a, b.drop_last());
        assert(text_of(a) + text_of(b) =~= text_of(a) + text_of(b.drop_last()) + b.last().text);
    }
}

/// Cutting a line into runs neither drops nor adds nor moves a character, whatever the marks, and no
/// run is empty.
pub proof fn law_segments_rebuild_the_text(text: Seq<char>, marks: Seq<Mark>, base: Look, a: int)
    requires
        0 <= a <= text.len(),
    ensures
        text_of(segments_from(text, marks, base, a)) == text.skip(a),
        forall|i: int|
            0 <= i < segments_from(text, marks, base, a).len() ==> (#[trigger] segments_from(
                text,
                marks,
                base,
                a,
            )[i]).text.len() > 0,
    decreases text.len() - a,
{
    let r = segments_from(text, marks, base, a);
    if a < text.len() {
        lemma_next_cut(text, marks, a + 1);
        let b = next_cut(text, marks, a + 1);
        law_segments_rebuild_the_text(text, marks, base, b);
        let head = Stretch {
            text: text.subrange(a, b),
            look: look_over(marks, offset(text, a), offset(text, b), base, marks.len() as int),
        };
        let rest = segments_from(text, marks, base, b);
        lemma_text_of_concat(seq![head], rest);
        reveal_with_fuel(text_of, 2);
        assert(seq![head].drop_last() =~= Seq::<Stretch>::empty());
        assert(text_of(seq![head]) =~= text.subrange(a, b));
        assert(text.subrange(a, b) + text.skip(b) =~= text.skip(a));
        assert forall|i: int| 0 <= i < r.len() implies (#[trigger] r[i]).text.len() > 0 by {
            if i > 0 {
                assert(r[i] == rest[i - 1]);
            }
        }
    } else {
        assert(text.skip(a) =~= Seq::<char>::empty());
    }
}

fn is_cut_byte(marks: &Vec<Mark>, byte: usize, Ghost(text): Ghost<Seq<char>>, Ghost(k): Ghost<int>) -> (r:
    bool)
    requires
        byte == offset(text, k),
    ensures
        r == cut_here(text, marks@, k),
{
    let mut i: usize = 0;
    while i < marks.len()
        invariant
            i <= marks@.len(),
            byte == offset(text, k),
            forall|j: int|
                0 <= j < i ==> !((#[trigger] marks@[j]).0 == byte || marks@[j].1 == byte),
        decreases marks@.len() - i,
    {
        if marks[i].0 == byte || marks[i].1 == byte {
            assert(marks@[i as int].0 == byte || marks@[i as int].1 == byte);
            return true;
        }
        i += 1;
    }
    false
}

fn covering_look(marks: &Vec<Mark>, a: usize, b: usize, base: Look) -> (r: Look)
    ensures
        r == look_over(marks@, a as int, b as int, base, marks@.len() as int),
{
    let mut n: usize = marks.len();
    while n > 0
        invariant
            n <= marks@.len(),
            look_over(marks@, a as int, b as int, base, n as int) == look_over(
                marks@,
                a as int,
                b as int,
                base,
                marks@.len() as int,
            ),
        decreases n,
    {
        if marks[n - 1].0 <= a && b <= marks[n - 1].1 {
            return marks[n - 1].2;
        }
        n -= 1;
    }
    base
}

/// Cut `text` into runs. Later marks win over earlier ones, and every cut is forced onto a character
/// boundary.
pub fn segments(text: &str, marks: &Vec<Mark>, base: Look) -> (r: Vec<Run>)
    ensures
        stretches(r@) == segments_from(text@, marks@, base, 0),
{
    let l = Laid::new(text);
    let n: usize = l.chars.len();
    let mut out: Vec<Run> = Vec::new();
    let mut a: usize = 0;
    let ghost all = segments_from(text@, marks@, base, 0);
    proof {
        assert(stretches(out@) + all =~= all);
    }
    while a < n
        invariant
            l.wf(),
            l.text@ == text@,
            n == text@.len(),
            a <= n,
            all == segments_from(text@, marks@, base, 0),
            stretches(out@) + segments_from(text@, marks@, base, a as int) == all,
        decreases n - a,
    {
        let mut b: usize = a + 1;
        while b < n && !is_cut_byte(marks, l.offs[b], Ghost(text@), Ghost(b as int))
            invariant
                l.wf(),
                l.text@ == text@,
                n == text@.len(),
                a < b <= n,
                next_cut(text@, marks@, b as int) == next_cut(text@, marks@, a + 1),
            decreases n - b,
        {
            b += 1;
        }
        let ghost before = out@;
        let run = Run {
            text: l.sub(a, b).to_owned(),
            look: covering_look(marks, l.offs[a], l.offs[b], base),
        };
        proof {
            let s = Stretch { text: run.text@, look: run.look };
            let rest = segments_from(text@, marks@, base, b as int);
            lemma_stretches_push(before, run);
            assert(stretches(before).push(s) + rest =~= stretches(before) + (seq![s] + rest));
        }
        out.push(run);
        a = b;
    }
    proof {
        lemma_next_cut_end(text@, marks@, a as int);
        assert(stretches(out@) =~= all);
    }
    out
}

proof fn lemma_next_cut_end(text: Seq<char>, marks: Seq<Mark>, a: int)
    requires
        a >= text.len(),
    ensures
        next_cut(text, marks, a + 1) == text.len(),
{
}

/// The look of the byte at `byte`, by the same later-wins rule, among the first `n` marks.
pub open spec fn look_at(marks: Seq<Mark>, byte: int, n: int) -> Look
    decreases n,
{
    if n <= 0 {
        Look::Plain
    } else if marks[n - 1].0 <= byte < marks[n - 1].1 {
        marks[n - 1].2
    } else {
        look_at(marks, byte, n - 1)
    }
}

/// The look of a byte. Alignment padding is in no file and so has no look of its own; it borrows
/// one.
pub fn style_at(marks: &Vec<Mark>, byte: usize) -> (r: Look)
    ensures
        r == look_at(marks@, byte as int, marks@.len() as int),
{
    let mut n: usize = marks.len();
    while n > 0
        invariant
            n <= marks@.len(),
            look_at(marks@, byte as int, n as int) == look_at(
                marks@,
                byte as int,
                marks@.len() as int,
            ),
        decreases n,
    {
        if marks[n - 1].0 <= byte && byte < marks[n - 1].1 {
            return marks[n - 1].2;
        }
        n -= 1;
    }
    Look::Plain
}

/// The first `n` marks that reach into bytes `[s, e)`, clipped to them and counted from `s`.
pub open spec fn clipped(marks: Seq<Mark>, s: int, e: int, n: int) -> Seq<Mark>
    decreases n,
{
    if n <= 0 {
        Seq::empty()
    } else {
        let before = clipped(marks, s, e, n - 1);
        let m = marks[n - 1];
        if m.1 > s && m.0 < e {
            before.push(
                (
                    (if m.0 >= s {
                        m.0 - s
                    } else {
                        0
                    }) as usize,
                    (smaller(m.1 as int, e) - s) as usize,
                    m.2,
                ),
            )
        } else {
            before
        }
    }
}

fn clip(marks: &Vec<Mark>, s: usize, e: usize) -> (r: Vec<Mark>)
    requires
        s <= e,
    ensures
        r@ == clipped(marks@, s as int, e as int, marks@.len() as int),
{
    let mut out: Vec<Mark> = Vec::new();
    let mut i: usize = 0;
    while i < marks.len()
        invariant
            s <= e,
            i <= marks@.len(),
            out@ == clipped(marks@, s as int, e as int, i as int),
        decreases marks@.len() - i,
    {
        let (a, b, look) = marks[i];
        if b > s && a < e {
            let from: usize = if a >= s {
                a - s
            } else {
                0
            };
            let to: usize = if b <= e {
                b - s
            } else {
                e - s
            };
            out.push((from, to, look));
        }
        i += 1;
    }
    out
}

// ---------------------------------------------------------------------------
// Marks of a line
// ---------------------------------------------------------------------------

/// Byte of the cursor within `text`, on a character boundary.
pub open spec fn cursor_at(app: App, text: Seq<char>) -> int {
    floor_at(encode_utf8(text), smaller(less(app.cursor.col as int, 1), blen(text)))
}

/// Byte index of the cursor within `text`, floored onto a character boundary.
pub fn cursor_byte(app: &App, text: &str) -> (r: usize)
    ensures
        r == cursor_at(*app, text@),
        is_cut(text@, r as int),
{
    let n: usize = byte_len(text);
    let c: usize = app.cursor.col.saturating_sub(1);
    floor_boundary(
        text,
        if c <= n {
            c
        } else {
            n
        },
    )
}

/// The highlighter's marks as looks.
pub open spec fn syntax_marks(v: Seq<(usize, usize, &'static str)>) -> Seq<Mark> {
    v.map_values(|m: (usize, usize, &'static str)| (m.0, m.1, Look::Syntax(m.2)))
}

/// Where the character of `text` that starts at byte `c` ends.
pub open spec fn char_end(text: Seq<char>, c: int) -> int {
    let k = char_index(text, c);
    if k < text.len() {
        offset(text, k + 1)
    } else {
        blen(text)
    }
}

/// The marks of a line: syntax, then the selection, then the cursor, so that highlighting never
/// hides where you are or what you have chosen.
pub open spec fn marks_of(app: App, line: int, text: Seq<char>) -> Seq<Mark> {
    let syntax = if 1 <= line <= app.marks@.len() {
        syntax_marks(app.marks@[line - 1]@)
    } else {
        Seq::empty()
    };
    let sel = match app.selected_on(line) {
        Some(r) => seq![(r.0 as usize, r.1 as usize, Look::Selected)],
        None => Seq::empty(),
    };
    let c = cursor_at(app, text);
    let cur = if line == app.cursor.line && char_end(text, c) > c {
        seq![(c as usize, char_end(text, c) as usize, Look::Cursor)]
    } else {
        Seq::empty()
    };
    syntax + sel + cur
}

fn next_char(text: &str, c: usize) -> (r: usize)
    requires
        is_cut(text@, c as int),
    ensures
        r == char_end(text@, c as int),
        c <= r,
        is_cut(text@, r as int),
{
    let l = Laid::new(text);
    let n: usize = l.chars.len();
    let ghost k = char_index(text@, c as int);
    proof {
        lemma_boundary_is_offset(text@, c as int);
        lemma_offset_ends(text@);
        lemma_boundary_ends(text@);
    }
    let mut i: usize = 0;
    while i < n && l.offs[i] <= c
        invariant
            l.wf(),
            l.text@ == text@,
            n == text@.len(),
            0 <= k <= n,
            offset(text@, k) == c,
            i <= n,
            i <= k + 1,
        decreases n - i,
    {
        proof {
            if i > k {
                lemma_offset_mono(text@, k, i as int);
            }
        }
        i += 1;
    }
    proof {
        if i <= k {
            lemma_offset_mono(text@, i as int, k);
        }
        lemma_offset_mono(text@, k, i as int);
        lemma_offset_is_boundary(text@, i as int);
        lemma_offset_mono(text@, i as int, n as int);
    }
    l.offs[i]
}

fn line_marks(app: &App, line: usize, text: &str) -> (r: Vec<Mark>)
    requires
        app.wf(),
        line >= 1,
    ensures
        r@ == marks_of(*app, line as int, text@),
{
    let mut out: Vec<Mark> = Vec::new();
    let ghost syntax = if 1 <= line <= app.marks@.len() {
        syntax_marks(app.marks@[line - 1]@)
    } else {
        Seq::empty()
    };
    if line <= app.marks.len() {
        let row = &app.marks[line - 1];
        let mut i: usize = 0;
        while i < row.len()
            invariant
                i <= row@.len(),
                syntax == syntax_marks(row@),
                out@ =~= syntax.take(i as int),
            decreases row@.len() - i,
        {
            let (a, b, tag) = row[i];
            out.push((a, b, Look::Syntax(tag)));
            i += 1;
        }
    }
    proof {
        assert(out@ =~= syntax);
    }
    if let Some((a, b)) = app.selected_bytes_on(line) {
        out.push((a, b, Look::Selected));
    }
    if line == app.cursor.line {
        let c0: usize = cursor_byte(app, text);
        let c1: usize = next_char(text, c0);
        if c1 > c0 {
            out.push((c0, c1, Look::Cursor));
        }
    }
    proof {
        assert(out@ =~= marks_of(*app, line as int, text@));
    }
    out
}

// ---------------------------------------------------------------------------
// The title
// ---------------------------------------------------------------------------

/// Where the longest tail of `path` starts that claims at most `budget` cells, from `k` on.
pub open spec fn tail_start(path: Seq<char>, budget: int, k: int) -> int
    decreases path.len() - k,
{
    if k >= path.len() {
        path.len() as int
    } else if unicode_width(path.skip(k)) <= budget {
        k
    } else {
        tail_start(path, budget, k + 1)
    }
}

/// A path in at most `max` cells: as it is, or its longest tail that leaves a cell for the mark of
/// the cut.
pub open spec fn shortened(path: Seq<char>, max: int) -> Seq<char> {
    if unicode_width(path) <= max {
        path
    } else {
        "…"@ + path.skip(tail_start(path, less(max, 1), 0))
    }
}

/// Keep the tail of an over-long path -- the file name is what identifies it, the directory prefix
/// is what makes it too long.
pub fn shorten_path(path: &str, max: usize) -> (r: String)
    ensures
        r@ == shortened(path@, max as int),
{
    if cells_claimed(path) <= max {
        return path.to_owned();
    }
    let budget: usize = max.saturating_sub(1);
    let l = Laid::new(path);
    let n: usize = l.chars.len();
    let mut k: usize = 0;
    while k < n
        invariant_except_break
            tail_start(path@, budget as int, k as int) == tail_start(path@, budget as int, 0),
        invariant
            l.wf(),
            l.text@ == path@,
            n == path@.len(),
            k <= n,
        ensures
            k == tail_start(path@, budget as int, 0),
            k <= n,
        decreases n - k,
    {
        let tail = l.sub(k, n);
        proof {
            assert(path@.subrange(k as int, n as int) =~= path@.skip(k as int));
        }
        if cells_claimed(tail) <= budget {
            break;
        }
        k += 1;
    }
    let mut out = "…".to_owned();
    out.append(l.sub(k, n));
    proof {
        assert(path@.subrange(k as int, n as int) =~= path@.skip(k as int));
    }
    out
}

proof fn lemma_tail_start(path: Seq<char>, budget: int, k: int)
    requires
        0 <= k <= path.len(),
    ensures
        k <= tail_start(path, budget, k) <= path.len(),
        tail_start(path, budget, k) < path.len() ==> unicode_width(
            path.skip(tail_start(path, budget, k)),
        ) <= budget,
        forall|j: int|
            k <= j < tail_start(path, budget, k) ==> unicode_width(#[trigger] path.skip(j)) > budget,
    decreases path.len() - k,
{
    if k < path.len() && unicode_width(path.skip(k)) > budget {
        lemma_tail_start(path, budget, k + 1);
    }
}

/// A shortened path is the path itself where that fits; otherwise it is the mark of the cut and a
/// tail of the path that fits in what is left, and no longer tail does.
pub proof fn law_a_shortened_path_keeps_the_longest_tail(path: Seq<char>, max: int)
    requires
        max >= 0,
    ensures
        unicode_width(path) <= max ==> shortened(path, max) == path,
        unicode_width(path) > max ==> exists|k: int|
            0 <= k <= path.len() && shortened(path, max) == "…"@ + #[trigger] path.skip(k) && (k
                == path.len() || unicode_width(path.skip(k)) <= less(max, 1)) && forall|j: int|
                0 <= j < k ==> unicode_width(#[trigger] path.skip(j)) > less(max, 1),
{
    lemma_tail_start(path, less(max, 1), 0);
    let k = tail_start(path, less(max, 1), 0);
    assert(path.skip(k) == path.skip(k));
}

/// What the title says of the selection.
pub open spec fn selection_note(app: App) -> Seq<char> {
    match app.selected() {
        Some(s) => region_note(app.selected_kind(), s),
        None => "—"@,
    }
}

/// The title but for the path.
pub open spec fn title_head(app: App) -> Seq<char> {
    " ["@ + selection_note(app) + "] · L"@ + decimal(app.cursor.line as nat) + ":"@ + decimal(
        app.cursor.col as nat,
    ) + " · "@ + decimal(app.lines@.len()) + " lines · "@ + decimal(app.blocks@.len())
        + " units · "@ + decimal(app.annotations@.len()) + " annotations · "@
}

/// The title of the source view in an area `width` cells wide.
pub open spec fn title_of(app: App, width: int) -> Seq<char> {
    let head = title_head(app);
    head + shortened(app.shown_name(), less(width, head.len() as int + 3)) + " "@
}

/// The selection readout goes first: it is the only field that changes on every keypress. The path
/// is last and shortened to whatever is left.
pub fn source_title(app: &App, width: u16) -> (r: String)
    requires
        app.wf(),
    ensures
        r@ == title_of(*app, width as int),
{
    let sel = match app.selection() {
        Some(s) => region_text(app.selection_kind().as_str(), s),
        None => "—".to_owned(),
    };
    let mut out = " [".to_owned();
    out.append(sel.as_str());
    out.append("] · L");
    out.append(decimal_string(app.cursor.line).as_str());
    out.append(":");
    out.append(decimal_string(app.cursor.col).as_str());
    out.append(" · ");
    out.append(decimal_string(app.lines.len()).as_str());
    out.append(" lines · ");
    out.append(decimal_string(app.blocks.len()).as_str());
    out.append(" units · ");
    out.append(decimal_string(app.annotations.len()).as_str());
    out.append(" annotations · ");
    let n: usize = Laid::new(out.as_str()).chars.len();
    let budget: usize = (width as usize).saturating_sub(n.saturating_add(3));
    out.append(shorten_path(app.display_name(), budget).as_str());
    out.append(" ");
    out
}

// ---------------------------------------------------------------------------
// Scrolling
// ---------------------------------------------------------------------------

pub open spec fn above(a: Anchor, b: Anchor) -> bool {
    a.line < b.line || (a.line == b.line && a.row < b.row)
}

/// Rows counted down from `a` until `to` is reached, or the document ends, or there are more than
/// `most`; `n` of them counted already.
pub open spec fn rows_to(app: App, a: Anchor, to: Anchor, n: int, most: int) -> int
    decreases most + 1 - n,
{
    if a == to || n > most {
        n
    } else {
        match app.stepped(a, true) {
            Some(next) => rows_to(app, next, to, n + 1, most),
            None => n,
        }
    }
}

/// The row the cursor is on.
pub open spec fn cursor_anchor(app: App) -> Anchor {
    Anchor { line: app.cursor.line, row: app.row_here() as usize }
}

/// The top row that shows the cursor, before the end of the document is looked at.
pub open spec fn following(app: App, scroll: Anchor, viewport: int) -> Anchor {
    let cur = cursor_anchor(app);
    if above(cur, scroll) {
        cur
    } else if cur.line >= scroll.line + viewport || rows_to(app, scroll, cur, 0, viewport)
        >= viewport {
        app.walked(cur, viewport - 1, false)
    } else {
        scroll
    }
}

/// The lowest top row that leaves no blank row under the last line.
pub open spec fn lowest_top(app: App, viewport: int) -> Anchor {
    let end = app.total();
    app.walked(
        Anchor { line: end as usize, row: (app.height(end) - 1) as usize },
        viewport - 1,
        false,
    )
}

/// The top row of a view `viewport` rows high.
pub open spec fn kept_visible(app: App, scroll: Anchor, viewport: int) -> Anchor {
    if viewport <= 0 {
        scroll
    } else if above(lowest_top(app, viewport), following(app, scroll, viewport)) {
        lowest_top(app, viewport)
    } else {
        following(app, scroll, viewport)
    }
}

fn is_above(a: Anchor, b: Anchor) -> (r: bool)
    ensures
        r == above(a, b),
{
    a.line < b.line || (a.line == b.line && a.row < b.row)
}

/// Scroll so the cursor's *row* is on screen. Every path is bounded by the viewport: the anchor is
/// walked, never indexed.
pub fn keep_cursor_visible(app: &App, scroll: &mut Anchor, viewport: usize)
    ensures
        *final(scroll) == kept_visible(*app, *old(scroll), viewport as int),
{
    if viewport == 0 {
        return;
    }
    let from = *scroll;
    let cur = Anchor { line: app.cursor.line, row: app.cursor_row() };
    let mut top = from;
    if is_above(cur, from) {
        top = cur;
    } else if cur.line - from.line >= viewport {
        top = app.walk_rows(cur, viewport - 1, false);
    } else {
        let mut n: usize = 0;
        let mut a = from;
        let mut open = true;
        while open && a != cur && n < viewport
            invariant
                n <= viewport,
                open ==> rows_to(*app, a, cur, n as int, viewport as int) == rows_to(
                    *app,
                    from,
                    cur,
                    0,
                    viewport as int,
                ),
                !open ==> n == rows_to(*app, from, cur, 0, viewport as int) && n < viewport,
            decreases
                viewport - n,
                if open {
                    1int
                } else {
                    0int
                },
        {
            match app.step_row(a, true) {
                Some(next) => {
                    a = next;
                    n += 1;
                },
                None => {
                    open = false;
                },
            }
        }
        proof {
            if open && n == viewport {
                lemma_rows_to_grows(*app, a, cur, n as int, viewport as int);
            }
        }
        if n >= viewport {
            top = app.walk_rows(cur, viewport - 1, false);
        }
    }
    let end: usize = app.line_count();
    let last = Anchor { line: end, row: app.row_count(end) - 1 };
    let lowest = app.walk_rows(last, viewport - 1, false);
    if is_above(lowest, top) {
        top = lowest;
    }
    *scroll = top;
}

proof fn lemma_rows_to_grows(app: App, a: Anchor, to: Anchor, n: int, most: int)
    ensures
        rows_to(app, a, to, n, most) >= n,
    decreases most + 1 - n,
{
    if a != to && n <= most {
        if let Some(next) = app.stepped(a, true) {
            lemma_rows_to_grows(app, next, to, n + 1, most);
        }
    }
}

/// Rows of the document above `line`.
pub open spec fn rows_above(app: App, line: int) -> int
    decreases line,
{
    if line <= 1 {
        0
    } else {
        rows_above(app, line - 1) + app.height(line - 1)
    }
}

/// Place of a row among all rows of the document.
pub open spec fn row_index(app: App, a: Anchor) -> int {
    rows_above(app, a.line as int) + a.row
}

/// The row exists.
pub open spec fn is_row(app: App, a: Anchor) -> bool {
    1 <= a.line <= app.total() && a.row < app.height(a.line as int)
}

/// Every count of rows and lines is one a machine can hold.
pub open spec fn countable(app: App) -> bool {
    app.lines@.len() <= usize::MAX && forall|line: int| #[trigger] app.height(line) <= usize::MAX
}

proof fn lemma_rows_above(app: App, a: int, b: int)
    requires
        1 <= a < b,
    ensures
        0 <= rows_above(app, a),
        rows_above(app, a) + app.height(a) <= rows_above(app, b),
    decreases b,
{
    if a + 1 < b {
        lemma_rows_above(app, a, b - 1);
    }
    if a > 1 {
        lemma_rows_above(app, a - 1, a);
    }
}

proof fn lemma_row_order(app: App, a: Anchor, b: Anchor)
    requires
        is_row(app, a),
        is_row(app, b),
    ensures
        above(a, b) <==> row_index(app, a) < row_index(app, b),
        a == b <==> row_index(app, a) == row_index(app, b),
        row_index(app, a) >= 0,
{
    if a.line < b.line {
        lemma_rows_above(app, a.line as int, b.line as int);
    } else if b.line < a.line {
        lemma_rows_above(app, b.line as int, a.line as int);
    }
    if a.line > 1 {
        lemma_rows_above(app, 1, a.line as int);
    }
}

proof fn lemma_step(app: App, a: Anchor, down: bool)
    requires
        is_row(app, a),
        countable(app),
    ensures
        app.stepped(a, down) matches Some(b) ==> is_row(app, b) && row_index(app, b) == row_index(
            app,
            a,
        ) + if down {
            1int
        } else {
            -1int
        },
        !down && app.stepped(a, down) is None ==> row_index(app, a) == 0,
        down && app.stepped(a, down) is None ==> a.line == app.total() && a.row + 1 == app.height(
            a.line as int,
        ),
{
    assert(app.height(a.line as int) <= usize::MAX);
    assert(app.height(a.line - 1) <= usize::MAX);
}

proof fn lemma_walk_up(app: App, a: Anchor, n: int)
    requires
        is_row(app, a),
        countable(app),
        n >= 0,
    ensures
        is_row(app, app.walked(a, n, false)),
        row_index(app, app.walked(a, n, false)) == if row_index(app, a) >= n {
            row_index(app, a) - n
        } else {
            0
        },
    decreases n,
{
    lemma_row_order(app, a, a);
    if n > 0 {
        lemma_step(app, a, false);
        if let Some(b) = app.stepped(a, false) {
            lemma_walk_up(app, b, n - 1);
        }
    }
}

proof fn lemma_walk_down(app: App, a: Anchor, n: int, b: Anchor)
    requires
        is_row(app, a),
        is_row(app, b),
        countable(app),
        n >= 0,
        row_index(app, b) == row_index(app, a) + n,
    ensures
        app.walked(a, n, true) == b,
    decreases n,
{
    lemma_row_order(app, a, b);
    if n > 0 {
        lemma_step(app, a, true);
        match app.stepped(a, true) {
            Some(next) => {
                lemma_walk_down(app, next, n - 1, b);
            },
            None => {},
        }
    }
}

proof fn lemma_rows_to(app: App, a: Anchor, to: Anchor, n: int, most: int)
    requires
        is_row(app, a),
        is_row(app, to),
        countable(app),
        0 <= n <= most + 1,
        row_index(app, a) <= row_index(app, to),
    ensures
        rows_to(app, a, to, n, most) == if row_index(app, to) - row_index(app, a) <= most + 1 - n {
            n + (row_index(app, to) - row_index(app, a))
        } else {
            most + 1
        },
    decreases most + 1 - n,
{
    lemma_row_order(app, a, to);
    if a != to && n <= most {
        lemma_step(app, a, true);
        match app.stepped(a, true) {
            Some(next) => {
                lemma_rows_to(app, next, to, n + 1, most);
            },
            None => {},
        }
    }
}

/// Counting rows down to a row of the document that does not lie above reaches it, from whatever
/// place the count starts.
proof fn lemma_rows_to_reaches(app: App, a: Anchor, to: Anchor, n: int, most: int)
    requires
        is_row(app, to),
        countable(app),
        !above(to, a),
        n <= most + 1,
    ensures
        n <= rows_to(app, a, to, n, most) <= most + 1,
        rows_to(app, a, to, n, most) <= most ==> app.walked(a, rows_to(app, a, to, n, most) - n, true)
            == to,
    decreases most + 1 - n,
{
    if a != to && n <= most {
        assert(app.height(a.line as int) <= usize::MAX);
        match app.stepped(a, true) {
            Some(next) => {
                assert(!above(to, next));
                lemma_rows_to_reaches(app, next, to, n + 1, most);
            },
            None => {},
        }
    }
}

/// There are no fewer rows between two rows than lines.
proof fn lemma_lines_within_rows(app: App, a: Anchor, b: Anchor)
    requires
        is_row(app, a),
        is_row(app, b),
        a.line <= b.line,
    ensures
        b.line - a.line <= row_index(app, b) - row_index(app, a) || a.line == b.line,
    decreases b.line - a.line,
{
    if a.line + 1 < b.line {
        let c = Anchor { line: (b.line - 1) as usize, row: 0 };
        lemma_lines_within_rows(app, a, c);
        assert(rows_above(app, b.line as int) == rows_above(app, b.line - 1) + app.height(b.line - 1));
    } else if a.line + 1 == b.line {
        assert(rows_above(app, b.line as int) == rows_above(app, b.line - 1) + app.height(b.line - 1));
    }
}

/// A row less than a viewport above the cursor's, and no lower than the lowest top, is left where
/// it is.
proof fn lemma_kept(app: App, top: Anchor, viewport: int)
    requires
        viewport > 0,
        countable(app),
        is_row(app, top),
        is_row(app, cursor_anchor(app)),
        row_index(app, top) <= row_index(app, cursor_anchor(app)) < row_index(app, top) + viewport,
        !above(lowest_top(app, viewport), top),
    ensures
        kept_visible(app, top, viewport) == top,
        exists|m: int|
            0 <= m < viewport && #[trigger] app.walked(top, m, true) == cursor_anchor(app),
{
    let cur = cursor_anchor(app);
    lemma_row_order(app, cur, top);
    lemma_row_order(app, top, cur);
    lemma_lines_within_rows(app, top, cur);
    lemma_rows_to(app, top, cur, 0, viewport);
    let m = row_index(app, cur) - row_index(app, top);
    lemma_walk_down(app, top, m, cur);
    assert(app.walked(top, m, true) == cur);
}

/// After scrolling the cursor's row is on screen: fewer than a viewport of rows below the top row,
/// counted down from it, wherever the view stood before -- on a row that a change of width took
/// away, too. No more of the document's end is scrolled away than leaves the view full, unless the
/// document is shorter than the view. And scrolling again changes nothing.
pub proof fn law_the_cursor_row_is_on_screen(app: App, scroll: Anchor, viewport: int)
    requires
        viewport > 0,
        countable(app),
        is_row(app, cursor_anchor(app)),
    ensures
        exists|m: int|
            0 <= m < viewport && #[trigger] app.walked(kept_visible(app, scroll, viewport), m, true)
                == cursor_anchor(app),
        is_row(app, scroll) ==> is_row(app, kept_visible(app, scroll, viewport)),
        !above(lowest_top(app, viewport), kept_visible(app, scroll, viewport)),
        is_row(app, kept_visible(app, scroll, viewport)) ==> row_index(
            app,
            kept_visible(app, scroll, viewport),
        ) == 0 || row_index(app, kept_visible(app, scroll, viewport)) + viewport <= rows_above(
            app,
            app.total() + 1,
        ),
        kept_visible(app, kept_visible(app, scroll, viewport), viewport) == kept_visible(
            app,
            scroll,
            viewport,
        ),
{
    let cur = cursor_anchor(app);
    let end = app.total();
    assert(app.height(end) <= usize::MAX);
    let last = Anchor { line: end as usize, row: (app.height(end) - 1) as usize };
    let f = following(app, scroll, viewport);
    let low = lowest_top(app, viewport);
    let top = kept_visible(app, scroll, viewport);
    assert(is_row(app, last));
    lemma_row_order(app, cur, last);
    lemma_row_order(app, last, cur);
    lemma_row_order(app, cur, cur);
    lemma_walk_up(app, cur, viewport - 1);
    lemma_walk_up(app, last, viewport - 1);
    assert(!above(last, cur)) by {
        if above(last, cur) {
            assert(cur.line == last.line);
        }
    }
    assert(row_index(app, cur) <= row_index(app, last));
    lemma_row_order(app, cur, low);
    lemma_row_order(app, low, cur);
    let moved = above(cur, scroll) || cur.line >= scroll.line + viewport || rows_to(
        app,
        scroll,
        cur,
        0,
        viewport,
    ) >= viewport;
    if !moved {
        assert(f == scroll);
        lemma_rows_to_reaches(app, scroll, cur, 0, viewport);
    }
    if top == scroll && !moved {
        let m = rows_to(app, scroll, cur, 0, viewport);
        assert(app.walked(top, m, true) == cur);
    } else {
        if moved {
            assert(is_row(app, f));
            assert(row_index(app, f) <= row_index(app, cur) < row_index(app, f) + viewport);
            lemma_row_order(app, low, f);
        } else {
            assert(top == low);
            assert(!above(cur, low));
        }
        lemma_kept(app, top, viewport);
    }
    if is_row(app, top) {
        lemma_row_order(app, low, top);
        lemma_row_order(app, top, low);
        assert(rows_above(app, end + 1) == rows_above(app, end) + app.height(end));
    }
}

// ---------------------------------------------------------------------------
// Areas
// ---------------------------------------------------------------------------

/// A rectangle of the screen, in cells.
#[derive(Debug, Clone, Copy, PartialEq, Eq, Structural)]
pub struct Area {
    pub x: u16,
    pub y: u16,
    pub width: u16,
    pub height: u16,
}

/// What a part of a split area asks for.
#[derive(Debug, Clone, Copy, PartialEq, Eq, Structural)]
pub enum Part {
    /// At least this much.
    Min(u16),
    /// This much.
    Length(u16),
}

/// Where an area starts: its row where `down`, its column otherwise.
pub open spec fn from_of(a: Area, down: bool) -> int {
    if down {
        a.y as int
    } else {
        a.x as int
    }
}

pub open spec fn size_of_lane(a: Area, down: bool) -> int {
    if down {
        a.height as int
    } else {
        a.width as int
    }
}

/// Where an area ends, at most the largest coordinate.
pub open spec fn till_of(a: Area, down: bool) -> int {
    plus(from_of(a, down) as u16, size_of_lane(a, down)) as int
}

/// What the first `n` parts ask for together.
pub open spec fn wanted(parts: Seq<Part>, n: int) -> int
    decreases n,
{
    if n <= 0 {
        0
    } else {
        wanted(parts, n - 1) + match parts[n - 1] {
            Part::Min(m) => m as int,
            Part::Length(m) => m as int,
        }
    }
}

/// There is room for every part, and one that takes what is left over.
pub open spec fn roomy(area: Area, parts: Seq<Part>, down: bool) -> bool {
    &&& wanted(parts, parts.len() as int) <= till_of(area, down) - from_of(area, down)
    &&& exists|i: int| 0 <= i < parts.len() && #[trigger] parts[i] is Min
}

/// `r` lies within `area`, and reaches from one side of it to the other across the split.
pub open spec fn lies_in(area: Area, down: bool, r: Area) -> bool {
    &&& from_of(area, down) <= from_of(r, down)
    &&& from_of(r, down) + size_of_lane(r, down) <= till_of(area, down)
    &&& from_of(r, !down) == from_of(area, !down)
    &&& size_of_lane(r, !down) == size_of_lane(area, !down)
}

/// `r` are the parts of `area`, one above the other where `down`, side by side otherwise. Where
/// there is room for all of them, each that asks for a length has it, and together they fill the
/// area without a gap.
pub open spec fn is_split(area: Area, parts: Seq<Part>, down: bool, r: Seq<Area>) -> bool {
    &&& r.len() == parts.len()
    &&& forall|i: int| 0 <= i < r.len() ==> lies_in(area, down, #[trigger] r[i])
    &&& roomy(area, parts, down) ==> {
        &&& from_of(r[0], down) == from_of(area, down)
        &&& forall|i: int, j: int|
            0 <= i && j == i + 1 && j < r.len() ==> from_of(#[trigger] r[j], down) == from_of(
                #[trigger] r[i],
                down,
            ) + size_of_lane(r[i], down)
        &&& from_of(r.last(), down) + size_of_lane(r.last(), down) == till_of(area, down)
        &&& forall|i: int|
            0 <= i < r.len() ==> (#[trigger] parts[i] matches Part::Length(n) ==> size_of_lane(
                r[i],
                down,
            ) == n)
    }
}

/// `ratatui::layout::Layout::split`, with each part as the constraint of its name. Claimed: there
/// is one rectangle for each constraint, within the area and as wide as it across the split; and
/// where the sizes asked for fit and one of them is a least size, every other is met exactly and
/// the rectangles fill the area in order. Where they do not fit, which of them gives way is open:
/// the solver's answer is not the same in every process.
#[verifier::external_body]
fn split_area(area: Area, parts: &Vec<Part>, down: bool) -> (r: Vec<Area>)
    ensures
        is_split(area, parts@, down, r@),
{
    let rect = ratatui::layout::Rect { x: area.x, y: area.y, width: area.width, height: area.height };
    let asked = parts.iter().map(|p| match *p {
        Part::Min(n) => ratatui::layout::Constraint::Min(n),
        Part::Length(n) => ratatui::layout::Constraint::Length(n),
    });
    let layout = match down {
        true => ratatui::layout::Layout::vertical(asked),
        false => ratatui::layout::Layout::horizontal(asked),
    };
    layout.split(rect).iter().map(|r| Area { x: r.x, y: r.y, width: r.width, height: r.height }).collect()
}

pub open spec fn minus(a: u16, b: int) -> u16 {
    if a >= b {
        (a - b) as u16
    } else {
        0
    }
}

/// `a + b`, at most the largest coordinate.
pub open spec fn plus(a: u16, b: int) -> u16 {
    if a + b <= u16::MAX {
        (a + b) as u16
    } else {
        u16::MAX
    }
}

pub open spec fn least(a: u16, b: u16) -> u16 {
    if a <= b {
        a
    } else {
        b
    }
}

/// What a border on every side leaves of an area.
pub open spec fn inside(a: Area) -> Area {
    Area {
        x: least(plus(a.x, 1), plus(a.x, a.width as int)),
        y: least(plus(a.y, 1), plus(a.y, a.height as int)),
        width: minus(a.width, 2),
        height: minus(a.height, 2),
    }
}

/// The area inside a border.
pub fn inner(a: Area) -> (r: Area)
    ensures
        r == inside(a),
{
    let right: u16 = a.x.saturating_add(a.width);
    let bottom: u16 = a.y.saturating_add(a.height);
    let x: u16 = a.x.saturating_add(1);
    let y: u16 = a.y.saturating_add(1);
    Area {
        x: if x <= right {
            x
        } else {
            right
        },
        y: if y <= bottom {
            y
        } else {
            bottom
        },
        width: a.width.saturating_sub(2),
        height: a.height.saturating_sub(2),
    }
}

/// `len` less `by` on each side, at least 1 where there is anything.
pub open spec fn inset_len(len: u16, by: u16) -> int {
    smaller(at_least_one(less(len as int, 2 * by)), len as int)
}

/// Centre an area inside `area`, inset by `dx`/`dy` on each side.
pub fn inset(area: Area, dx: u16, dy: u16) -> (r: Area)
    requires
        2 * dx <= u16::MAX,
        2 * dy <= u16::MAX,
        area.x + (area.width - inset_len(area.width, dx)) / 2 <= u16::MAX,
        area.y + (area.height - inset_len(area.height, dy)) / 2 <= u16::MAX,
    ensures
        r.width == inset_len(area.width, dx),
        r.height == inset_len(area.height, dy),
        r.x == area.x + (area.width - r.width) / 2,
        r.y == area.y + (area.height - r.height) / 2,
        r.x + r.width <= area.x + area.width,
        r.y + r.height <= area.y + area.height,
{
    let w0: u16 = area.width.saturating_sub(dx * 2);
    let w1: u16 = if w0 >= 1 {
        w0
    } else {
        1
    };
    let w: u16 = if w1 <= area.width {
        w1
    } else {
        area.width
    };
    let h0: u16 = area.height.saturating_sub(dy * 2);
    let h1: u16 = if h0 >= 1 {
        h0
    } else {
        1
    };
    let h: u16 = if h1 <= area.height {
        h1
    } else {
        area.height
    };
    Area {
        x: area.x + (area.width - w) / 2,
        y: area.y + (area.height - h) / 2,
        width: w,
        height: h,
    }
}

/// Rows the comment box is high: it grows with the comment, up to a point.
pub open spec fn input_height(app: App) -> int {
    let n = split_on(app.editor.text@, '\n').len() as int;
    if app.mode is Input {
        (if n < 1 {
            1
        } else if n > 8 {
            8
        } else {
            n
        }) + 2
    } else {
        0
    }
}

/// What the four panes of the screen ask for: the source, the comment box, the annotations and the
/// footer.
pub open spec fn panes_asked(app: App) -> Seq<Part> {
    seq![
        Part::Min(3),
        Part::Length(input_height(app) as u16),
        Part::Length(6),
        Part::Length(1),
    ]
}

/// What the four panes ask for.
pub fn pane_parts(app: &App) -> (r: Vec<Part>)
    ensures
        r@ == panes_asked(*app),
{
    let h: u16 = match app.mode {
        Mode::Input => {
            let rows = app.editor.rows();
            let n: usize = rows.len();
            proof {
                assert(slices(rows@).len() == n);
            }
            let m: u16 = if n < 1 {
                1
            } else if n > 8 {
                8
            } else {
                n as u16
            };
            m + 2
        },
        Mode::Normal => 0,
    };
    let mut parts: Vec<Part> = Vec::new();
    parts.push(Part::Min(3));
    parts.push(Part::Length(h));
    parts.push(Part::Length(6));
    parts.push(Part::Length(1));
    proof {
        assert(parts@ =~= panes_asked(*app));
    }
    parts
}

/// The four panes of the screen, where it is high enough for them: the last two at the bottom, the
/// comment box above them, the source in what is left.
pub open spec fn panes_in(app: App, area: Area) -> Seq<Area> {
    let h = input_height(app);
    let top = area.height - 7 - h;
    seq![
        Area { height: top as u16, ..area },
        Area { y: (area.y + top) as u16, height: h as u16, ..area },
        Area { y: (area.y + top + h) as u16, height: 6, ..area },
        Area { y: (area.y + top + h + 6) as u16, height: 1, ..area },
    ]
}

/// The four panes of the screen.
pub fn panes(app: &App, area: Area) -> (r: Vec<Area>)
    ensures
        r@.len() == 4,
        forall|i: int| 0 <= i < 4 ==> lies_in(area, true, #[trigger] r@[i]),
        area.y + area.height <= u16::MAX && area.height >= 10 + input_height(*app) ==> r@ == panes_in(
            *app,
            area,
        ),
{
    let parts = pane_parts(app);
    let r = split_area(area, &parts, true);
    proof {
        let p = panes_asked(*app);
        reveal_with_fuel(wanted, 5);
        if area.y + area.height <= u16::MAX && area.height >= 10 + input_height(*app) {
            assert(p[0] is Min);
            assert(roomy(area, p, true));
            assert(p[1] == Part::Length(input_height(*app) as u16));
            assert(p[2] == Part::Length(6));
            assert(p[3] == Part::Length(1));
            assert(lies_in(area, true, r@[0]) && lies_in(area, true, r@[1]));
            assert(lies_in(area, true, r@[2]) && lies_in(area, true, r@[3]));
            assert(from_of(r@[1], true) == from_of(r@[0], true) + size_of_lane(r@[0], true));
            assert(from_of(r@[2], true) == from_of(r@[1], true) + size_of_lane(r@[1], true));
            assert(from_of(r@[3], true) == from_of(r@[2], true) + size_of_lane(r@[2], true));
            assert(r@ =~= panes_in(*app, area));
        }
    }
    r
}

// ---------------------------------------------------------------------------
// The source view
// ---------------------------------------------------------------------------

/// One row of the source view: the gutter -- line number, mark, selection bar -- and the body.
#[derive(Debug)]
pub struct ViewRow {
    /// The line number, blank on a continuation row.
    pub number: String,
    /// The row belongs to the cursor's line.
    pub on_cursor: bool,
    /// `●` for an annotation, `?` for an unanswered question, on a line's first row.
    pub dot: &'static str,
    pub bar: &'static str,
    /// The line is selected.
    pub selected: bool,
    pub runs: Vec<Run>,
    /// The body runs past the right edge; true where it takes the cursor with it.
    pub cut: Option<bool>,
}

/// The mathematical form of [`ViewRow`].
pub struct RowView {
    pub number: Seq<char>,
    pub on_cursor: bool,
    pub dot: &'static str,
    pub bar: &'static str,
    pub selected: bool,
    pub runs: Seq<Stretch>,
    pub cut: Option<bool>,
}

impl ViewRow {
    pub open spec fn model(self) -> RowView {
        RowView {
            number: self.number@,
            on_cursor: self.on_cursor,
            dot: self.dot,
            bar: self.bar,
            selected: self.selected,
            runs: stretches(self.runs@),
            cut: self.cut,
        }
    }
}

pub open spec fn view_models(v: Seq<ViewRow>) -> Seq<RowView> {
    v.map_values(|r: ViewRow| r.model())
}

/// Everything the source pane shows.
#[derive(Debug)]
pub struct SourceView {
    pub title: String,
    pub gutter: Area,
    pub body: Area,
    pub rows: Vec<ViewRow>,
}

/// The runs of one piece of a row.
pub open spec fn piece_runs(text: Seq<char>, marks: Seq<Mark>, p: Piece) -> Seq<Stretch> {
    match p {
        Piece::Src(s, e) => segments_from(
            byte_slice(text, s as int, e as int),
            clipped(marks, s as int, e as int, marks.len() as int),
            Look::Plain,
            0,
        ),
        Piece::Pad { n, fill, anchor } => seq![
            Stretch {
                text: repeat(fill, n as int),
                look: look_at(marks, anchor as int, marks.len() as int),
            },
        ],
    }
}

/// The runs of the first `n` pieces of a row.
pub open spec fn pieces_runs(text: Seq<char>, marks: Seq<Mark>, row: Seq<Piece>, n: int) -> Seq<Stretch>
    decreases n,
{
    if n <= 0 {
        Seq::empty()
    } else {
        pieces_runs(text, marks, row, n - 1) + piece_runs(text, marks, row[n - 1])
    }
}

/// The body of row `k` of a line: the hanging indent on a continuation row, the pieces, and a cell
/// for the cursor where there is nothing else.
pub open spec fn body_runs(app: App, line: int, k: int) -> Seq<Stretch> {
    let text = app.shown(line);
    let row = app.rows(line)[k];
    let indent = app.indent(line);
    let head = if k > 0 && indent > 0 {
        seq![Stretch { text: repeat(' ', indent), look: Look::Plain }]
    } else {
        Seq::empty()
    };
    let all = head + pieces_runs(text, marks_of(app, line, text), row, row.len() as int);
    if all.len() == 0 && line == app.cursor.line {
        seq![Stretch { text: " "@, look: Look::Cursor }]
    } else {
        all
    }
}

/// Cells the first `n` runs take.
pub open spec fn runs_cells(v: Seq<Stretch>, n: int) -> int
    decreases n,
{
    if n <= 0 {
        0
    } else {
        runs_cells(v, n - 1) + spread(v[n - 1].text)
    }
}

/// An unanswered question stands on the line.
pub open spec fn asks_on(app: App, line: int) -> bool {
    exists|i: int|
        0 <= i < app.questions@.len() && (#[trigger] app.questions@[i]).line == line
            && !crate::app::answered(app.annotations@, app.questions@[i])
}

/// Row `k` of a line, in a view whose line numbers are `number_w` and whose body is `body_w` cells
/// wide.
pub open spec fn row_view(app: App, line: int, k: int, number_w: int, body_w: int) -> RowView {
    let selected = app.selected() matches Some(s) && s.on_line(line);
    let current = app.unit_here() matches Some(i) && app.blocks@[i].span.on_line(line);
    let runs = body_runs(app, line, k);
    let text = app.shown(line);
    RowView {
        number: if k == 0 {
            pad_left(decimal(line as nat), number_w)
        } else {
            repeat(' ', number_w)
        },
        on_cursor: line == app.cursor.line,
        dot: if k == 0 && count_on(app.annotations@, line, app.annotations@.len() as int) > 0 {
            "●"
        } else if k == 0 && asks_on(app, line) {
            "?"
        } else {
            " "
        },
        bar: if current || selected {
            "▍"
        } else {
            " "
        },
        selected,
        runs,
        cut: if runs_cells(runs, runs.len() as int) > body_w && body_w > 0 && !app.peek {
            Some(
                line == app.cursor.line && spread(byte_slice(text, 0, cursor_at(app, text)))
                    >= body_w,
            )
        } else {
            None
        },
    }
}

/// Rows `from..n` of a line.
pub open spec fn line_views(app: App, line: int, from: int, n: int, number_w: int, body_w: int) -> Seq<
    RowView,
> {
    Seq::new(
        if n >= from {
            (n - from) as nat
        } else {
            0
        },
        |i: int| row_view(app, line, from + i, number_w, body_w),
    )
}

/// The rows of a view with `room` rows left, from row `from` of `line` on.
pub open spec fn views_from(
    app: App,
    line: int,
    from: int,
    room: int,
    number_w: int,
    body_w: int,
) -> Seq<RowView>
    decreases app.lines@.len() + 1 - line,
{
    if room <= 0 || line > app.lines@.len() {
        Seq::empty()
    } else {
        let n = app.rows(line).len() as int;
        let shown = if n <= from {
            0
        } else {
            smaller(n - from, room)
        };
        line_views(app, line, from, from + shown, number_w, body_w) + views_from(
            app,
            line + 1,
            0,
            room - shown,
            number_w,
            body_w,
        )
    }
}

/// Cells the line numbers take.
pub open spec fn number_width(app: App) -> int {
    let n = decimal(app.lines@.len()).len() as int;
    if n >= 4 {
        n
    } else {
        4
    }
}

/// Cells the gutter takes in an area `width` cells wide: the numbers, the mark and the bar.
pub open spec fn gutter_width(app: App, width: u16) -> u16 {
    let n = number_width(app) + 2;
    least(
        if n <= u16::MAX {
            n as u16
        } else {
            6
        },
        minus(width, 1),
    )
}

/// What the two columns inside the source pane ask for.
pub open spec fn columns_asked(app: App, width: u16) -> Seq<Part> {
    seq![Part::Length(gutter_width(app, width)), Part::Min(0)]
}

fn push_run(out: &mut Vec<Run>, text: String, look: Look)
    ensures
        stretches(final(out)@) == stretches(old(out)@).push(Stretch { text: text@, look }),
        final(out)@.len() == old(out)@.len() + 1,
{
    let run = Run { text, look };
    proof {
        lemma_stretches_push(out@, run);
    }
    out.push(run);
}

fn push_pieces(out: &mut Vec<Run>, text: &str, marks: &Vec<Mark>, row: &Row)
    requires
        forall|j: int| 0 <= j < row@.len() ==> piece_cut(#[trigger] row@[j], text@),
    ensures
        stretches(final(out)@) == stretches(old(out)@) + pieces_runs(
            text@,
            marks@,
            row@,
            row@.len() as int,
        ),
{
    let ghost start = stretches(out@);
    let mut j: usize = 0;
    proof {
        assert(start + pieces_runs(text@, marks@, row@, 0) =~= start);
    }
    while j < row.len()
        invariant
            j <= row@.len(),
            forall|j: int| 0 <= j < row@.len() ==> piece_cut(#[trigger] row@[j], text@),
            stretches(out@) == start + pieces_runs(text@, marks@, row@, j as int),
        decreases row@.len() - j,
    {
        let ghost before = out@;
        let ghost more = piece_runs(text@, marks@, row@[j as int]);
        proof {
            assert(piece_cut(row@[j as int], text@));
        }
        match row[j] {
            Piece::Src(s, e) => {
                let part = bytes_between(text, s, e);
                let clips = clip(marks, s, e);
                let mut runs = segments(part, &clips, Look::Plain);
                let ghost extra = runs@;
                out.append(&mut runs);
                proof {
                    assert(stretches(out@) =~= stretches(before) + stretches(extra));
                }
            },
            Piece::Pad { n, fill, anchor } => {
                push_run(out, repeated(fill, n), style_at(marks, anchor));
                proof {
                    assert(stretches(out@) =~= stretches(before) + more);
                }
            },
        }
        proof {
            assert(stretches(out@) =~= start + (pieces_runs(text@, marks@, row@, j as int) + more));
        }
        j += 1;
    }
}

proof fn lemma_runs_cells(v: Seq<Stretch>, i: int, n: int)
    requires
        0 <= i <= n <= v.len(),
    ensures
        0 <= runs_cells(v, i) <= runs_cells(v, n),
    decreases n,
{
    if n > 0 {
        lemma_sound_marks(v[n - 1].text);
        lemma_runs_cells(v, if i < n {
            i
        } else {
            n - 1
        }, n - 1);
    }
}

/// Do the runs take more than `width` cells?
fn runs_past(runs: &Vec<Run>, width: usize) -> (r: bool)
    ensures
        r == (runs_cells(stretches(runs@), runs@.len() as int) > width),
{
    let ghost v = stretches(runs@);
    let mut sum: u128 = 0;
    let mut i: usize = 0;
    while i < runs.len() && sum <= width as u128
        invariant
            i <= runs@.len(),
            v == stretches(runs@),
            sum == runs_cells(v, i as int),
        decreases runs@.len() - i,
    {
        proof {
            assert(v[i as int].text == runs@[i as int].text@);
        }
        sum += cells_spread(runs[i].text.as_str());
        i += 1;
    }
    proof {
        lemma_runs_cells(v, i as int, v.len() as int);
    }
    sum > width as u128
}

/// What the rows of one line have in common.
struct LineFacts {
    text: String,
    marks: Vec<Mark>,
    rows: Vec<Row>,
    indent: usize,
    on_cursor: bool,
    dot: &'static str,
    bar: &'static str,
    selected: bool,
    hidden: bool,
}

impl LineFacts {
    closed spec fn of(self, app: App, line: int, body_w: int) -> bool {
        let text = app.shown(line);
        let rv = row_view(app, line, 0, 0, body_w);
        &&& self.text@ == text
        &&& self.marks@ == marks_of(app, line, text)
        &&& row_views(self.rows@) == app.rows(line)
        &&& self.indent == app.indent(line)
        &&& self.on_cursor == (line == app.cursor.line)
        &&& self.dot == rv.dot
        &&& self.bar == rv.bar
        &&& self.selected == rv.selected
        &&& self.hidden == (line == app.cursor.line && spread(
            byte_slice(text, 0, cursor_at(app, text)),
        ) >= body_w)
        &&& forall|i: int, j: int|
            0 <= i < app.rows(line).len() && 0 <= j < app.rows(line)[i].len() ==> piece_cut(
                #[trigger] app.rows(line)[i][j],
                text,
            )
    }
}

fn facts_of(app: &App, line: usize, body_w: usize) -> (r: LineFacts)
    requires
        app.wf(),
        1 <= line <= app.lines@.len(),
    ensures
        r.of(*app, line as int, body_w as int),
        r.rows@.len() >= 1,
{
    let _n: usize = byte_len(app.lines[line - 1].as_str());
    let text = app.display_line(line);
    let marks = line_marks(app, line, text.as_str());
    let (rows, indent) = app.line_rows(line);
    let on_cursor = line == app.cursor.line;
    let in_current = match app.current_block() {
        Some(c) => app.blocks[c].contains_line(line),
        None => false,
    };
    let selected = app.line_selected(line);
    let dot = if app.annotations_on(line) > 0 {
        "●"
    } else if app.question_on(line) {
        "?"
    } else {
        " "
    };
    let bar = if in_current || selected {
        "▍"
    } else {
        " "
    };
    let c: usize = cursor_byte(app, text.as_str());
    proof {
        lemma_boundary_ends(text@);
        law_rows_show_the_line(*app, line as int);
    }
    let hidden = on_cursor && cells_spread(bytes_between(text.as_str(), 0, c)) >= body_w as u128;
    LineFacts { text, marks, rows, indent, on_cursor, dot, bar, selected, hidden }
}

fn row_of_line(
    app: &App,
    line: usize,
    k: usize,
    f: &LineFacts,
    number_w: usize,
    body_w: usize,
) -> (r: ViewRow)
    requires
        app.wf(),
        f.of(*app, line as int, body_w as int),
        k < f.rows@.len(),
    ensures
        r.model() == row_view(*app, line as int, k as int, number_w as int, body_w as int),
{
    let number = if k == 0 {
        padded_left(decimal_string(line).as_str(), number_w)
    } else {
        repeated(' ', number_w)
    };
    let mut runs: Vec<Run> = Vec::new();
    proof {
        assert(stretches(runs@) =~= Seq::<Stretch>::empty());
        assert(row_views(f.rows@)[k as int] == f.rows@[k as int]@);
        assert forall|j: int| 0 <= j < f.rows@[k as int]@.len() implies piece_cut(
            #[trigger] f.rows@[k as int]@[j],
            f.text@,
        ) by {
            assert(app.rows(line as int)[k as int][j] == f.rows@[k as int]@[j]);
        }
    }
    if k > 0 && f.indent > 0 {
        push_run(&mut runs, repeated(' ', f.indent), Look::Plain);
    }
    let ghost head = stretches(runs@);
    proof {
        let h = if k > 0 && f.indent > 0 {
            seq![Stretch { text: repeat(' ', f.indent as int), look: Look::Plain }]
        } else {
            Seq::empty()
        };
        assert(head =~= h);
    }
    push_pieces(&mut runs, f.text.as_str(), &f.marks, &f.rows[k]);
    let ghost all = stretches(runs@);
    proof {
        assert(all.len() == runs@.len());
    }
    if runs.len() == 0 && f.on_cursor {
        push_run(&mut runs, " ".to_owned(), Look::Cursor);
        proof {
            assert(stretches(runs@) =~= seq![Stretch { text: " "@, look: Look::Cursor }]);
        }
    }
    proof {
        assert(stretches(runs@) == body_runs(*app, line as int, k as int));
        assert(stretches(runs@).len() == runs@.len());
    }
    let cut = if runs_past(&runs, body_w) && body_w > 0 && !app.peek {
        Some(f.hidden)
    } else {
        None
    };
    let r = ViewRow {
        number,
        on_cursor: f.on_cursor,
        dot: if k == 0 {
            f.dot
        } else {
            " "
        },
        bar: f.bar,
        selected: f.selected,
        runs,
        cut,
    };
    proof {
        let m = row_view(*app, line as int, k as int, number_w as int, body_w as int);
        let z = row_view(*app, line as int, 0, 0, body_w as int);
        assert(m.bar == z.bar && m.selected == z.selected);
        assert(r.model() == m);
    }
    r
}

fn view_rows(
    app: &App,
    top: Anchor,
    viewport: usize,
    number_w: usize,
    body_w: usize,
) -> (r: Vec<ViewRow>)
    requires
        app.wf(),
        top.line >= 1,
    ensures
        view_models(r@) == views_from(
            *app,
            top.line as int,
            top.row as int,
            viewport as int,
            number_w as int,
            body_w as int,
        ),
        r@.len() <= viewport,
{
    let n: usize = app.lines.len();
    let mut out: Vec<ViewRow> = Vec::new();
    let mut done: usize = top.line - 1;
    let mut from: usize = top.row;
    let ghost all = views_from(
        *app,
        done + 1,
        from as int,
        viewport as int,
        number_w as int,
        body_w as int,
    );
    proof {
        assert(view_models(out@) + all =~= all);
    }
    while out.len() < viewport && done < n
        invariant
            app.wf(),
            n == app.lines@.len(),
            out@.len() <= viewport,
            view_models(out@) + views_from(
                *app,
                done + 1,
                from as int,
                viewport - out@.len(),
                number_w as int,
                body_w as int,
            ) == all,
        decreases n - done,
    {
        let line: usize = done + 1;
        let f = facts_of(app, line, body_w);
        let count: usize = f.rows.len();
        let ghost start = view_models(out@);
        let ghost room = viewport - out@.len();
        let ghost shown: int = if count <= from {
            0
        } else {
            smaller(count - from, room)
        };
        let ghost part = line_views(
            *app,
            line as int,
            from as int,
            from + shown,
            number_w as int,
            body_w as int,
        );
        let ghost rest = views_from(
            *app,
            line + 1,
            0,
            room - shown,
            number_w as int,
            body_w as int,
        );
        proof {
            assert(row_views(f.rows@).len() == count);
            assert(start + part.take(0) =~= start);
        }
        let mut k: usize = from;
        while k < count && out.len() < viewport
            invariant
                app.wf(),
                f.of(*app, line as int, body_w as int),
                count == f.rows@.len(),
                from <= k,
                k <= count || k == from,
                room == viewport - start.len(),
                shown == if count <= from {
                    0
                } else {
                    smaller(count - from, room)
                },
                k - from <= shown,
                part == line_views(
                    *app,
                    line as int,
                    from as int,
                    from + shown,
                    number_w as int,
                    body_w as int,
                ),
                out@.len() == start.len() + (k - from),
                out@.len() <= viewport,
                view_models(out@) == start + part.take(k - from),
            decreases count - k,
        {
            let ghost before = out@;
            let row = row_of_line(app, line, k, &f, number_w, body_w);
            proof {
                assert(view_models(before.push(row)) =~= view_models(before).push(row.model()));
                assert(part.take(k + 1 - from) =~= part.take(k - from).push(part[k - from]));
                assert(start + part.take(k + 1 - from) =~= (start + part.take(k - from)).push(
                    part[k - from],
                ));
            }
            out.push(row);
            k += 1;
        }
        proof {
            assert(k - from == shown);
            assert(part.take(shown) =~= part);
            assert(start + (part + rest) =~= (start + part) + rest);
        }
        done = line;
        from = 0;
    }
    proof {
        let left = views_from(
            *app,
            done + 1,
            from as int,
            viewport - out@.len(),
            number_w as int,
            body_w as int,
        );
        assert(view_models(out@) + left =~= view_models(out@));
    }
    out
}

proof fn lemma_walk_stays_counted(app: App, at: Anchor, n: int)
    requires
        at.line >= 1,
    ensures
        app.walked(at, n, false).line >= 1,
    decreases n,
{
    if n > 0 {
        if let Some(next) = app.stepped(at, false) {
            lemma_walk_stays_counted(app, next, n - 1);
        }
    }
}

fn lineno_width(app: &App) -> (r: usize)
    ensures
        r == number_width(*app),
{
    let digits: usize = Laid::new(decimal_string(app.lines.len()).as_str()).chars.len();
    if digits >= 4 {
        digits
    } else {
        4
    }
}

/// What the gutter and the body ask for of `width` cells.
pub fn column_parts(app: &App, width: u16) -> (r: Vec<Part>)
    ensures
        r@ == columns_asked(*app, width),
{
    let number_w: usize = lineno_width(app);
    let wide: u16 = if number_w <= 65533 {
        (number_w + 2) as u16
    } else {
        6
    };
    let room: u16 = width.saturating_sub(1);
    let mut parts: Vec<Part> = Vec::new();
    parts.push(
        Part::Length(
            if wide <= room {
                wide
            } else {
                room
            },
        ),
    );
    parts.push(Part::Min(0));
    proof {
        assert(parts@ =~= columns_asked(*app, width));
    }
    parts
}

/// What the source pane shows in `gutter` and `body`, and what it publishes: the state, the scroll
/// position and the rows.
pub open spec fn shown_in(
    before: App,
    scrolled: Anchor,
    area: Area,
    after: App,
    scroll: Anchor,
    v: SourceView,
) -> bool {
    let viewport = less(area.height as int, 2);
    &&& v.title@ == title_of(before, area.width as int)
    &&& after == (App {
        viewport: viewport as usize,
        body_width: v.body.width as usize,
        ..before
    })
    &&& scroll == kept_visible(after, scrolled, viewport)
    &&& view_models(v.rows@) == views_from(
        after,
        scroll.line as int,
        scroll.row as int,
        viewport,
        number_width(before),
        v.body.width as int,
    )
}

/// Lays out the source pane in the columns it was given, and publishes the geometry that the row
/// motions need.
pub fn source_view_in(
    app: &mut App,
    scroll: &mut Anchor,
    area: Area,
    gutter: Area,
    body: Area,
) -> (r: SourceView)
    requires
        old(app).wf(),
        old(app).cursor.line >= 1,
        old(scroll).line >= 1,
    ensures
        final(app).wf(),
        r.gutter == gutter,
        r.body == body,
        shown_in(*old(app), *old(scroll), area, *final(app), *final(scroll), r),
        final(scroll).line >= 1,
{
    let viewport: usize = area.height.saturating_sub(2) as usize;
    app.viewport = viewport;
    let title = source_title(app, area.width);
    let _n: usize = app.lines.len();
    let number_w: usize = lineno_width(app);
    let body_w: usize = body.width as usize;
    app.body_width = body_w;
    keep_cursor_visible(app, scroll, viewport);
    proof {
        let cur = cursor_anchor(*app);
        let end = app.total();
        lemma_walk_stays_counted(*app, cur, viewport - 1);
        if app.lines@.len() <= usize::MAX {
            lemma_walk_stays_counted(
                *app,
                Anchor { line: end as usize, row: (app.height(end) - 1) as usize },
                viewport - 1,
            );
        }
    }
    let rows = view_rows(app, *scroll, viewport, number_w, body_w);
    SourceView { title, gutter, body, rows }
}

/// The columns of the source pane: the gutter as wide as it asks for, the body in what is left.
pub open spec fn columns_in(app: App, inn: Area) -> (Area, Area) {
    let g = gutter_width(app, inn.width);
    (
        Area { width: g, ..inn },
        Area { x: (inn.x + g) as u16, width: (inn.width - g) as u16, ..inn },
    )
}

/// Lays out the source pane and publishes the geometry that the row motions need.
pub fn source_view(app: &mut App, scroll: &mut Anchor, area: Area) -> (r: SourceView)
    requires
        old(app).wf(),
        old(app).cursor.line >= 1,
        old(scroll).line >= 1,
    ensures
        final(app).wf(),
        lies_in(inside(area), false, r.gutter),
        lies_in(inside(area), false, r.body),
        inside(area).x + inside(area).width <= u16::MAX ==> (r.gutter, r.body) == columns_in(
            *old(app),
            inside(area),
        ),
        shown_in(*old(app), *old(scroll), area, *final(app), *final(scroll), r),
        final(scroll).line >= 1,
{
    let inn = inner(area);
    let parts = column_parts(app, inn.width);
    let cols = split_area(inn, &parts, false);
    proof {
        let p = columns_asked(*app, inn.width);
        reveal_with_fuel(wanted, 3);
        assert(lies_in(inn, false, cols@[0]) && lies_in(inn, false, cols@[1]));
        if inn.x + inn.width <= u16::MAX {
            assert(p[1] is Min);
            assert(roomy(inn, p, false));
            assert(p[0] == Part::Length(gutter_width(*app, inn.width)));
            assert(from_of(cols@[1], false) == from_of(cols@[0], false) + size_of_lane(
                cols@[0],
                false,
            ));
        }
    }
    source_view_in(app, scroll, area, cols[0], cols[1])
}

// ---------------------------------------------------------------------------
// The comment box
// ---------------------------------------------------------------------------

/// What the comment box says it comments on.
pub open spec fn range_note(s: Option<Span>) -> Seq<char> {
    match s {
        Some(s) => if s.start.line == s.end.line && s.start.col == 1 {
            "L"@ + decimal(s.start.line as nat)
        } else if s.start.line == s.end.line {
            "L"@ + decimal(s.start.line as nat) + ":"@ + decimal(s.start.col as nat) + "-"@ + decimal(
                s.end.col as nat,
            )
        } else {
            "L"@ + decimal(s.start.line as nat) + "-"@ + decimal(s.end.line as nat)
        },
        None => Seq::empty(),
    }
}

fn range_text(s: Option<Span>) -> (r: String)
    ensures
        r@ == range_note(s),
{
    match s {
        Some(s) => {
            let mut out = "L".to_owned();
            out.append(decimal_string(s.start.line).as_str());
            if s.start.line != s.end.line {
                out.append("-");
                out.append(decimal_string(s.end.line).as_str());
            } else if s.start.col != 1 {
                out.append(":");
                out.append(decimal_string(s.start.col).as_str());
                out.append("-");
                out.append(decimal_string(s.end.col).as_str());
            }
            out
        },
        None => String::new(),
    }
}

/// The comment box: its title, and its rows.
#[derive(Debug)]
pub struct InputView {
    pub title: String,
    pub rows: Vec<Vec<Run>>,
}

pub open spec fn rows_of_runs(v: Seq<Vec<Run>>) -> Seq<Seq<Stretch>> {
    v.map_values(|r: Vec<Run>| stretches(r@))
}

/// A row of the comment box behind its prompt: the text, with the caret as a cell of its own where
/// it is on the row, also past the end of the text.
pub open spec fn input_row(text: Seq<char>, first: bool, caret: Option<int>) -> Seq<Stretch> {
    let prompt = Stretch {
        text: if first {
            "> "@
        } else {
            "  "@
        },
        look: Look::Accent,
    };
    match caret {
        None => seq![prompt, Stretch { text, look: Look::Plain }],
        Some(c) => {
            let runs = seq![prompt] + segments_from(
                text,
                seq![(c as usize, char_end(text, c) as usize, Look::Caret)],
                Look::Plain,
                0,
            );
            if c >= blen(text) {
                runs.push(Stretch { text: " "@, look: Look::Caret })
            } else {
                runs
            }
        },
    }
}

/// The comment box of an editor.
pub open spec fn input_rows(e: crate::editor::Editor) -> Seq<Seq<Stretch>> {
    let rows = split_on(e.text@, '\n');
    let before = e.model().before;
    Seq::new(
        rows.len(),
        |i: int|
            input_row(
                rows[i],
                i == 0,
                if i == crate::editor::feeds(before) {
                    Some(blen(before.skip(line_start_of(before))))
                } else {
                    None
                },
            ),
    )
}

fn input_runs(text: &str, first: bool, caret: Option<usize>) -> (r: Vec<Run>)
    requires
        caret matches Some(c) ==> is_cut(text@, c as int),
    ensures
        stretches(r@) == input_row(
            text@,
            first,
            match caret {
                Some(c) => Some(c as int),
                None => None,
            },
        ),
{
    let mut out: Vec<Run> = Vec::new();
    proof {
        assert(stretches(out@) =~= Seq::<Stretch>::empty());
    }
    push_run(
        &mut out,
        if first {
            "> ".to_owned()
        } else {
            "  ".to_owned()
        },
        Look::Accent,
    );
    match caret {
        None => {
            push_run(&mut out, text.to_owned(), Look::Plain);
            proof {
                assert(stretches(out@) =~= input_row(text@, first, None));
            }
        },
        Some(c) => {
            let ghost prompt = stretches(out@);
            let mut marks: Vec<Mark> = Vec::new();
            marks.push((c, next_char(text, c), Look::Caret));
            proof {
                assert(marks@ =~= seq![
                    (c as usize, char_end(text@, c as int) as usize, Look::Caret),
                ]);
            }
            let mut runs = segments(text, &marks, Look::Plain);
            let ghost held = out@;
            let ghost extra = runs@;
            out.append(&mut runs);
            proof {
                assert(stretches(out@) =~= prompt + stretches(extra));
            }
            if c >= byte_len(text) {
                push_run(&mut out, " ".to_owned(), Look::Caret);
            }
            proof {
                assert(prompt =~= seq![
                    Stretch {
                        text: if first {
                            "> "@
                        } else {
                            "  "@
                        },
                        look: Look::Accent,
                    },
                ]);
                assert(stretches(out@) =~= input_row(text@, first, Some(c as int)));
            }
        },
    }
    out
}

proof fn lemma_caret_row(e: crate::editor::Editor)
    requires
        e.wf(),
    ensures
        0 <= crate::editor::feeds(e.model().before) < split_on(e.text@, '\n').len(),
        is_cut(
            split_on(e.text@, '\n')[crate::editor::feeds(e.model().before)],
            blen(e.model().before.skip(line_start_of(e.model().before))),
        ),
{
    e.lemma_text();
    let b = e.model().before;
    let a = e.model().after;
    crate::editor::law_the_cursor_is_in_its_row(b, a);
    let head = b.skip(line_start_of(b));
    let row = head + a.take(crate::text::until(a, '\n'));
    assert(row.take(head.len() as int) =~= head);
    lemma_offset_is_boundary(row, head.len() as int);
    lemma_offset_mono(row, head.len() as int, row.len() as int);
}

/// The title of the comment box.
pub open spec fn input_title(app: App) -> Seq<char> {
    " comment on "@ + app.selected_kind() + " "@ + range_note(app.selected())
        + " — Enter saves · C-j newline · Esc cancels "@
}

/// The comment box.
pub fn input_view(app: &App) -> (r: InputView)
    requires
        app.wf(),
    ensures
        r.title@ == input_title(*app),
        rows_of_runs(r.rows@) == input_rows(app.editor),
{
    let mut title = " comment on ".to_owned();
    title.append(app.selection_kind().as_str());
    title.append(" ");
    title.append(range_text(app.selection()).as_str());
    title.append(" — Enter saves · C-j newline · Esc cancels ");
    let (crow, ccol) = app.editor.row_col();
    let texts = app.editor.rows();
    let ghost views = split_on(app.editor.text@, '\n');
    let ghost all = input_rows(app.editor);
    proof {
        lemma_caret_row(app.editor);
    }
    let mut rows: Vec<Vec<Run>> = Vec::new();
    let mut i: usize = 0;
    proof {
        assert(rows_of_runs(rows@) =~= all.take(0));
    }
    while i < texts.len()
        invariant
            i <= texts@.len(),
            views == split_on(app.editor.text@, '\n'),
            slices(texts@) == views,
            all == input_rows(app.editor),
            crow == crate::editor::feeds(app.editor.model().before),
            ccol == blen(
                app.editor.model().before.skip(line_start_of(app.editor.model().before)),
            ),
            is_cut(views[crow as int], ccol as int),
            rows_of_runs(rows@) == all.take(i as int),
        decreases texts@.len() - i,
    {
        let ghost before = rows@;
        let caret = if i == crow {
            Some(ccol)
        } else {
            None
        };
        proof {
            assert(views[i as int] == texts@[i as int]@);
        }
        let row = input_runs(texts[i], i == 0, caret);
        proof {
            assert(rows_of_runs(before.push(row)) =~= rows_of_runs(before).push(stretches(row@)));
            assert(all.take(i + 1) =~= all.take(i as int).push(all[i as int]));
        }
        rows.push(row);
        i += 1;
    }
    proof {
        assert(all.take(i as int) =~= all);
    }
    InputView { title, rows }
}

// ---------------------------------------------------------------------------
// The peek overlay
// ---------------------------------------------------------------------------

/// The overlay: where it lies, its title, and the rows it shows.
#[derive(Debug)]
pub struct PeekView {
    pub area: Area,
    pub title: String,
    pub rows: Vec<String>,
}

/// The rows that the peeked text wraps to at `width` cells.
pub open spec fn peek_rows_of(app: App, width: int) -> Seq<Seq<char>> {
    let text = match app.selected() {
        Some(s) => app.sliced(s),
        None => Seq::empty(),
    };
    let lines = split_on(replace_char(text, '\t', ' '), '\n');
    if width == 0 {
        Seq::empty()
    } else {
        wrapped(lines, lines.len() as int, width)
    }
}

/// The first of `n` rows that the overlay shows.
pub open spec fn peek_top(app: App, n: int) -> int {
    smaller(app.peek_scroll as int, less(n, 1))
}

/// The title of the overlay: what is peeked at and, where not all of it fits, which rows are shown.
pub open spec fn peek_title(app: App, n: int, height: int) -> Seq<char> {
    let top = peek_top(app, n);
    let more = if n > height {
        " "@ + decimal((top + 1) as nat) + "-"@ + decimal(smaller(top + height, n) as nat) + "/"@
            + decimal(n as nat)
    } else {
        Seq::empty()
    };
    " peek: "@ + app.selected_kind() + more + " — j/k scroll · z closes "@
}

/// The selection, wrapped, over the source view. Publishes how many rows it wraps to.
pub fn peek_view(app: &mut App, area: Area) -> (r: PeekView)
    requires
        old(app).wf(),
        area.x + (area.width - inset_len(area.width, 2)) / 2 <= u16::MAX,
        area.y + (area.height - inset_len(area.height, 1)) / 2 <= u16::MAX,
    ensures
        final(app).wf(),
        r.area.width == inset_len(area.width, 2),
        r.area.height == inset_len(area.height, 1),
        r.area.x == area.x + (area.width - r.area.width) / 2,
        r.area.y == area.y + (area.height - r.area.height) / 2,
        ({
            let rows = peek_rows_of(*old(app), inside(r.area).width as int);
            let n = rows.len() as int;
            let top = peek_top(*old(app), n);
            let height = inside(r.area).height as int;
            &&& *final(app) == (App { peek_rows: n as usize, ..*old(app) })
            &&& texts(r.rows@) == rows.subrange(top, smaller(top + height, n))
            &&& r.title@ == peek_title(*old(app), n, height)
        }),
{
    let popup = inset(area, 2, 1);
    let inn = inner(popup);
    let text = replaced(app.peek_text().as_str(), '\t', ' ');
    let rows = wrap(text.as_str(), inn.width as usize);
    let ghost all = peek_rows_of(*app, inn.width as int);
    proof {
        assert(texts(rows@) =~= all);
        assert(texts(rows@).len() == rows@.len());
    }
    let n: usize = rows.len();
    app.peek_rows = n;
    let last: usize = n.saturating_sub(1);
    let top: usize = if app.peek_scroll <= last {
        app.peek_scroll
    } else {
        last
    };
    let height: usize = inn.height as usize;
    let end: usize = if height <= n - top {
        top + height
    } else {
        n
    };
    let mut shown: Vec<String> = Vec::new();
    let mut i: usize = top;
    proof {
        assert(texts(shown@) =~= all.subrange(top as int, top as int));
    }
    while i < end
        invariant
            top <= i <= end <= n,
            n == rows@.len(),
            texts(rows@) == all,
            texts(shown@) == all.subrange(top as int, i as int),
        decreases end - i,
    {
        let ghost before = shown@;
        let s = rows[i].clone();
        proof {
            assert(all[i as int] == rows@[i as int]@);
            assert(texts(before.push(s)) =~= texts(before).push(s@));
            assert(all.subrange(top as int, i + 1) =~= all.subrange(top as int, i as int).push(
                all[i as int],
            ));
        }
        shown.push(s);
        i += 1;
    }
    let mut title = " peek: ".to_owned();
    title.append(app.selection_kind().as_str());
    if n > height {
        let mut more = " ".to_owned();
        more.append(decimal_string(top + 1).as_str());
        more.append("-");
        more.append(decimal_string(end).as_str());
        more.append("/");
        more.append(decimal_string(n).as_str());
        title.append(more.as_str());
    }
    let ghost so_far = title@;
    title.append(" — j/k scroll · z closes ");
    proof {
        let empty = Seq::<char>::empty();
        if n <= height {
            assert(so_far =~= " peek: "@ + old(app).selected_kind() + empty);
        }
    }
    PeekView { area: popup, title, rows: shown }
}

// ---------------------------------------------------------------------------
// The annotations pane
// ---------------------------------------------------------------------------

/// Line breaks made visible.
pub open spec fn break_marks(s: Seq<char>) -> Seq<char>
    decreases s.len(),
{
    if s.len() == 0 {
        s
    } else if s.last() == '\n' {
        break_marks(s.drop_last()) + " ⏎ "@
    } else {
        break_marks(s.drop_last()).push(s.last())
    }
}

fn marked_breaks(s: &str) -> (r: String)
    ensures
        r@ == break_marks(s@),
{
    let l = Laid::new(s);
    let n: usize = l.chars.len();
    let mut out = String::new();
    let mut i: usize = 0;
    proof {
        assert(s@.take(0) =~= Seq::<char>::empty());
    }
    while i < n
        invariant
            l.wf(),
            l.text@ == s@,
            n == s@.len(),
            i <= n,
            out@ =~= break_marks(s@.take(i as int)),
        decreases n - i,
    {
        proof {
            assert(s@.take(i + 1).drop_last() =~= s@.take(i as int));
        }
        if l.chars[i] == '\n' {
            out.append(" ⏎ ");
        } else {
            out.push(l.chars[i]);
        }
        i += 1;
    }
    proof {
        assert(s@.take(n as int) =~= s@);
    }
    out
}

/// Where an annotation stands, in the pane.
pub open spec fn pane_location(a: Annotation) -> Seq<char> {
    if a.whole_lines && a.start_line == a.end_line {
        "L"@ + decimal(a.start_line as nat)
    } else if a.whole_lines {
        "L"@ + decimal(a.start_line as nat) + "-"@ + decimal(a.end_line as nat)
    } else if a.start_line == a.end_line {
        "L"@ + decimal(a.start_line as nat) + ":"@ + decimal(a.start_col as nat) + "-"@ + decimal(
            a.end_col as nat,
        )
    } else {
        "L"@ + decimal(a.start_line as nat) + ":"@ + decimal(a.start_col as nat) + "-"@ + decimal(
            a.end_line as nat,
        ) + ":"@ + decimal(a.end_col as nat)
    }
}

fn pane_loc(a: &Annotation) -> (r: String)
    ensures
        r@ == pane_location(*a),
{
    let mut out = "L".to_owned();
    out.append(decimal_string(a.start_line).as_str());
    if a.whole_lines {
        if a.start_line != a.end_line {
            out.append("-");
            out.append(decimal_string(a.end_line).as_str());
        }
    } else {
        out.append(":");
        out.append(decimal_string(a.start_col).as_str());
        out.append("-");
        if a.start_line != a.end_line {
            out.append(decimal_string(a.end_line).as_str());
            out.append(":");
        }
        out.append(decimal_string(a.end_col).as_str());
    }
    out
}

/// The row of annotation `i`: a pointer where the cursor is on it, its number and place, its kind,
/// and the comment on one line.
pub open spec fn annotation_row(a: Annotation, i: int, cursor_line: int) -> Seq<Stretch> {
    let here = a.start_line <= cursor_line <= a.end_line;
    seq![
        Stretch {
            text: if here {
                " ▸ "@
            } else {
                "   "@
            },
            look: Look::Accent,
        },
        Stretch {
            text: decimal((i + 1) as nat) + " "@ + pad_right(pane_location(a), 14),
            look: Look::Note,
        },
        Stretch { text: pad_right(a.block_kind@, 14), look: Look::Muted },
        Stretch { text: break_marks(a.text@), look: Look::Plain },
    ]
}

/// The rows of the annotations pane.
pub open spec fn annotation_rows(app: App) -> Seq<Seq<Stretch>> {
    if app.annotations@.len() == 0 {
        seq![
            seq![
                Stretch {
                    text: "  no annotations yet — v/V select, +/- widen or narrow, c comment"@,
                    look: Look::Muted,
                },
            ],
        ]
    } else {
        Seq::new(
            app.annotations@.len(),
            |i: int| annotation_row(app.annotations@[i], i, app.cursor.line as int),
        )
    }
}

/// The rows of the annotations pane.
pub fn annotations_view(app: &App) -> (r: Vec<Vec<Run>>)
    ensures
        rows_of_runs(r@) == annotation_rows(*app),
{
    let ghost all = annotation_rows(*app);
    let mut out: Vec<Vec<Run>> = Vec::new();
    let n: usize = app.annotations.len();
    if n == 0 {
        let mut row: Vec<Run> = Vec::new();
        proof {
            assert(stretches(row@) =~= Seq::<Stretch>::empty());
        }
        push_run(
            &mut row,
            "  no annotations yet — v/V select, +/- widen or narrow, c comment".to_owned(),
            Look::Muted,
        );
        out.push(row);
        proof {
            assert(stretches(row@) =~= all[0]);
            assert(rows_of_runs(out@) =~= all);
        }
        return out;
    }
    let mut i: usize = 0;
    proof {
        assert(rows_of_runs(out@) =~= all.take(0));
    }
    while i < n
        invariant
            n == app.annotations@.len(),
            n > 0,
            i <= n,
            all == annotation_rows(*app),
            rows_of_runs(out@) == all.take(i as int),
        decreases n - i,
    {
        let a = &app.annotations[i];
        let ghost before = out@;
        let here = app.cursor.line >= a.start_line && app.cursor.line <= a.end_line;
        let mut row: Vec<Run> = Vec::new();
        proof {
            assert(stretches(row@) =~= Seq::<Stretch>::empty());
        }
        push_run(
            &mut row,
            if here {
                " ▸ ".to_owned()
            } else {
                "   ".to_owned()
            },
            Look::Accent,
        );
        let mut place = decimal_string(i + 1);
        place.append(" ");
        place.append(padded_right(pane_loc(a).as_str(), 14).as_str());
        push_run(&mut row, place, Look::Note);
        push_run(&mut row, padded_right(a.block_kind.as_str(), 14), Look::Muted);
        push_run(&mut row, marked_breaks(a.text.as_str()), Look::Plain);
        proof {
            assert(stretches(row@) =~= annotation_row(
                app.annotations@[i as int],
                i as int,
                app.cursor.line as int,
            ));
            assert(rows_of_runs(before.push(row)) =~= rows_of_runs(before).push(stretches(row@)));
            assert(all.take(i + 1) =~= all.take(i as int).push(all[i as int]));
        }
        out.push(row);
        i += 1;
    }
    proof {
        assert(all.take(i as int) =~= all);
    }
    out
}

// ---------------------------------------------------------------------------
// The footer
// ---------------------------------------------------------------------------

/// Hint lines from fullest to barest; whichever fits the room available wins, and `q quit` survives
/// to the very last.
pub open spec fn hints(app: App) -> Seq<Seq<char>> {
    if app.mode is Input {
        seq!["Enter save · Esc cancel"@, "Enter · Esc"@]
    } else if app.peek {
        seq!["j/k scroll · z or Esc closes"@, "z closes"@]
    } else {
        seq![
            "hjkl move · ^d/^u/^f/^b page · J/K unit · w/b inline · v units · V lines · +/- widen/narrow · z peek · c comment · x remove · q quit"@,
            "hjkl · J/K unit · w/b inline · v/V select · +/- widen · z peek · c comment · x remove · q quit"@,
            "hjkl · w/b · v/V · +/- · z peek · c comment · x remove · q quit"@,
            "w/b · z peek · c comment · x remove · q quit"@,
            "c comment · x remove · q quit"@,
            "q quit"@,
        ]
    }
}

fn hint_table(app: &App) -> (r: Vec<&'static str>)
    ensures
        slices(r@) == hints(*app),
{
    let mut out: Vec<&'static str> = Vec::new();
    match app.mode {
        Mode::Input => {
            out.push("Enter save · Esc cancel");
            out.push("Enter · Esc");
        },
        Mode::Normal => if app.peek {
            out.push("j/k scroll · z or Esc closes");
            out.push("z closes");
        } else {
            out.push(
                "hjkl move · ^d/^u/^f/^b page · J/K unit · w/b inline · v units · V lines · +/- widen/narrow · z peek · c comment · x remove · q quit",
            );
            out.push(
                "hjkl · J/K unit · w/b inline · v/V select · +/- widen · z peek · c comment · x remove · q quit",
            );
            out.push("hjkl · w/b · v/V · +/- · z peek · c comment · x remove · q quit");
            out.push("w/b · z peek · c comment · x remove · q quit");
            out.push("c comment · x remove · q quit");
            out.push("q quit");
        },
    }
    proof {
        assert(slices(out@) =~= hints(*app));
    }
    out
}

/// The first hint at or after `i` that is at most `room` characters long; `q` where none is.
pub open spec fn first_fit(table: Seq<Seq<char>>, room: int, i: int) -> Seq<char>
    decreases table.len() - i,
{
    if i < 0 || i >= table.len() {
        "q"@
    } else if table[i].len() <= room {
        table[i]
    } else {
        first_fit(table, room, i + 1)
    }
}

/// Cells the status field takes: it is a luxury, so below the width where it fits beside the barest
/// hint it goes.
pub open spec fn status_width(width: u16) -> u16 {
    if width >= 36 {
        28
    } else {
        0
    }
}

/// The footer: the keys and the status, and where they lie.
#[derive(Debug)]
pub struct FooterView {
    pub keys_area: Area,
    pub keys: String,
    pub status_area: Area,
    pub status: String,
}

/// What the hints and the status ask for of `width` cells.
pub fn footer_parts(width: u16) -> (r: Vec<Part>)
    ensures
        r@ == footer_asked(width),
{
    let mut parts: Vec<Part> = Vec::new();
    parts.push(Part::Min(0));
    parts.push(
        Part::Length(
            if width >= 36 {
                28
            } else {
                0
            },
        ),
    );
    proof {
        assert(parts@ =~= footer_asked(width));
    }
    parts
}

pub open spec fn footer_asked(width: u16) -> Seq<Part> {
    seq![Part::Min(0), Part::Length(status_width(width))]
}

/// The parts of the footer: the status at the right, the hints in what is left.
pub open spec fn footer_in(area: Area) -> (Area, Area) {
    let w = status_width(area.width);
    (
        Area { width: (area.width - w) as u16, ..area },
        Area { x: (area.x + area.width - w) as u16, width: w, ..area },
    )
}

pub fn footer_view(app: &App, area: Area) -> (r: FooterView)
    ensures
        r.keys@ == " "@ + first_fit(
            hints(*app),
            less(area.width as int, status_width(area.width) + 1),
            0,
        ),
        r.status@ == pad_left(app.status@, 27) + " "@,
        lies_in(area, false, r.keys_area),
        lies_in(area, false, r.status_area),
        area.x + area.width <= u16::MAX ==> (r.keys_area, r.status_area) == footer_in(area),
{
    let width: usize = area.width as usize;
    let status_w: u16 = if area.width >= 36 {
        28
    } else {
        0
    };
    let room: usize = width.saturating_sub(status_w as usize + 1);
    let table = hint_table(app);
    let ghost views = hints(*app);
    let mut i: usize = 0;
    while i < table.len() && Laid::new(table[i]).chars.len() > room
        invariant
            i <= table@.len(),
            slices(table@) == views,
            first_fit(views, room as int, i as int) == first_fit(views, room as int, 0),
        decreases table@.len() - i,
    {
        i += 1;
    }
    let keys = if i < table.len() {
        table[i]
    } else {
        "q"
    };
    let mut line = " ".to_owned();
    line.append(keys);
    let mut status = padded_left(app.status.as_str(), 27);
    status.append(" ");
    let parts = footer_parts(area.width);
    let cols = split_area(area, &parts, false);
    proof {
        if i < table@.len() {
            assert(views[i as int] == table@[i as int]@);
        }
        let p = footer_asked(area.width);
        reveal_with_fuel(wanted, 3);
        assert(lies_in(area, false, cols@[0]) && lies_in(area, false, cols@[1]));
        if area.x + area.width <= u16::MAX {
            assert(p[0] is Min);
            assert(roomy(area, p, false));
            assert(p[1] == Part::Length(status_width(area.width)));
            assert(from_of(cols@[1], false) == from_of(cols@[0], false) + size_of_lane(
                cols@[0],
                false,
            ));
        }
    }
    FooterView { keys_area: cols[0], keys: line, status_area: cols[1], status }
}

proof fn lemma_first_fit(table: Seq<Seq<char>>, room: int, i: int)
    requires
        0 <= i <= table.len(),
    ensures
        first_fit(table, room, i) == "q"@ || first_fit(table, room, i).len() <= room,
        (exists|k: int| i <= k < table.len() && (#[trigger] table[k]).len() <= room) ==> first_fit(
            table,
            room,
            i,
        ).len() <= room,
    decreases table.len() - i,
{
    if i < table.len() && table[i].len() > room {
        lemma_first_fit(table, room, i + 1);
    }
}

/// A hint is never cut: whichever is shown fits the room beside the status, down to the width where
/// only the bare `q` is left.
pub proof fn law_a_hint_is_never_cut(app: App, width: u16)
    ensures
        ({
            let room = less(width as int, status_width(width) + 1);
            let shown = first_fit(hints(app), room, 0);
            shown == "q"@ || shown.len() <= room
        }),
        app.mode is Normal && !app.peek && width >= 7 ==> first_fit(
            hints(app),
            less(width as int, status_width(width) + 1),
            0,
        ).len() <= less(width as int, status_width(width) + 1),
{
    let room = less(width as int, status_width(width) + 1);
    lemma_first_fit(hints(app), room, 0);
    if app.mode is Normal && !app.peek && width >= 7 {
        reveal_strlit("q quit");
        assert(hints(app)[5].len() <= room);
    }
}

// ---------------------------------------------------------------------------
// What the source pane shows
// ---------------------------------------------------------------------------

/// Later marks win: the look of a stretch is that of the last mark that covers all of it, and the
/// base look where none does; the look of a byte that of the last mark it is in.
pub proof fn law_the_last_mark_wins(marks: Seq<Mark>, a: int, b: int, base: Look, i: int)
    requires
        0 <= i < marks.len(),
    ensures
        marks[i].0 <= a && b <= marks[i].1 && (forall|k: int|
            i < k < marks.len() ==> !((#[trigger] marks[k]).0 <= a && b <= marks[k].1)) ==> look_over(
            marks,
            a,
            b,
            base,
            marks.len() as int,
        ) == marks[i].2,
        (forall|k: int|
            0 <= k < marks.len() ==> !((#[trigger] marks[k]).0 <= a && b <= marks[k].1)) ==> look_over(
            marks,
            a,
            b,
            base,
            marks.len() as int,
        ) == base,
        marks[i].0 <= a < marks[i].1 && (forall|k: int|
            i < k < marks.len() ==> !((#[trigger] marks[k]).0 <= a < marks[k].1)) ==> look_at(
            marks,
            a,
            marks.len() as int,
        ) == marks[i].2,
        (forall|k: int| 0 <= k < marks.len() ==> !((#[trigger] marks[k]).0 <= a < marks[k].1))
            ==> look_at(marks, a, marks.len() as int) == Look::Plain,
{
    lemma_last_mark(marks, a, b, base, i, marks.len() as int);
}

proof fn lemma_last_mark(marks: Seq<Mark>, a: int, b: int, base: Look, i: int, n: int)
    requires
        0 <= n <= marks.len(),
    ensures
        0 <= i < n && marks[i].0 <= a && b <= marks[i].1 && (forall|k: int|
            i < k < n ==> !((#[trigger] marks[k]).0 <= a && b <= marks[k].1)) ==> look_over(
            marks,
            a,
            b,
            base,
            n,
        ) == marks[i].2,
        (forall|k: int| 0 <= k < n ==> !((#[trigger] marks[k]).0 <= a && b <= marks[k].1))
            ==> look_over(marks, a, b, base, n) == base,
        0 <= i < n && marks[i].0 <= a < marks[i].1 && (forall|k: int|
            i < k < n ==> !((#[trigger] marks[k]).0 <= a < marks[k].1)) ==> look_at(marks, a, n)
            == marks[i].2,
        (forall|k: int| 0 <= k < n ==> !((#[trigger] marks[k]).0 <= a < marks[k].1)) ==> look_at(
            marks,
            a,
            n,
        ) == Look::Plain,
    decreases n,
{
    if n > 0 {
        lemma_last_mark(marks, a, b, base, i, n - 1);
    }
}

proof fn lemma_next_cut_is(text: Seq<char>, marks: Seq<Mark>, k: int)
    requires
        0 <= k <= text.len(),
    ensures
        k <= next_cut(text, marks, k) <= text.len(),
        forall|m: int| k <= m < next_cut(text, marks, k) ==> !#[trigger] cut_here(text, marks, m),
        next_cut(text, marks, k) < text.len() ==> cut_here(text, marks, next_cut(text, marks, k)),
    decreases text.len() - k,
{
    if k < text.len() && !cut_here(text, marks, k) {
        lemma_next_cut_is(text, marks, k + 1);
    }
}

/// A run of one look goes on until a mark starts or ends, and no further: the first run from
/// character `a` on is `[a, b)`, no mark starts or ends inside it, one does at `b` unless that is the
/// end of the text, and the rest is the runs from `b` on.
pub proof fn law_runs_break_where_marks_do(text: Seq<char>, marks: Seq<Mark>, base: Look, a: int)
    requires
        0 <= a < text.len(),
    ensures
        exists|b: int|
            #![trigger text.subrange(a, b)]
            {
                let v = segments_from(text, marks, base, a);
                &&& a < b <= text.len()
                &&& v.len() > 0 && v[0].text == text.subrange(a, b)
                &&& v.drop_first() == segments_from(text, marks, base, b)
                &&& forall|i: int, m: int|
                    0 <= i < marks.len() && a < m < b ==> (#[trigger] marks[i]).0 != #[trigger] offset(
                        text,
                        m,
                    ) && marks[i].1 != offset(text, m)
                &&& b < text.len() ==> exists|i: int|
                    0 <= i < marks.len() && ((#[trigger] marks[i]).0 == offset(text, b) || marks[i].1
                        == offset(text, b))
            },
{
    let b = next_cut(text, marks, a + 1);
    lemma_next_cut_is(text, marks, a + 1);
    let v = segments_from(text, marks, base, a);
    assert(v.drop_first() =~= segments_from(text, marks, base, b));
    assert(v[0].text == text.subrange(a, b));
    assert forall|i: int, m: int| 0 <= i < marks.len() && a < m < b implies (#[trigger] marks[i]).0
        != #[trigger] offset(text, m) && marks[i].1 != offset(text, m) by {
        assert(!cut_here(text, marks, m));
    }
}

/// Clipping marks to a window keeps every byte's look: byte `b` of the window looks as byte `s + b`
/// of the line does.
pub proof fn law_a_window_looks_as_the_line_does(marks: Seq<Mark>, s: int, e: int, b: int, n: int)
    requires
        0 <= s <= s + b < e <= usize::MAX,
        0 <= b,
        0 <= n <= marks.len(),
    ensures
        look_at(clipped(marks, s, e, n), b, clipped(marks, s, e, n).len() as int) == look_at(
            marks,
            s + b,
            n,
        ),
    decreases n,
{
    if n > 0 {
        law_a_window_looks_as_the_line_does(marks, s, e, b, n - 1);
        let before = clipped(marks, s, e, n - 1);
        let v = clipped(marks, s, e, n);
        let m = marks[n - 1];
        if m.1 > s && m.0 < e {
            lemma_look_at_prefix(v, before, b, before.len() as int);
        }
    }
}

proof fn lemma_look_at_prefix(v: Seq<Mark>, w: Seq<Mark>, b: int, n: int)
    requires
        0 <= n <= v.len(),
        n <= w.len(),
        forall|i: int| 0 <= i < n ==> v[i] == w[i],
    ensures
        look_at(v, b, n) == look_at(w, b, n),
    decreases n,
{
    if n > 0 {
        lemma_look_at_prefix(v, w, b, n - 1);
    }
}

/// Highlighting never hides the cursor or the selection. The character under the cursor looks like
/// the cursor; any other byte that is selected looks selected; and only what is left has the look of
/// its syntax.
pub proof fn law_the_cursor_and_the_selection_show(app: App, line: int, text: Seq<char>, byte: int)
    requires
        blen(text) <= usize::MAX,
        app.selected_on(line) matches Some(r) ==> 0 <= r.0 <= usize::MAX && 0 <= r.1 <= usize::MAX,
    ensures
        ({
            let marks = marks_of(app, line, text);
            let look = look_at(marks, byte, marks.len() as int);
            let c = cursor_at(app, text);
            let under = line == app.cursor.line && c <= byte < char_end(text, c);
            let chosen = app.selected_on(line) matches Some(r) && r.0 <= byte < r.1;
            &&& under ==> look == Look::Cursor
            &&& !under && chosen ==> look == Look::Selected
            &&& !under && !chosen ==> look != Look::Cursor && look != Look::Selected
        }),
{
    let marks = marks_of(app, line, text);
    let c = cursor_at(app, text);
    lemma_round(text, smaller(less(app.cursor.col as int, 1), blen(text)));
    lemma_boundary_is_offset(text, c);
    lemma_offset_ends(text);
    let k = char_index(text, c);
    if k < text.len() {
        lemma_offset_mono(text, k, k + 1);
        lemma_offset_mono(text, k + 1, text.len() as int);
    }
    let syntax = if 1 <= line <= app.marks@.len() {
        syntax_marks(app.marks@[line - 1]@)
    } else {
        Seq::empty()
    };
    let n = syntax.len() as int;
    assert forall|i: int| 0 <= i < n implies (#[trigger] marks[i]).2 is Syntax by {
        assert(marks[i] == syntax[i]);
    }
    lemma_syntax_look(marks, byte, n);
    let under = line == app.cursor.line && char_end(text, c) > c;
    let m = marks.len() as int;
    if app.selected_on(line) is Some {
        let r = app.selected_on(line)->0;
        assert(marks[n] == (r.0 as usize, r.1 as usize, Look::Selected));
        if under {
            assert(m == n + 2);
            assert(marks[n + 1] == (c as usize, char_end(text, c) as usize, Look::Cursor));
            assert(look_at(marks, byte, m) == if c <= byte < char_end(text, c) {
                Look::Cursor
            } else {
                look_at(marks, byte, n + 1)
            });
        } else {
            assert(m == n + 1);
        }
        assert(look_at(marks, byte, n + 1) == if r.0 <= byte < r.1 {
            Look::Selected
        } else {
            look_at(marks, byte, n)
        });
    } else if under {
        assert(m == n + 1);
        assert(marks[n] == (c as usize, char_end(text, c) as usize, Look::Cursor));
    } else {
        assert(m == n);
    }
}

proof fn lemma_syntax_look(marks: Seq<Mark>, byte: int, n: int)
    requires
        0 <= n <= marks.len(),
        forall|i: int| 0 <= i < n ==> (#[trigger] marks[i]).2 is Syntax,
    ensures
        look_at(marks, byte, n) != Look::Cursor,
        look_at(marks, byte, n) != Look::Selected,
    decreases n,
{
    if n > 0 {
        lemma_syntax_look(marks, byte, n - 1);
    }
}

/// The pane shows the rows of the document one after the other, none left out: row `k` of the pane
/// is the row of the document that is `k` rows below the top one. It is full unless the document
/// ends.
pub proof fn law_the_pane_shows_row_after_row(
    app: App,
    line: int,
    from: int,
    room: int,
    number_w: int,
    body_w: int,
    k: int,
)
    requires
        1 <= line <= app.lines@.len() <= usize::MAX,
        0 <= from < app.rows(line).len(),
        forall|l: int|
            1 <= l <= app.lines@.len() ==> 1 <= (#[trigger] app.rows(l)).len() <= usize::MAX,
        0 <= k < views_from(app, line, from, room, number_w, body_w).len(),
    ensures
        k < room,
        ({
            let at = app.walked(
                Anchor { line: line as usize, row: from as usize },
                k,
                true,
            );
            views_from(app, line, from, room, number_w, body_w)[k] == row_view(
                app,
                at.line as int,
                at.row as int,
                number_w,
                body_w,
            )
        }),
    decreases app.lines@.len() + 1 - line,
{
    let n = app.rows(line).len() as int;
    let shown = smaller(n - from, room);
    let here = line_views(app, line, from, from + shown, number_w, body_w);
    let at = Anchor { line: line as usize, row: from as usize };
    assert(app.rows(line).len() >= 1);
    lemma_walk_in_line(app, at, smaller(k, n - from - 1));
    if k >= shown {
        let next = views_from(app, line + 1, 0, room - shown, number_w, body_w);
        assert(next.len() > 0);
        assert(room > shown && line + 1 <= app.lines@.len());
        assert(1 <= app.rows(line + 1).len());
        law_the_pane_shows_row_after_row(app, line + 1, 0, room - shown, number_w, body_w, k - shown);
        let last = Anchor { line: line as usize, row: (n - 1) as usize };
        let below = Anchor { line: (line + 1) as usize, row: 0 };
        assert(app.height(line) == n);
        assert(app.stepped(last, true) == Some(below));
        lemma_walk_splits(app, at, n - from - 1, k - (n - from - 1));
        assert(app.walked(last, k - (n - from - 1), true) == app.walked(below, k - shown, true));
    } else {
        assert(here[k] == row_view(app, line, from + k, number_w, body_w));
    }
}

/// Walking within a line counts its rows.
proof fn lemma_walk_in_line(app: App, at: Anchor, k: int)
    requires
        0 <= k,
        at.row + k < app.height(at.line as int) <= usize::MAX,
    ensures
        app.walked(at, k, true) == (Anchor { line: at.line, row: (at.row + k) as usize }),
    decreases k,
{
    if k > 0 {
        let next = Anchor { line: at.line, row: (at.row + 1) as usize };
        assert(app.stepped(at, true) == Some(next));
        lemma_walk_in_line(app, next, k - 1);
    }
}

/// Walking is walking a part of the way and then the rest.
proof fn lemma_walk_splits(app: App, at: Anchor, a: int, b: int)
    requires
        0 <= a,
        0 <= b,
    ensures
        app.walked(at, a + b, true) == app.walked(app.walked(at, a, true), b, true),
    decreases a,
{
    if a > 0 {
        match app.stepped(at, true) {
            Some(next) => {
                lemma_walk_splits(app, next, a - 1, b);
            },
            None => {
                lemma_walk_stuck(app, at, b);
                lemma_walk_stuck(app, at, a + b);
                lemma_walk_stuck(app, at, a);
            },
        }
    }
}

proof fn lemma_walk_stuck(app: App, at: Anchor, n: int)
    requires
        app.stepped(at, true) is None,
    ensures
        app.walked(at, n, true) == at,
{
}

/// A row of the pane says which line it is of on the first row of a line and has blanks there on the
/// others. It is marked as the cursor's and as selected on every row of such a line, has a bar where
/// it is selected or in the unit under the cursor, and carries a dot on a line that an annotation
/// touches, a question mark on one with an unanswered question and no annotation.
pub proof fn law_a_row_says_what_its_line_is(
    app: App,
    line: int,
    k: int,
    number_w: int,
    body_w: int,
)
    requires
        line >= 0,
    ensures
        ({
            let v = row_view(app, line, k, number_w, body_w);
            let noted = count_on(app.annotations@, line, app.annotations@.len() as int) > 0;
            let asked = exists|i: int|
                0 <= i < app.questions@.len() && (#[trigger] app.questions@[i]).line == line
                    && !crate::app::answered(app.annotations@, app.questions@[i]);
            &&& k == 0 ==> v.number == pad_left(decimal(line as nat), number_w)
            &&& k > 0 ==> v.number == repeat(' ', number_w)
            &&& v.on_cursor <==> line == app.cursor.line
            &&& v.selected <==> (app.selected() matches Some(s) && s.start.line <= line <= s.end.line)
            &&& k == 0 && noted ==> v.dot@ == "●"@
            &&& k == 0 && !noted && asked ==> v.dot@ == "?"@
            &&& k == 0 && !noted && !asked ==> v.dot@ == " "@
            &&& k > 0 ==> v.dot@ == " "@
            &&& (app.selected() matches Some(s) && s.start.line <= line <= s.end.line) || (
            app.unit_here() matches Some(i) && app.blocks@[i].span.start.line <= line
                <= app.blocks@[i].span.end.line) ==> v.bar@ == "▍"@
            &&& !(app.selected() matches Some(s) && s.start.line <= line <= s.end.line) && !(
            app.unit_here() matches Some(i) && app.blocks@[i].span.start.line <= line
                <= app.blocks@[i].span.end.line) ==> v.bar@ == " "@
            &&& v.runs == body_runs(app, line, k)
            &&& app.peek ==> v.cut is None
        }),
{
}

/// The annotations pane has a row for each annotation, in order: its number, where it stands, what
/// kind of place that is and the whole comment on one line; a pointer where the cursor is on it.
pub proof fn law_every_annotation_has_its_row(app: App, i: int)
    requires
        0 <= i < app.annotations@.len(),
    ensures
        annotation_rows(app).len() == app.annotations@.len(),
        ({
            let a = app.annotations@[i];
            let row = annotation_rows(app)[i];
            &&& row.len() == 4
            &&& row[0].text == if a.start_line <= app.cursor.line <= a.end_line {
                " ▸ "@
            } else {
                "   "@
            }
            &&& row[1].text == decimal((i + 1) as nat) + " "@ + pad_right(pane_location(a), 14)
            &&& row[2].text == pad_right(a.block_kind@, 14)
            &&& row[3].text == break_marks(a.text@)
        }),
{
}

/// A comment is shown on one line with its line breaks made visible, and is otherwise unchanged.
pub proof fn law_line_breaks_are_made_visible(a: Seq<char>, b: Seq<char>)
    requires
        forall|i: int| 0 <= i < b.len() ==> #[trigger] b[i] != '\n',
    ensures
        break_marks(b) == b,
        break_marks(a + seq!['\n'] + b) == break_marks(a) + " ⏎ "@ + b,
    decreases b.len(),
{
    if b.len() == 0 {
        assert(a + seq!['\n'] + b =~= a + seq!['\n']);
        assert((a + seq!['\n']).drop_last() =~= a);
        assert(break_marks(a) + " ⏎ "@ + b =~= break_marks(a) + " ⏎ "@);
    } else {
        let c = b.drop_last();
        law_line_breaks_are_made_visible(a, c);
        assert((a + seq!['\n'] + b).drop_last() =~= a + seq!['\n'] + c);
        assert(b.last() == b[b.len() - 1]);
        assert(c.push(b.last()) =~= b);
        assert((break_marks(a) + " ⏎ "@ + c).push(b.last()) =~= break_marks(a) + " ⏎ "@ + b);
    }
}

/// The hint that is shown is the fullest that fits: every one before it is too long for the room. The
/// bare `q` is left only where none fits.
pub proof fn law_the_fullest_hint_that_fits_is_shown(table: Seq<Seq<char>>, room: int)
    ensures
        (exists|i: int| #[trigger]
            fits_first(table, room, i) && first_fit(table, room, 0) == table[i]) || (first_fit(
            table,
            room,
            0,
        ) == "q"@ && forall|i: int| 0 <= i < table.len() ==> (#[trigger] table[i]).len() > room),
{
    lemma_first_fit_is(table, room, 0);
}

/// Hint `i` fits the room, and no hint before it does.
pub open spec fn fits_first(table: Seq<Seq<char>>, room: int, i: int) -> bool {
    &&& 0 <= i < table.len()
    &&& table[i].len() <= room
    &&& forall|k: int| 0 <= k < i ==> (#[trigger] table[k]).len() > room
}

proof fn lemma_first_fit_is(table: Seq<Seq<char>>, room: int, i: int)
    requires
        0 <= i <= table.len(),
        forall|k: int| 0 <= k < i ==> (#[trigger] table[k]).len() > room,
    ensures
        (exists|j: int| #[trigger]
            fits_first(table, room, j) && first_fit(table, room, i) == table[j]) || (first_fit(
            table,
            room,
            i,
        ) == "q"@ && forall|k: int| 0 <= k < table.len() ==> (#[trigger] table[k]).len() > room),
    decreases table.len() - i,
{
    if i < table.len() {
        if table[i].len() <= room {
            assert(fits_first(table, room, i));
        } else {
            lemma_first_fit_is(table, room, i + 1);
        }
    }
}

/// The overlay shows the selection whole, wrapped: its rows hold every character of the quoted text
/// that is not a space, in order. The first row shown is one of them.
pub proof fn law_the_overlay_shows_the_selection(app: App, width: int, span: Span)
    requires
        width > 0,
        app.selected() == Some(span),
    ensures
        ({
            let rows = peek_rows_of(app, width);
            let lines = split_on(replace_char(app.sliced(span), '\t', ' '), '\n');
            crate::wrap::all_inked(rows, rows.len() as int) == crate::wrap::all_inked(
                lines,
                lines.len() as int,
            )
        }),
        peek_rows_of(app, width).len() > 0 ==> 0 <= peek_top(app, peek_rows_of(app, width).len() as int)
            < peek_rows_of(app, width).len(),
        app.peek_scroll < peek_rows_of(app, width).len() ==> peek_top(
            app,
            peek_rows_of(app, width).len() as int,
        ) == app.peek_scroll,
{
    let lines = split_on(replace_char(app.sliced(span), '\t', ' '), '\n');
    crate::wrap::law_wrapping_keeps_every_word(lines, lines.len() as int, width);
}

/// The comment box has a row for each line of the comment, behind a prompt on the first. A row that
/// the caret is not on is its line; the one that it is on is its line too, cut at the caret, with a
/// cell more where the caret stands behind it.
pub proof fn law_the_comment_box_shows_the_comment(e: crate::editor::Editor, i: int)
    requires
        0 <= i < split_on(e.text@, '\n').len(),
    ensures
        ({
            let lines = split_on(e.text@, '\n');
            let row = input_rows(e)[i];
            let caret = blen(e.model().before.skip(line_start_of(e.model().before)));
            let here = i == crate::editor::feeds(e.model().before);
            &&& input_rows(e).len() == lines.len()
            &&& row.len() > 0
            &&& row[0].text == if i == 0 {
                "> "@
            } else {
                "  "@
            }
            &&& !here ==> text_of(row.drop_first()) == lines[i]
            &&& here && caret < blen(lines[i]) ==> text_of(row.drop_first()) == lines[i]
            &&& here && caret >= blen(lines[i]) ==> text_of(row.drop_first()) == lines[i].push(' ')
        }),
{
    let line = split_on(e.text@, '\n')[i];
    let row = input_rows(e)[i];
    let caret = blen(e.model().before.skip(line_start_of(e.model().before)));
    let here = i == crate::editor::feeds(e.model().before);
    reveal_with_fuel(text_of, 2);
    if !here {
        let rest = row.drop_first();
        assert(rest =~= seq![Stretch { text: line, look: Look::Plain }]);
        assert(rest.drop_last() =~= Seq::<Stretch>::empty());
        assert(text_of(rest) =~= line);
    } else {
        let marks = seq![(caret as usize, char_end(line, caret) as usize, Look::Caret)];
        let runs = segments_from(line, marks, Look::Plain, 0);
        law_segments_rebuild_the_text(line, marks, Look::Plain, 0);
        assert(text_of(runs) =~= line);
        if caret >= blen(line) {
            let end = Stretch { text: " "@, look: Look::Caret };
            assert(row.drop_first() =~= runs.push(end));
            assert(runs.push(end).drop_last() =~= runs);
            reveal_strlit(" ");
            assert(line + " "@ =~= line.push(' '));
        } else {
            assert(row.drop_first() =~= runs);
        }
    }
}

/// The view stays where it is as long as the cursor's row is seen, and moves no further than it must:
/// a cursor above the view becomes its first row, one below it its last.
pub proof fn law_the_view_moves_no_further_than_it_must(app: App, scroll: Anchor, viewport: int)
    requires
        viewport > 0,
        countable(app),
        is_row(app, scroll),
        is_row(app, cursor_anchor(app)),
        row_index(app, scroll) + viewport <= rows_above(app, app.total() + 1),
    ensures
        row_index(app, scroll) <= row_index(app, cursor_anchor(app)) < row_index(app, scroll) + viewport
            ==> kept_visible(app, scroll, viewport) == scroll,
        row_index(app, cursor_anchor(app)) < row_index(app, scroll) ==> kept_visible(
            app,
            scroll,
            viewport,
        ) == cursor_anchor(app),
        row_index(app, cursor_anchor(app)) >= row_index(app, scroll) + viewport ==> row_index(
            app,
            kept_visible(app, scroll, viewport),
        ) == row_index(app, cursor_anchor(app)) - (viewport - 1),
{
    let cur = cursor_anchor(app);
    let end = app.total();
    assert(app.height(end) <= usize::MAX);
    let last = Anchor { line: end as usize, row: (app.height(end) - 1) as usize };
    let low = lowest_top(app, viewport);
    assert(is_row(app, last));
    lemma_walk_up(app, last, viewport - 1);
    lemma_walk_up(app, cur, viewport - 1);
    assert(rows_above(app, end + 1) == rows_above(app, end) + app.height(end));
    assert(row_index(app, last) == rows_above(app, end + 1) - 1);
    lemma_row_order(app, low, scroll);
    lemma_row_order(app, low, cur);
    lemma_row_order(app, cur, scroll);
    lemma_row_order(app, cur, last);
    lemma_row_order(app, scroll, cur);
    if row_index(app, scroll) <= row_index(app, cur) < row_index(app, scroll) + viewport {
        lemma_kept(app, scroll, viewport);
    }
    if row_index(app, cur) >= row_index(app, scroll) + viewport {
        lemma_rows_to(app, scroll, cur, 0, viewport);
        let up = app.walked(cur, viewport - 1, false);
        lemma_row_order(app, low, up);
        if above(last, cur) {
            assert(false);
        }
        assert(row_index(app, cur) <= row_index(app, last));
    }
}

/// What the pieces of a row say: the bytes of the line that are its source, and the fill of its pads,
/// one after the other.
pub open spec fn row_text(text: Seq<char>, row: Seq<Piece>, n: int) -> Seq<char>
    decreases n,
{
    if n <= 0 {
        Seq::empty()
    } else {
        row_text(text, row, n - 1) + match row[n - 1] {
            Piece::Src(s, e) => byte_slice(text, s as int, e as int),
            Piece::Pad { n, fill, .. } => repeat(fill, n as int),
        }
    }
}

proof fn lemma_pieces_text(text: Seq<char>, marks: Seq<Mark>, row: Seq<Piece>, n: int)
    requires
        0 <= n <= row.len(),
    ensures
        text_of(pieces_runs(text, marks, row, n)) == row_text(text, row, n),
    decreases n,
{
    if n > 0 {
        lemma_pieces_text(text, marks, row, n - 1);
        let before = pieces_runs(text, marks, row, n - 1);
        let own = piece_runs(text, marks, row[n - 1]);
        lemma_text_of_concat(before, own);
        reveal_with_fuel(text_of, 2);
        match row[n - 1] {
            Piece::Src(s, e) => {
                let t = byte_slice(text, s as int, e as int);
                law_segments_rebuild_the_text(
                    t,
                    clipped(marks, s as int, e as int, marks.len() as int),
                    Look::Plain,
                    0,
                );
                assert(t.skip(0) =~= t);
            },
            Piece::Pad { n, fill, anchor } => {
                assert(own.drop_last() =~= Seq::<Stretch>::empty());
                assert(text_of(own) =~= repeat(fill, n as int));
            },
        }
    }
}

/// The body of a row shows what the row says, all of it and nothing else, behind the hanging indent
/// on a continuation row, whatever is highlighted or selected. Only a row that says nothing gets a
/// cell for the cursor, where the cursor is on its line.
pub proof fn law_the_body_shows_the_row(app: App, line: int, k: int)
    requires
        0 <= k < app.rows(line).len(),
        app.indent(line) >= 0,
    ensures
        ({
            let row = app.rows(line)[k];
            let says = row_text(app.shown(line), row, row.len() as int);
            let shows = text_of(body_runs(app, line, k));
            &&& k == 0 && says.len() > 0 ==> shows == says
            &&& k > 0 ==> says.len() > 0 ==> shows == repeat(' ', app.indent(line)) + says
            &&& says.len() == 0 && (k == 0 || app.indent(line) == 0) ==> shows.len() == 0 || (line
                == app.cursor.line && shows == " "@)
        }),
{
    let text = app.shown(line);
    let row = app.rows(line)[k];
    let marks = marks_of(app, line, text);
    let indent = app.indent(line);
    let runs = pieces_runs(text, marks, row, row.len() as int);
    lemma_pieces_text(text, marks, row, row.len() as int);
    let says = row_text(text, row, row.len() as int);
    let head = if k > 0 && indent > 0 {
        seq![Stretch { text: repeat(' ', indent), look: Look::Plain }]
    } else {
        Seq::empty()
    };
    lemma_text_of_concat(head, runs);
    reveal_with_fuel(text_of, 2);
    if k > 0 && indent > 0 {
        assert(head.drop_last() =~= Seq::<Stretch>::empty());
        assert(text_of(head) =~= repeat(' ', indent));
    } else {
        assert(text_of(head) =~= Seq::<char>::empty());
        assert(text_of(head) + says =~= says);
        assert(repeat(' ', 0) =~= Seq::<char>::empty());
    }
    let cell = seq![Stretch { text: " "@, look: Look::Cursor }];
    assert(cell.drop_last() =~= Seq::<Stretch>::empty());
    assert(text_of(cell) =~= " "@);
}

/// The title says what is selected, where the cursor is, how much there is of the document and of
/// the review, and last the name of the file, shortened to what is left of the width.
pub proof fn law_the_title_says_where_you_are(app: App, width: int, s: Span)
    requires
        app.selected() == Some(s),
        width >= 0,
    ensures
        ({
            let place = decimal(app.cursor.line as nat) + ":"@ + decimal(app.cursor.col as nat);
            let head = " ["@ + region_note(app.selected_kind(), s) + "] · L"@ + place + " · "@ + decimal(
                app.lines@.len(),
            ) + " lines · "@ + decimal(app.blocks@.len()) + " units · "@ + decimal(
                app.annotations@.len(),
            ) + " annotations · "@;
            let room = width - head.len() - 3;
            &&& room >= 0 ==> title_of(app, width) == head + shortened(app.shown_name(), room) + " "@
            &&& room < 0 ==> title_of(app, width) == head + shortened(app.shown_name(), 0) + " "@
        }),
{
    let place = decimal(app.cursor.line as nat) + ":"@ + decimal(app.cursor.col as nat);
    let head = " ["@ + region_note(app.selected_kind(), s) + "] · L"@ + place + " · "@ + decimal(
        app.lines@.len(),
    ) + " lines · "@ + decimal(app.blocks@.len()) + " units · "@ + decimal(app.annotations@.len())
        + " annotations · "@;
    assert(title_head(app) =~= head);
}

/// A row is marked as cut where its runs together take more cells than the body has, unless the
/// overlay is up; the mark tells whether the cursor is out of sight, as many cells or more before it
/// as the body has.
pub proof fn law_a_row_past_the_edge_is_marked_as_cut(
    app: App,
    line: int,
    k: int,
    number_w: int,
    body_w: int,
)
    requires
        body_w > 0,
        !app.peek,
    ensures
        ({
            let v = row_view(app, line, k, number_w, body_w);
            let text = app.shown(line);
            let ahead = spread(byte_slice(text, 0, cursor_at(app, text)));
            let cells = v.runs.fold_left(0int, |n: int, r: Stretch| n + spread(r.text));
            &&& cells > body_w ==> v.cut == Some(line == app.cursor.line && ahead >= body_w)
            &&& cells <= body_w ==> v.cut is None
        }),
{
    let v = row_view(app, line, k, number_w, body_w);
    lemma_runs_cells_fold(v.runs, v.runs.len() as int);
    assert(v.runs.take(v.runs.len() as int) =~= v.runs);
}

proof fn lemma_runs_cells_fold(v: Seq<Stretch>, n: int)
    requires
        0 <= n <= v.len(),
    ensures
        runs_cells(v, n) == v.take(n).fold_left(0int, |m: int, r: Stretch| m + spread(r.text)),
    decreases n,
{
    if n > 0 {
        lemma_runs_cells_fold(v, n - 1);
        assert(v.take(n).drop_last() =~= v.take(n - 1));
        assert(v.take(n).last() == v[n - 1]);
    }
}

} // verus!
