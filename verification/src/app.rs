//! Editor state: cursor, selection, annotations, and the two output formats. Deliberately free of
//! any terminal type.
//!
//! Selection has four shapes, all resolving to a single `Span`:
//!
//! * whole block under the cursor (the default)
//! * `v` -- a range of navigation units
//! * `V` -- a range of whole lines, ignoring block boundaries
//! * `+`/`-` -- a node from the containment hierarchy, from an inline code span up to the whole
//!   document
use vstd::prelude::*;
use vstd::string::*;
use vstd::utf8::*;
use crate::blocks::{
    all_on_file, around, asked, block_at, clamp, collapse, containment_stack, ends_line, in_file,
    inline_starts, law_lines_hold_no_ending, law_next_stop_is_the_nearest,
    law_no_line_without_a_unit, law_prev_stop_is_the_nearest, law_questions_name_a_question_mark,
    lemma_stack_in_file, lines_of, next_inline, next_stop, on_file, prev_inline, prev_stop,
    questions, questions_in, source_lines, span_in_file, unit_for, verbatim, Block, Pos, Span, Tree,
    TreeNode,
};
use crate::editor::{Draft, Editor};
use crate::format::{format_marks, format_tree, format_units, Format};
use crate::highlight::{mark_views, LineMarks};
use crate::table::{
    document_paddings, law_pads_stand_between_characters, padded_row, pads_at, pads_between,
    table_ranges, Tables,
};
use crate::text::{
    blen, byte_len, byte_slice, bytes_between, ceil_at, ceil_boundary, char_index, decimal,
    decimal_string, floor_at, floor_boundary, is_cut, join, joined, lemma_boundary_is_offset,
    lemma_byte_slice, lemma_decimal_injective, lemma_floor_keeps_cut, lemma_offset_ends,
    lemma_offset_is_boundary, lemma_offset_mono, lemma_replace_offsets, lemma_round,
    law_columns_round_to_characters, law_pieces_are_what_lies_between, lemma_split_append, lemma_split_join, lemma_split_whole, offset, pieces, replace_char, replaced, slices, split_on, texts, trim,
    trimmed, Laid,
};
use crate::wrap::{
    capped_hang, first_src, last_src, law_no_row_is_spent_on_nothing, law_rows_partition_the_line,
    one_src, row_end, row_start, row_views, rows_of, source_rows, wrap_source, Piece, Row,
};

verus! {

#[derive(Debug, Clone, Copy, PartialEq, Eq, Structural)]
pub enum Mode {
    Normal,
    Input,
}

#[derive(Debug, Clone, Copy, PartialEq, Eq, Structural)]
pub enum Sel {
    /// Just the navigation unit under the cursor.
    Here,
    /// Block-wise, anchored at a block index.
    Blocks { anchor: usize },
    /// Line-wise, anchored at a line.
    Lines { anchor: usize },
    /// A node of the containment hierarchy; `depth` indexes the stack at the cursor, 0 being
    /// innermost.
    Region { depth: usize },
}

#[derive(Debug)]
pub struct Annotation {
    pub id: String,
    pub kind: &'static str,
    pub block_kind: String,
    pub start_line: usize,
    pub start_col: usize,
    pub end_line: usize,
    pub end_col: usize,
    /// True when the span covers its lines entirely, so consumers can quote whole lines instead of
    /// a fragment.
    pub whole_lines: bool,
    pub original_text: String,
    pub text: String,
}

/// The mathematical form of [`Annotation`].
pub struct Note {
    pub id: Seq<char>,
    pub kind: &'static str,
    pub block_kind: Seq<char>,
    pub span: Span,
    pub whole_lines: bool,
    pub original_text: Seq<char>,
    pub text: Seq<char>,
}

impl Annotation {
    pub open spec fn span(self) -> Span {
        Span {
            start: Pos { line: self.start_line, col: self.start_col },
            end: Pos { line: self.end_line, col: self.end_col },
        }
    }

    pub open spec fn model(self) -> Note {
        Note {
            id: self.id@,
            kind: self.kind,
            block_kind: self.block_kind@,
            span: self.span(),
            whole_lines: self.whole_lines,
            original_text: self.original_text@,
            text: self.text@,
        }
    }
}

impl Clone for Annotation {
    fn clone(&self) -> (r: Self)
        ensures
            r.model() == self.model(),
            r.id@ == self.id@ && r.kind == self.kind && r.block_kind@ == self.block_kind@,
            r.start_line == self.start_line && r.start_col == self.start_col,
            r.end_line == self.end_line && r.end_col == self.end_col,
            r.whole_lines == self.whole_lines,
            r.original_text@ == self.original_text@ && r.text@ == self.text@,
    {
        Annotation {
            id: self.id.clone(),
            kind: self.kind,
            block_kind: self.block_kind.clone(),
            start_line: self.start_line,
            start_col: self.start_col,
            end_line: self.end_line,
            end_col: self.end_col,
            whole_lines: self.whole_lines,
            original_text: self.original_text.clone(),
            text: self.text.clone(),
        }
    }
}

pub open spec fn notes(v: Seq<Annotation>) -> Seq<Note> {
    v.map_values(|a: Annotation| a.model())
}

#[derive(Debug)]
pub struct Source {
    pub path: String,
    /// Display name a launcher asked for. `path` stays the real file, so provenance survives even
    /// when the file is a temporary one.
    pub label: Option<String>,
    pub lines: usize,
}

#[derive(Debug)]
pub struct Outcome {
    pub version: u32,
    pub decision: &'static str,
    pub source: Source,
    pub annotations: Vec<Annotation>,
    pub feedback_markdown: String,
}

pub struct App {
    pub path: String,
    /// Overrides `path` everywhere a human reads it.
    pub label: Option<String>,
    pub lines: Vec<String>,
    pub blocks: Vec<Block>,
    pub tree: TreeNode,
    /// Syntax highlighting marks, one entry per source line. Computed once.
    pub marks: Vec<LineMarks>,
    pub cursor: Pos,
    pub sel: Sel,
    pub annotations: Vec<Annotation>,
    pub mode: Mode,
    pub editor: Editor,
    pub status: String,
    pub quit: bool,
    /// Source rows currently visible. Owned by the renderer, which is the only thing that knows the
    /// terminal size; paging keys read it.
    pub viewport: usize,
    /// Peek overlay: the selection, wrapped, over the source view. Read-only.
    pub peek: bool,
    /// Wrapped-row offset inside the peek overlay.
    pub peek_scroll: usize,
    /// Rows the peeked text wraps to at the current width. Published by the renderer.
    pub peek_rows: usize,
    /// Render the source legibly rather than literally: soft wrap, and tables aligned by padding.
    pub pretty: bool,
    /// Cells the body column is wide, published by the renderer. Zero until the first frame, which
    /// is also how wrapping and aligning are told not to happen.
    pub body_width: usize,
    /// Alignment padding per line. Computed once; the width only decides whether to use it.
    pub tables: Tables,
    /// Where the document asks a question, in order.
    pub questions: Vec<Pos>,
    pub next_id: usize,
}

/// Top of the source viewport: a line, and how many of its wrapped rows sit above the fold. `row`
/// is 0 for any line short enough not to wrap.
#[derive(Clone, Copy, PartialEq, Eq, Debug, Structural)]
pub struct Anchor {
    pub line: usize,
    pub row: usize,
}

impl Default for Anchor {
    fn default() -> (r: Self)
        ensures
            r == (Anchor { line: 1, row: 0 }),
    {
        Anchor { line: 1, row: 0 }
    }
}

pub open spec fn wider(outer: Span, inner: Span) -> bool {
    outer.start.le(inner.start) && inner.end.le(outer.end) && outer != inner
}

fn strictly_contains(outer: Span, inner: Span) -> (r: bool)
    ensures
        r == wider(outer, inner),
{
    outer.start.at_or_before(inner.start) && inner.end.at_or_before(outer.end) && outer != inner
}

// ---------------------------------------------------------------------------
// Lines and rows
// ---------------------------------------------------------------------------

/// The text of a line counted from 1; empty where it is not there.
pub open spec fn text_at(ls: Seq<Seq<char>>, line: int) -> Seq<char> {
    let i = if line >= 1 {
        line - 1
    } else {
        0
    };
    if i < ls.len() {
        ls[i]
    } else {
        Seq::empty()
    }
}

pub open spec fn at_least_one(n: int) -> int {
    if n >= 1 {
        n
    } else {
        1
    }
}

pub open spec fn smaller(a: int, b: int) -> int {
    if a <= b {
        a
    } else {
        b
    }
}

/// `a - b`, or 0 where that is negative.
pub open spec fn less(a: int, b: int) -> int {
    if a >= b {
        a - b
    } else {
        0
    }
}

/// The last of the first `n` rows that starts at or before byte `b`; the first row where none does.
pub open spec fn row_of_byte(rows: Seq<Seq<Piece>>, b: int, n: int) -> int
    decreases n,
{
    if n <= 0 {
        0
    } else if first_src(rows[n - 1]) <= b {
        n - 1
    } else {
        row_of_byte(rows, b, n - 1)
    }
}

/// A byte of a line pulled onto the start of a character of it.
pub open spec fn snapped(text: Seq<char>, byte: int) -> int {
    floor_at(encode_utf8(text), smaller(byte, at_least_one(blen(text)) - 1))
}

/// The last of the first `n` characters that starts at or before byte `b`; the first where none
/// does.
pub open spec fn char_of_byte(text: Seq<char>, b: int, n: int) -> int
    decreases n,
{
    if n <= 1 {
        0
    } else if offset(text, n - 1) <= b {
        n - 1
    } else {
        char_of_byte(text, b, n - 1)
    }
}

// ---------------------------------------------------------------------------
// Words
// ---------------------------------------------------------------------------

/// How a region of the hierarchy is announced.
pub open spec fn region_note(kind: Seq<char>, s: Span) -> Seq<char> {
    if s.start.line == s.end.line {
        kind + " L"@ + decimal(s.start.line as nat) + ":"@ + decimal(s.start.col as nat) + "-"@
            + decimal(s.end.col as nat)
    } else {
        kind + " L"@ + decimal(s.start.line as nat) + "-"@ + decimal(s.end.line as nat)
    }
}

pub(crate) fn region_text(kind: &str, s: Span) -> (r: String)
    ensures
        r@ == region_note(kind@, s),
{
    let mut out = kind.to_owned();
    out.append(" L");
    out.append(decimal_string(s.start.line).as_str());
    if s.start.line == s.end.line {
        out.append(":");
        out.append(decimal_string(s.start.col).as_str());
        out.append("-");
        out.append(decimal_string(s.end.col).as_str());
    } else {
        out.append("-");
        out.append(decimal_string(s.end.line).as_str());
    }
    out
}

/// No line holds a line ending.
#[verifier::opaque]
pub open spec fn unbroken(ls: Seq<Seq<char>>) -> bool {
    forall|i: int, k: int|
        0 <= i < ls.len() && 0 <= k < ls[i].len() ==> !ends_line(#[trigger] ls[i][k])
}

/// Index of the first entry of the stack that is strictly wider than `cur`; the outermost where
/// none is.
pub open spec fn first_wider(stack: Seq<(&'static str, Span)>, cur: Span, i: int) -> int
    decreases stack.len() - i,
{
    if i < 0 || i >= stack.len() - 1 {
        stack.len() - 1
    } else if wider(stack[i].1, cur) {
        i
    } else {
        first_wider(stack, cur, i + 1)
    }
}

/// Index of the last of the first `n` entries of the stack that `cur` is strictly wider than; the
/// innermost where there is none.
pub open spec fn last_narrower(stack: Seq<(&'static str, Span)>, cur: Span, n: int) -> int
    decreases n,
{
    if n <= 1 {
        0
    } else if wider(cur, stack[n - 1].1) {
        n - 1
    } else {
        last_narrower(stack, cur, n - 1)
    }
}

// ---------------------------------------------------------------------------
// Specifications of the state
// ---------------------------------------------------------------------------

impl App {
    pub open spec fn ls(self) -> Seq<Seq<char>> {
        texts(self.lines@)
    }

    pub open spec fn total(self) -> int {
        at_least_one(self.lines@.len() as int)
    }

    /// A block selection is anchored at a unit, the units and the hierarchy lie in the file, no line
    /// holds a line ending, every line has its place in the padding table, and the editor is sound.
    pub open spec fn wf(self) -> bool {
        &&& self.editor.wf()
        &&& self.sel matches Sel::Blocks { anchor } ==> self.blocks@.len() == 0 || anchor
            < self.blocks@.len()
        &&& all_on_file(self.blocks@, self.total())
        &&& in_file(self.tree.shape(), self.total())
        &&& unbroken(self.ls())
        &&& self.tables.lines@.len() == self.lines@.len()
        &&& forall|k: int|
            0 <= k < self.lines@.len() ==> (#[trigger] self.tables.model()[k] matches Some(w)
                ==> pads_between(self.ls()[k], w.pads))
    }

    /// The line as the screen shows it.
    pub open spec fn shown(self, line: int) -> Seq<char> {
        replace_char(text_at(self.ls(), line), '\t', ' ')
    }

    pub open spec fn width(self) -> int {
        if self.pretty {
            self.body_width as int
        } else {
            0
        }
    }

    /// The rows of a line, in screen order.
    pub open spec fn rows(self, line: int) -> Seq<Seq<Piece>> {
        match pads_at(self.tables.model(), line, self.width()) {
            Some(pads) => seq![padded_row(blen(self.shown(line)), pads)],
            None => source_rows(self.shown(line), self.width()),
        }
    }

    /// The hanging indent that the continuation rows of a line carry.
    pub open spec fn indent(self, line: int) -> int {
        if pads_at(self.tables.model(), line, self.width()) is Some || self.width() == 0 {
            0
        } else {
            capped_hang(self.shown(line), self.width())
        }
    }

    pub open spec fn height(self, line: int) -> int {
        at_least_one(self.rows(line).len() as int)
    }

    /// The row of its line that the cursor is on.
    pub open spec fn row_here(self) -> int {
        let rows = self.rows(self.cursor.line as int);
        row_of_byte(rows, less(self.cursor.col as int, 1), rows.len() as int)
    }

    /// One row down, or up.
    pub open spec fn stepped(self, at: Anchor, down: bool) -> Option<Anchor> {
        if down {
            if at.row + 1 < self.height(at.line as int) {
                Some(Anchor { line: at.line, row: (at.row + 1) as usize })
            } else if at.line < self.total() {
                Some(Anchor { line: (at.line + 1) as usize, row: 0 })
            } else {
                None
            }
        } else if at.row > 0 {
            Some(Anchor { line: at.line, row: (at.row - 1) as usize })
        } else if at.line > 1 {
            Some(
                Anchor {
                    line: (at.line - 1) as usize,
                    row: (self.height(at.line - 1) - 1) as usize,
                },
            )
        } else {
            None
        }
    }

    /// `n` rows on, or as far as the document goes.
    pub open spec fn walked(self, at: Anchor, n: int, down: bool) -> Anchor
        decreases n,
    {
        if n <= 0 {
            at
        } else {
            match self.stepped(at, down) {
                Some(next) => self.walked(next, n - 1, down),
                None => at,
            }
        }
    }

    pub open spec fn unit_here(self) -> Option<int> {
        unit_for(self.blocks@, self.cursor.line as int)
    }

    pub open spec fn stack_here(self) -> Seq<(&'static str, Span)> {
        collapse(around(self.tree.shape(), self.cursor))
    }

    /// The whole of the lines from `a` to `b`.
    pub open spec fn line_span(self, a: int, b: int) -> Span {
        Span {
            start: Pos { line: a as usize, col: 1 },
            end: Pos { line: b as usize, col: at_least_one(blen(text_at(self.ls(), b))) as usize },
        }
    }

    /// What is selected.
    pub open spec fn selected(self) -> Option<Span> {
        match self.sel {
            Sel::Here => match self.unit_here() {
                Some(i) => Some(self.blocks@[i].span),
                None => None,
            },
            Sel::Blocks { anchor } => match self.unit_here() {
                Some(i) => Some(
                    self.blocks@[smaller(anchor as int, i)].span.join(
                        self.blocks@[larger(anchor as int, i)].span,
                    ),
                ),
                None => None,
            },
            Sel::Lines { anchor } => Some(
                self.line_span(
                    smaller(anchor as int, self.cursor.line as int),
                    larger(anchor as int, self.cursor.line as int),
                ),
            ),
            Sel::Region { depth } => {
                let stack = self.stack_here();
                if stack.len() == 0 {
                    None
                } else {
                    Some(stack[smaller(depth as int, stack.len() - 1)].1)
                }
            },
        }
    }

    /// What the selection is called.
    pub open spec fn selected_kind(self) -> Seq<char> {
        match self.sel {
            Sel::Here => match self.unit_here() {
                Some(i) => self.blocks@[i].kind@,
                None => Seq::empty(),
            },
            Sel::Blocks { anchor } => match self.unit_here() {
                Some(i) => if i != anchor {
                    self.blocks@[smaller(anchor as int, i)].kind@ + ".."@ + self.blocks@[larger(
                        anchor as int,
                        i,
                    )].kind@
                } else {
                    self.blocks@[i].kind@
                },
                None => Seq::empty(),
            },
            Sel::Lines { .. } => "lines"@,
            Sel::Region { depth } => {
                let stack = self.stack_here();
                if stack.len() == 0 {
                    Seq::empty()
                } else {
                    stack[smaller(depth as int, stack.len() - 1)].0@
                }
            },
        }
    }

    /// The part of `line` that a span covers, cut at characters.
    pub open spec fn part(self, span: Span, line: int) -> Seq<char> {
        let text = text_at(self.ls(), line);
        let a = if line == span.start.line {
            floor_at(encode_utf8(text), less(span.start.col as int, 1))
        } else {
            0
        };
        let b = if line == span.end.line {
            ceil_at(encode_utf8(text), span.end.col as int)
        } else {
            blen(text)
        };
        byte_slice(text, a, b)
    }

    /// The text a span covers.
    pub open spec fn sliced(self, span: Span) -> Seq<char> {
        let n = span.end.line - span.start.line + 1;
        join(
            Seq::new(
                if n >= 0 {
                    n as nat
                } else {
                    0
                },
                |i: int| self.part(span, span.start.line + i),
            ),
            "\n"@,
        )
    }

    pub open spec fn covers_lines(self, span: Span) -> bool {
        span.start.col == 1 && span.end.col >= at_least_one(
            blen(text_at(self.ls(), span.end.line as int)),
        )
    }

    /// The cursor is on a line of the document and at the start of a character of it.
    pub open spec fn placed(self) -> bool {
        &&& 1 <= self.cursor.line <= self.total()
        &&& self.cursor.col >= 1
        &&& is_cut(text_at(self.ls(), self.cursor.line as int), self.cursor.col - 1)
    }

    /// Nothing but the cursor, the selection and the status line differs.
    pub open spec fn moved_from(self, before: App) -> bool {
        self == (App { cursor: self.cursor, sel: self.sel, status: self.status, ..before })
    }

    /// A selection in the hierarchy is gone, and its note with it; any other stays.
    pub open spec fn region_dropped(self, before: App) -> bool {
        if before.sel is Region {
            self.sel is Here && self.status@.len() == 0
        } else {
            self.sel == before.sel && self.status == before.status
        }
    }
}

pub open spec fn larger(a: int, b: int) -> int {
    if a >= b {
        a
    } else {
        b
    }
}

impl App {
    /// Opens a markdown document.
    pub fn new(path: String, src: &str) -> (r: Self)
        ensures
            r.wf(),
            r.opened(path@, src@, Format::Markdown),
    {
        App::open(path, src, Format::Markdown)
    }

    /// The state a session on a document starts in.
    pub open spec fn opened(self, path: Seq<char>, src: Seq<char>, format: Format) -> bool {
        &&& self.path@ == path
        &&& self.label is None
        &&& self.ls() == lines_of(src)
        &&& self.blocks@ == format_units(format, src)
        &&& self.tree.shape() == format_tree(format, src)
        &&& mark_views(self.marks@) == format_marks(format, format_tree(format, src), src)
        &&& self.cursor == if self.blocks@.len() > 0 {
            self.blocks@[0].span.start
        } else {
            Pos { line: 1, col: 1 }
        }
        &&& self.sel is Here
        &&& self.annotations@.len() == 0
        &&& self.mode is Normal
        &&& self.editor.model() == Draft::empty()
        &&& self.status@.len() == 0
        &&& !self.quit
        &&& self.viewport == 20
        &&& !self.peek
        &&& self.peek_scroll == 0
        &&& self.peek_rows == 0
        &&& self.pretty
        &&& self.body_width == 0
        &&& self.tables.model() == document_paddings(lines_of(src), format_units(format, src))
        &&& self.questions@ == questions_in(
            lines_of(src),
            lines_of(src).len() as int,
            verbatim(format_tree(format, src)),
        )
        &&& self.next_id == 1
    }

    /// Opens a document in the format that was decided for it.
    pub fn open(path: String, src: &str, format: Format) -> (r: Self)
        ensures
            r.wf(),
            r.opened(path@, src@, format),
    {
        let parts = source_lines(src);
        let ghost ls = lines_of(src@);
        let mut lines: Vec<String> = Vec::new();
        let mut i: usize = 0;
        proof {
            assert(texts(lines@) =~= ls.take(0));
        }
        while i < parts.len()
            invariant
                i <= parts@.len(),
                ls == slices(parts@),
                texts(lines@) == ls.take(i as int),
                forall|k: int| 0 <= k < i ==> blen(#[trigger] ls[k]) <= usize::MAX,
            decreases parts@.len() - i,
        {
            let ghost before = lines@;
            let _n: usize = byte_len(parts[i]);
            let s = parts[i].to_owned();
            proof {
                assert(ls[i as int] == parts@[i as int]@);
                assert(texts(before.push(s)) =~= texts(before).push(s@));
                assert(ls.take(i + 1) =~= ls.take(i as int).push(ls[i as int]));
            }
            lines.push(s);
            i += 1;
        }
        proof {
            assert(ls.take(i as int) =~= ls);
        }
        let blocks = format.parse(src);
        let tree = format.parse_tree(src);
        let marks = format.marks(&tree, src);
        let asked = questions(&tree, src);
        let cursor = if blocks.len() > 0 {
            blocks[0].span.start
        } else {
            Pos::new(1, 1)
        };
        let tables = Tables::new(lines.as_slice(), blocks.as_slice());
        let r = App {
            path,
            label: None,
            lines,
            blocks,
            tree,
            marks,
            cursor,
            sel: Sel::Here,
            annotations: Vec::new(),
            mode: Mode::Normal,
            editor: Editor::default(),
            status: String::new(),
            quit: false,
            viewport: 20,
            peek: false,
            peek_scroll: 0,
            peek_rows: 0,
            pretty: true,
            body_width: 0,
            tables,
            questions: asked,
            next_id: 1,
        };
        proof {
            let ranges = table_ranges(ls, r.blocks@, r.blocks@.len() as int);
            assert forall|k: int| 0 <= k < r.lines@.len() implies (#[trigger] r.tables.model()[k] matches Some(w)
                ==> pads_between(r.ls()[k], w.pads)) by {
                law_pads_stand_between_characters(ls, ranges, ranges.len() as int, k);
            }
            reveal(unbroken);
            assert forall|i: int, k: int| 0 <= i < ls.len() && 0 <= k < ls[i].len() implies !ends_line(
                #[trigger] ls[i][k],
            ) by {
                law_lines_hold_no_ending(src@, i, k);
            }
        }
        r
    }

    // ---- row space ----

    /// The line as the screen shows it. Tabs become one space each so a byte offset stays a cell
    /// offset.
    pub fn display_line(&self, line: usize) -> (r: String)
        ensures
            r@ == self.shown(line as int),
    {
        replaced(self.line_text(line), '\t', ' ')
    }

    /// Rows of line `line` -- source bytes and any alignment padding, in screen order -- plus the
    /// hanging indent its continuation rows carry.
    pub fn line_rows(&self, line: usize) -> (r: (Vec<Row>, usize))
        ensures
            row_views(r.0@) == self.rows(line as int),
            r.1 == self.indent(line as int),
            r.0@.len() >= 1,
    {
        let text = self.display_line(line);
        let width: usize = if self.pretty {
            self.body_width
        } else {
            0
        };
        if let Some(pads) = self.tables.pads(line, width) {
            let row = crate::table::row(byte_len(text.as_str()), pads);
            let mut out: Vec<Row> = Vec::new();
            out.push(row);
            proof {
                assert(row_views(out@) =~= seq![row@]);
            }
            return (out, 0);
        }
        let r = wrap_source(text.as_str(), width);
        proof {
            lemma_source_rows(text@, width as int);
            assert(row_views(r.0@).len() == r.0@.len());
        }
        r
    }

    pub fn row_count(&self, line: usize) -> (r: usize)
        ensures
            r == self.height(line as int),
            r >= 1,
    {
        let rows = self.line_rows(line).0;
        proof {
            assert(row_views(rows@).len() == rows@.len());
        }
        rows.len()
    }

    /// Which of the cursor line's rows holds the cursor.
    pub fn cursor_row(&self) -> (r: usize)
        ensures
            r == self.row_here(),
            r < self.rows(self.cursor.line as int).len(),
    {
        let rows = self.line_rows(self.cursor.line).0;
        let b: usize = self.cursor.col.saturating_sub(1);
        row_at_byte(&rows, b)
    }

    /// One row up or down from `at`, or `None` at either end of the document.
    pub fn step_row(&self, at: Anchor, down: bool) -> (r: Option<Anchor>)
        ensures
            r == self.stepped(at, down),
    {
        if down {
            let n: usize = self.row_count(at.line);
            if at.row < n - 1 {
                return Some(Anchor { line: at.line, row: at.row + 1 });
            }
            if at.line < self.line_count() {
                Some(Anchor { line: at.line + 1, row: 0 })
            } else {
                None
            }
        } else if at.row > 0 {
            Some(Anchor { line: at.line, row: at.row - 1 })
        } else if at.line > 1 {
            Some(Anchor { line: at.line - 1, row: self.row_count(at.line - 1) - 1 })
        } else {
            None
        }
    }

    /// `n` rows from `at`, stopping at the document edge.
    pub fn walk_rows(&self, at: Anchor, n: usize, down: bool) -> (r: Anchor)
        ensures
            r == self.walked(at, n as int, down),
    {
        let mut a = at;
        let mut left: usize = n;
        while left > 0
            invariant
                left <= n,
                self.walked(a, left as int, down) == self.walked(at, n as int, down),
            decreases left,
        {
            match self.step_row(a, down) {
                Some(next) => {
                    a = next;
                },
                None => {
                    return a;
                },
            }
            left -= 1;
        }
        a
    }

    pub fn line_count(&self) -> (r: usize)
        ensures
            r == self.total(),
    {
        let n: usize = self.lines.len();
        if n >= 1 {
            n
        } else {
            1
        }
    }

    pub fn line_text(&self, line: usize) -> (r: &str)
        ensures
            r@ == text_at(self.ls(), line as int),
    {
        let i: usize = line.saturating_sub(1);
        if i < self.lines.len() {
            self.lines[i].as_str()
        } else {
            proof {
                reveal_strlit("");
                assert(""@ =~= Seq::<char>::empty());
            }
            ""
        }
    }

    pub fn line_len(&self, line: usize) -> (r: usize)
        ensures
            r == blen(text_at(self.ls(), line as int)),
    {
        byte_len(self.line_text(line))
    }

    pub fn current_block(&self) -> (r: Option<usize>)
        ensures
            match self.unit_here() {
                None => r is None,
                Some(i) => r matches Some(k) && k == i && k < self.blocks@.len(),
            },
            r is None <==> self.blocks@.len() == 0,
    {
        block_at(self.blocks.as_slice(), self.cursor.line)
    }

    pub fn stack(&self) -> (r: Vec<(&'static str, Span)>)
        ensures
            r@ == self.stack_here(),
    {
        containment_stack(&self.tree, self.cursor)
    }
}

fn row_at_byte(rows: &Vec<Row>, b: usize) -> (r: usize)
    requires
        rows@.len() >= 1,
    ensures
        r == row_of_byte(row_views(rows@), b as int, rows@.len() as int),
        r < rows@.len(),
{
    let ghost views = row_views(rows@);
    let mut n: usize = rows.len();
    while n > 0
        invariant
            n <= rows@.len(),
            rows@.len() >= 1,
            views == row_views(rows@),
            row_of_byte(views, b as int, n as int) == row_of_byte(
                views,
                b as int,
                rows@.len() as int,
            ),
        decreases n,
    {
        proof {
            assert(views[n - 1] == rows@[n - 1]@);
        }
        if row_start(&rows[n - 1]) <= b {
            return n - 1;
        }
        n -= 1;
    }
    0
}

/// A line always has a row.
pub proof fn lemma_source_rows(text: Seq<char>, width: int)
    requires
        width >= 0,
    ensures
        source_rows(text, width).len() >= 1,
{
    if width > 0 {
        law_rows_partition_the_line(text, width, width - capped_hang(text, width));
    }
}

// ---------------------------------------------------------------------------
// Selection
// ---------------------------------------------------------------------------

impl App {
    pub fn selection(&self) -> (r: Option<Span>)
        requires
            self.wf(),
        ensures
            r == self.selected(),
    {
        match self.sel {
            Sel::Here => match self.current_block() {
                Some(i) => Some(self.blocks[i].span),
                None => None,
            },
            Sel::Blocks { anchor } => match self.current_block() {
                Some(cur) => {
                    let (a, b) = if anchor <= cur {
                        (anchor, cur)
                    } else {
                        (cur, anchor)
                    };
                    Some(self.blocks[a].span.union(self.blocks[b].span))
                },
                None => None,
            },
            Sel::Lines { anchor } => {
                let (a, b) = if anchor <= self.cursor.line {
                    (anchor, self.cursor.line)
                } else {
                    (self.cursor.line, anchor)
                };
                let n: usize = self.line_len(b);
                let col: usize = if n >= 1 {
                    n
                } else {
                    1
                };
                Some(Span { start: Pos::new(a, 1), end: Pos::new(b, col) })
            },
            Sel::Region { depth } => {
                let stack = self.stack();
                let n: usize = stack.len();
                if n == 0 {
                    None
                } else {
                    let d: usize = if depth <= n - 1 {
                        depth
                    } else {
                        n - 1
                    };
                    Some(stack[d].1)
                }
            },
        }
    }

    /// What the current selection should be labelled as.
    pub fn selection_kind(&self) -> (r: String)
        requires
            self.wf(),
        ensures
            r@ == self.selected_kind(),
    {
        match self.sel {
            Sel::Here => match self.current_block() {
                Some(i) => self.blocks[i].kind.to_owned(),
                None => String::new(),
            },
            Sel::Blocks { anchor } => match self.current_block() {
                Some(cur) => if cur != anchor {
                    let (a, b) = if anchor <= cur {
                        (anchor, cur)
                    } else {
                        (cur, anchor)
                    };
                    let mut out = self.blocks[a].kind.to_owned();
                    out.append("..");
                    out.append(self.blocks[b].kind);
                    out
                } else {
                    self.blocks[cur].kind.to_owned()
                },
                None => String::new(),
            },
            Sel::Lines { .. } => "lines".to_owned(),
            Sel::Region { depth } => {
                let stack = self.stack();
                let n: usize = stack.len();
                if n == 0 {
                    String::new()
                } else {
                    let d: usize = if depth <= n - 1 {
                        depth
                    } else {
                        n - 1
                    };
                    stack[d].0.to_owned()
                }
            },
        }
    }

    /// The selected bytes of a line, cut at characters.
    pub open spec fn selected_on(self, line: int) -> Option<(int, int)> {
        let text = text_at(self.ls(), line);
        match self.selected() {
            None => None,
            Some(span) => match span.bytes_on(line, blen(text)) {
                None => None,
                Some(r) => Some(
                    (floor_at(encode_utf8(text), r.0), ceil_at(encode_utf8(text), r.1)),
                ),
            },
        }
    }

    /// Byte range `[start, end)` of the selection within `line`, for rendering.
    pub fn selected_bytes_on(&self, line: usize) -> (r: Option<(usize, usize)>)
        requires
            self.wf(),
        ensures
            match self.selected_on(line as int) {
                None => r is None,
                Some(p) => r matches Some(q) && q.0 == p.0 && q.1 == p.1,
            },
            r matches Some(q) ==> is_cut(text_at(self.ls(), line as int), q.0 as int) && is_cut(
                text_at(self.ls(), line as int),
                q.1 as int,
            ),
    {
        match self.selection() {
            None => None,
            Some(span) => {
                let text = self.line_text(line);
                match span.byte_range_on(line, byte_len(text)) {
                    None => None,
                    Some(p) => Some((floor_boundary(text, p.0), ceil_boundary(text, p.1))),
                }
            },
        }
    }

    pub fn line_selected(&self, line: usize) -> (r: bool)
        requires
            self.wf(),
        ensures
            r == (self.selected() matches Some(s) && s.on_line(line as int)),
    {
        match self.selection() {
            Some(s) => s.touches_line(line),
            None => false,
        }
    }

    pub fn annotations_on(&self, line: usize) -> (r: usize)
        ensures
            r == count_on(self.annotations@, line as int, self.annotations@.len() as int),
    {
        let mut n: usize = 0;
        let mut i: usize = 0;
        while i < self.annotations.len()
            invariant
                n <= i <= self.annotations@.len(),
                n == count_on(self.annotations@, line as int, i as int),
            decreases self.annotations@.len() - i,
        {
            let a = &self.annotations[i];
            if line >= a.start_line && line <= a.end_line {
                n += 1;
            }
            i += 1;
        }
        n
    }

    pub fn toggle_blocks(&mut self)
        requires
            old(self).wf(),
        ensures
            final(self).wf(),
            *final(self) == (App {
                sel: final(self).sel,
                status: final(self).status,
                ..*old(self)
            }),
            old(self).sel is Blocks ==> final(self).sel is Here && final(self).status@
                == "selection cleared"@,
            !(old(self).sel is Blocks) ==> final(self).sel == (Sel::Blocks {
                anchor: match old(self).unit_here() {
                    Some(i) => i as usize,
                    None => 0,
                },
            }) && final(self).status@ == "block selection — J/K to extend"@,
    {
        match self.sel {
            Sel::Blocks { .. } => {
                self.status = "selection cleared".to_owned();
                self.sel = Sel::Here;
            },
            _ => {
                let anchor: usize = match self.current_block() {
                    Some(i) => i,
                    None => 0,
                };
                self.status = "block selection — J/K to extend".to_owned();
                self.sel = Sel::Blocks { anchor };
            },
        }
    }

    pub fn toggle_lines(&mut self)
        requires
            old(self).wf(),
        ensures
            final(self).wf(),
            *final(self) == (App {
                sel: final(self).sel,
                status: final(self).status,
                ..*old(self)
            }),
            old(self).sel is Lines ==> final(self).sel is Here && final(self).status@
                == "selection cleared"@,
            !(old(self).sel is Lines) ==> final(self).sel == (Sel::Lines {
                anchor: old(self).cursor.line,
            }) && final(self).status@ == "line selection — j/k to extend"@,
    {
        match self.sel {
            Sel::Lines { .. } => {
                self.status = "selection cleared".to_owned();
                self.sel = Sel::Here;
            },
            _ => {
                self.status = "line selection — j/k to extend".to_owned();
                self.sel = Sel::Lines { anchor: self.cursor.line };
            },
        }
    }

    /// How far out widening goes.
    pub open spec fn wider_depth(self) -> int {
        match self.selected() {
            Some(cur) => first_wider(self.stack_here(), cur, 0),
            None => 0,
        }
    }

    /// How far in narrowing goes.
    pub open spec fn narrower_depth(self) -> int {
        let stack = self.stack_here();
        match self.selected() {
            Some(cur) => last_narrower(stack, cur, stack.len() as int),
            None => 0,
        }
    }

    /// The region at `depth` is selected and announced; nothing changes where the cursor is outside
    /// the document.
    pub open spec fn took_region(self, before: App, depth: int) -> bool {
        let stack = before.stack_here();
        if stack.len() == 0 {
            self == before
        } else {
            &&& self == (App { sel: self.sel, status: self.status, ..before })
            &&& self.sel == (Sel::Region { depth: depth as usize })
            &&& self.status@ == region_note(stack[depth].0@, stack[depth].1)
        }
    }

    /// Widen to the smallest hierarchy node strictly containing the selection.
    pub fn expand(&mut self)
        requires
            old(self).wf(),
        ensures
            final(self).wf(),
            final(self).took_region(*old(self), old(self).wider_depth()),
    {
        let stack = self.stack();
        let n: usize = stack.len();
        if n == 0 {
            return;
        }
        let mut depth: usize = 0;
        if let Some(cur) = self.selection() {
            while depth < n - 1 && !strictly_contains(stack[depth].1, cur)
                invariant
                    n == stack@.len(),
                    depth <= n - 1,
                    first_wider(stack@, cur, depth as int) == first_wider(stack@, cur, 0),
                decreases n - depth,
            {
                depth += 1;
            }
        }
        self.take_region(&stack, depth);
    }

    /// Narrow to the largest hierarchy node strictly inside the selection.
    pub fn contract(&mut self)
        requires
            old(self).wf(),
        ensures
            final(self).wf(),
            final(self).took_region(*old(self), old(self).narrower_depth()),
    {
        let stack = self.stack();
        let n: usize = stack.len();
        if n == 0 {
            return;
        }
        let mut depth: usize = 0;
        if let Some(cur) = self.selection() {
            depth = n - 1;
            while depth > 0 && !strictly_contains(cur, stack[depth].1)
                invariant
                    n == stack@.len(),
                    depth <= n - 1,
                    last_narrower(stack@, cur, depth + 1) == last_narrower(stack@, cur, n as int),
                decreases depth,
            {
                depth -= 1;
            }
        }
        self.take_region(&stack, depth);
    }

    fn take_region(&mut self, stack: &Vec<(&'static str, Span)>, depth: usize)
        requires
            old(self).wf(),
            stack@ == old(self).stack_here(),
            depth < stack@.len(),
        ensures
            final(self).wf(),
            final(self).took_region(*old(self), depth as int),
    {
        let (kind, span) = stack[depth];
        self.sel = Sel::Region { depth };
        self.status = region_text(kind, span);
    }
}

/// How many of the first `n` annotations touch `line`.
pub open spec fn count_on(v: Seq<Annotation>, line: int, n: int) -> int
    decreases n,
{
    if n <= 0 {
        0
    } else if v[n - 1].start_line <= line <= v[n - 1].end_line {
        count_on(v, line, n - 1) + 1
    } else {
        count_on(v, line, n - 1)
    }
}

// ---------------------------------------------------------------------------
// Movement
// ---------------------------------------------------------------------------

impl App {
    /// Moving the cursor abandons a hierarchy selection -- the stack it was an index into no longer
    /// applies -- and the status line that announced it. Block- and line-wise selections are
    /// anchored, so movement extends them instead.
    fn drop_region(&mut self)
        requires
            old(self).wf(),
        ensures
            final(self).wf(),
            final(self).moved_from(*old(self)),
            final(self).region_dropped(*old(self)),
            final(self).cursor == old(self).cursor,
    {
        match self.sel {
            Sel::Region { .. } => {
                self.sel = Sel::Here;
                self.status = String::new();
            },
            _ => {},
        }
    }

    /// The cursor on `line`, at the start of the character that `byte` is in.
    fn place(&mut self, line: usize, byte: usize)
        requires
            old(self).wf(),
        ensures
            final(self).wf(),
            *final(self) == (App { cursor: final(self).cursor, ..*old(self) }),
            final(self).cursor.line == line,
            final(self).cursor.col == snapped(text_at(old(self).ls(), line as int), byte as int) + 1,
            1 <= line <= old(self).total() ==> final(self).placed(),
    {
        let text = self.line_text(line);
        let n: usize = byte_len(text);
        let last: usize = if n >= 1 {
            n - 1
        } else {
            0
        };
        let at: usize = floor_boundary(
            text,
            if byte <= last {
                byte
            } else {
                last
            },
        );
        proof {
            lemma_round(text@, smaller(byte as int, last as int));
        }
        self.cursor = Pos::new(line, at + 1);
    }

    /// The cursor came to rest on `line`, on the character that `byte` is in.
    pub open spec fn came_to(self, before: App, line: int, byte: int) -> bool {
        &&& self.moved_from(before)
        &&& self.region_dropped(before)
        &&& self.cursor.line == line
        &&& self.cursor.col == snapped(text_at(before.ls(), line), byte) + 1
        &&& 1 <= line <= before.total() ==> self.placed()
    }

    /// Nothing moved; a hierarchy selection is dropped all the same.
    pub open spec fn stayed(self, before: App) -> bool {
        &&& self.moved_from(before)
        &&& self.region_dropped(before)
        &&& self.cursor == before.cursor
    }

    /// The row a row motion goes to.
    pub open spec fn row_target(self, dir: int) -> Option<Anchor> {
        self.stepped(Anchor { line: self.cursor.line, row: self.row_here() as usize }, dir > 0)
    }

    /// The byte that a row motion aims at: the offset within the row is kept where the target is
    /// long enough.
    pub open spec fn row_aim(self, to: Anchor) -> int {
        let here = self.rows(self.cursor.line as int);
        let off = less(less(self.cursor.col as int, 1), first_src(here[self.row_here()]));
        let rows = self.rows(to.line as int);
        aim_in(rows, smaller(to.row as int, rows.len() - 1), off)
    }

    /// The byte of a row that is `off` bytes into it, as far as the row goes.
    fn byte_in_row(&self, at: Anchor, off: usize) -> (r: usize)
        ensures
            ({
                let rows = self.rows(at.line as int);
                &&& rows.len() >= 1
                &&& r == aim_in(rows, smaller(at.row as int, rows.len() - 1), off as int)
                &&& at.row < rows.len() ==> row_of_byte(
                    rows,
                    snapped(text_at(self.ls(), at.line as int), r as int),
                    rows.len() as int,
                ) == at.row
            }),
    {
        let rows = self.line_rows(at.line).0;
        let n: usize = rows.len();
        let k: usize = if at.row <= n - 1 {
            at.row
        } else {
            n - 1
        };
        let s: usize = row_start(&rows[k]);
        let e: usize = row_end(&rows[k]);
        let width: usize = e.saturating_sub(s);
        let room: usize = if k < n - 1 && row_start(&rows[k + 1]) == e {
            width.saturating_sub(1)
        } else {
            width
        };
        let _len: usize = self.line_len(at.line);
        proof {
            let views = row_views(rows@);
            assert(views.len() == rows@.len());
            assert(views[k as int] == rows@[k as int]@);
            if k + 1 < n {
                assert(views[k + 1] == rows@[k + 1]@);
            }
            lemma_lands_on_row(*self, at.line as int, k as int, off as int);
        }
        s + if off <= room {
            off
        } else {
            room
        }
    }

    /// Move the cursor one display row, keeping its offset within the row where the target is long
    /// enough.
    pub fn move_row(&mut self, dir: isize)
        requires
            old(self).wf(),
        ensures
            final(self).wf(),
            old(self).placed() ==> final(self).placed(),
            match old(self).row_target(dir as int) {
                None => final(self).stayed(*old(self)),
                Some(to) => final(self).came_to(*old(self), to.line as int, old(self).row_aim(to))
                    && final(self).row_here() == to.row,
            },
    {
        let ghost before = *self;
        let _n: usize = self.lines.len();
        self.drop_region();
        proof {
            assert(self.rows(self.cursor.line as int) == before.rows(before.cursor.line as int));
            assert(self.row_here() == before.row_here());
        }
        let cur: usize = self.cursor_row();
        let rows = self.line_rows(self.cursor.line).0;
        proof {
            assert(row_views(rows@)[cur as int] == rows@[cur as int]@);
        }
        let off: usize = self.cursor.col.saturating_sub(1).saturating_sub(row_start(&rows[cur]));
        let here = Anchor { line: self.cursor.line, row: cur };
        proof {
            assert(self.stepped(here, dir > 0) == before.row_target(dir as int));
        }
        if let Some(to) = self.step_row(here, dir > 0) {
            let byte: usize = self.byte_in_row(to, off);
            proof {
                lemma_same_rows(before, *self);
                assert(to.row < self.rows(to.line as int).len());
                assert(byte == before.row_aim(to));
            }
            let ghost mid = *self;
            self.place(to.line, byte);
            proof {
                lemma_same_rows(before, *self);
                lemma_same_rows(mid, *self);
                assert(self.came_to(before, to.line as int, before.row_aim(to)));
                let b = snapped(text_at(mid.ls(), to.line as int), byte as int);
                lemma_snapped(text_at(mid.ls(), to.line as int), byte as int);
                assert(less(self.cursor.col as int, 1) == b);
                assert(self.row_here() == to.row);
            }
        }
    }

    pub fn toggle_pretty(&mut self)
        requires
            old(self).wf(),
        ensures
            final(self).wf(),
            *final(self) == (App {
                pretty: !old(self).pretty,
                status: final(self).status,
                ..*old(self)
            }),
            final(self).status@ == if old(self).pretty {
                "pretty off"@
            } else {
                "pretty on"@
            },
    {
        self.pretty = !self.pretty;
        self.status = if self.pretty {
            "pretty on".to_owned()
        } else {
            "pretty off".to_owned()
        };
    }

    /// The line `delta` lines on, as far as the document goes.
    pub open spec fn line_from(self, delta: int) -> int {
        clamp(self.cursor.line + delta, 1, self.total())
    }

    fn shift_line(&mut self, delta: i128)
        requires
            old(self).wf(),
            -0x7fffffff_ffffffff_80000000_00000000 <= delta <= 0x7fffffff_fffffffe_80000000_00000001,
        ensures
            final(self).wf(),
            final(self).came_to(
                *old(self),
                old(self).line_from(delta as int),
                less(old(self).cursor.col as int, 1),
            ),
    {
        self.drop_region();
        let n: usize = self.line_count();
        let target: i128 = self.cursor.line as i128 + delta;
        let line: usize = if target < 1 {
            1
        } else if target > n as i128 {
            n
        } else {
            target as usize
        };
        let byte: usize = self.cursor.col.saturating_sub(1);
        self.place(line, byte);
    }

    pub fn move_line(&mut self, delta: isize)
        requires
            old(self).wf(),
        ensures
            final(self).wf(),
            final(self).came_to(
                *old(self),
                old(self).line_from(delta as int),
                less(old(self).cursor.col as int, 1),
            ),
    {
        self.shift_line(delta as i128);
    }

    /// The character that a motion of `delta` characters reaches on the cursor's line.
    pub open spec fn char_from(self, delta: int) -> int {
        let text = text_at(self.ls(), self.cursor.line as int);
        let n = at_least_one(text.len() as int);
        clamp(char_of_byte(text, less(self.cursor.col as int, 1), n) + delta, 0, n - 1)
    }

    pub fn move_char(&mut self, delta: isize)
        requires
            old(self).wf(),
        ensures
            final(self).wf(),
            final(self).moved_from(*old(self)),
            final(self).region_dropped(*old(self)),
            final(self).cursor.line == old(self).cursor.line,
            final(self).cursor.col == offset(
                text_at(old(self).ls(), old(self).cursor.line as int),
                old(self).char_from(delta as int),
            ) + 1,
            1 <= old(self).cursor.line <= old(self).total() ==> final(self).placed(),
    {
        self.drop_region();
        let l = Laid::new(self.line_text(self.cursor.line));
        let n: usize = l.chars.len();
        let b: usize = self.cursor.col.saturating_sub(1);
        let count: usize = if n >= 1 {
            n
        } else {
            1
        };
        let mut k: usize = count;
        while k > 1 && l.offs[k - 1] > b
            invariant
                l.wf(),
                count >= 1,
                count == at_least_one(l.text@.len() as int),
                1 <= k <= count,
                char_of_byte(l.text@, b as int, k as int) == char_of_byte(
                    l.text@,
                    b as int,
                    count as int,
                ),
            decreases k,
        {
            k -= 1;
        }
        let at: i128 = (k - 1) as i128 + delta as i128;
        let next: usize = if at < 0 {
            0
        } else if at > (count - 1) as i128 {
            count - 1
        } else {
            at as usize
        };
        let _len: usize = byte_len(l.text);
        proof {
            let t = l.text@;
            lemma_offset_ends(t);
            lemma_offset_is_boundary(t, next as int);
            if t.len() > 0 {
                lemma_offset_mono(t, next as int, next + 1);
            }
            lemma_offset_mono(t, next as int, t.len() as int);
        }
        self.cursor = Pos::new(self.cursor.line, l.offs[next] + 1);
    }

    /// The unit `delta` units on, as far as the list goes.
    pub open spec fn unit_from(self, delta: int) -> Option<int> {
        match self.unit_here() {
            Some(i) => Some(clamp(i + delta, 0, self.blocks@.len() - 1)),
            None => None,
        }
    }

    pub fn move_block(&mut self, delta: isize)
        requires
            old(self).wf(),
        ensures
            final(self).wf(),
            match old(self).unit_from(delta as int) {
                None => final(self).stayed(*old(self)),
                Some(i) => final(self).came_to(
                    *old(self),
                    old(self).blocks@[i].span.start.line as int,
                    old(self).blocks@[i].span.start.col - 1,
                ),
            },
    {
        self.drop_region();
        if let Some(cur) = self.current_block() {
            let n: usize = self.blocks.len();
            let at: i128 = cur as i128 + delta as i128;
            let target: usize = if at < 0 {
                0
            } else if at > (n - 1) as i128 {
                n - 1
            } else {
                at as usize
            };
            proof {
                assert(on_file(self.blocks@[target as int], self.total()));
            }
            let start = self.blocks[target].span.start;
            self.place(start.line, start.col - 1);
        }
    }

    /// Rows or lines in a page: a half page, or a whole one with two lines of overlap.
    pub open spec fn page_step(self, half: bool) -> int {
        let v = at_least_one(self.viewport as int);
        if half {
            at_least_one(v / 2)
        } else {
            at_least_one(less(v, 2))
        }
    }

    /// Where a page of rows leads.
    pub open spec fn page_target(self, dir: int, half: bool) -> Anchor {
        self.walked(
            Anchor { line: self.cursor.line, row: self.row_here() as usize },
            self.page_step(half),
            dir > 0,
        )
    }

    /// Page the cursor. `dir` is +1 down / -1 up; a full page keeps two lines of overlap, so you
    /// never lose your place. A page is a page of rows while lines wrap, and of lines otherwise.
    pub fn page(&mut self, dir: isize, half: bool)
        requires
            old(self).wf(),
        ensures
            final(self).wf(),
            old(self).placed() ==> final(self).placed(),
            old(self).pretty && old(self).body_width > 0 ==> ({
                let to = old(self).page_target(dir as int, half);
                let rows = old(self).rows(to.line as int);
                final(self).came_to(
                    *old(self),
                    to.line as int,
                    first_src(rows[smaller(to.row as int, rows.len() - 1)]),
                )
            }),
            !(old(self).pretty && old(self).body_width > 0) ==> final(self).came_to(
                *old(self),
                old(self).line_from(dir * old(self).page_step(half)),
                less(old(self).cursor.col as int, 1),
            ),
    {
        let v: usize = if self.viewport >= 1 {
            self.viewport
        } else {
            1
        };
        let raw: usize = if half {
            v / 2
        } else {
            v.saturating_sub(2)
        };
        let step: usize = if raw >= 1 {
            raw
        } else {
            1
        };
        if self.pretty && self.body_width > 0 {
            let ghost before = *self;
            let _n: usize = self.lines.len();
            self.drop_region();
            proof {
                lemma_same_rows(before, *self);
            }
            let here = Anchor { line: self.cursor.line, row: self.cursor_row() };
            let to = self.walk_rows(here, step, dir > 0);
            let rows = self.line_rows(to.line).0;
            let n: usize = rows.len();
            let k: usize = if to.row <= n - 1 {
                to.row
            } else {
                n - 1
            };
            proof {
                lemma_same_walk(before, *self, here, step as int, dir > 0);
                if before.placed() {
                    lemma_walk_in_document(before, here, step as int, dir > 0);
                }
                assert(row_views(rows@)[k as int] == rows@[k as int]@);
                assert(row_views(rows@).len() == rows@.len());
            }
            let byte: usize = row_start(&rows[k]);
            self.place(to.line, byte);
        } else {
            proof {
                lemma_product_bound(dir, step);
            }
            self.shift_line(dir as i128 * step as i128);
        }
    }

    pub fn goto_first(&mut self)
        requires
            old(self).wf(),
        ensures
            final(self).wf(),
            final(self).moved_from(*old(self)),
            final(self).region_dropped(*old(self)),
            final(self).cursor == (Pos { line: 1, col: 1 }),
            final(self).placed(),
    {
        self.drop_region();
        self.cursor = Pos::new(1, 1);
        proof {
            crate::text::lemma_boundary_ends(text_at(self.ls(), 1));
        }
    }

    pub fn goto_last(&mut self)
        requires
            old(self).wf(),
        ensures
            final(self).wf(),
            final(self).came_to(*old(self), old(self).total(), 0),
            final(self).cursor.col == 1,
    {
        self.drop_region();
        let n: usize = self.line_count();
        self.place(n, 0);
    }

    pub fn goto_line_start(&mut self)
        requires
            old(self).wf(),
        ensures
            final(self).wf(),
            final(self).moved_from(*old(self)),
            final(self).region_dropped(*old(self)),
            final(self).cursor == (Pos { line: old(self).cursor.line, col: 1 }),
            1 <= old(self).cursor.line <= old(self).total() ==> final(self).placed(),
    {
        self.drop_region();
        self.cursor = Pos::new(self.cursor.line, 1);
        proof {
            crate::text::lemma_boundary_ends(text_at(self.ls(), self.cursor.line as int));
        }
    }

    pub fn goto_line_end(&mut self)
        requires
            old(self).wf(),
        ensures
            final(self).wf(),
            final(self).moved_from(*old(self)),
            final(self).region_dropped(*old(self)),
            final(self).cursor.line == old(self).cursor.line,
            final(self).cursor.col == snapped(
                text_at(old(self).ls(), old(self).cursor.line as int),
                blen(text_at(old(self).ls(), old(self).cursor.line as int)),
            ) + 1,
            1 <= old(self).cursor.line <= old(self).total() ==> final(self).placed(),
    {
        self.drop_region();
        let n: usize = self.line_len(self.cursor.line);
        let line: usize = self.cursor.line;
        self.place(line, n);
    }

    /// Where an inline motion leads.
    pub open spec fn inline_from(self, dir: int) -> Option<Pos> {
        let starts = inline_starts(self.tree.shape());
        if dir > 0 {
            next_stop(starts, self.cursor)
        } else {
            prev_stop(starts, self.cursor)
        }
    }

    /// How the place an inline motion came to is announced.
    pub open spec fn place_note(self) -> Seq<char> {
        let stack = self.stack_here();
        (if stack.len() > 0 {
            stack[0].0@
        } else {
            Seq::empty()
        }) + " L"@ + decimal(self.cursor.line as nat) + ":"@ + decimal(self.cursor.col as nat)
    }

    /// Step to the next/previous inline node start, and report where it landed, because the target
    /// may be off screen.
    pub fn move_inline(&mut self, dir: isize)
        requires
            old(self).wf(),
        ensures
            final(self).wf(),
            final(self).moved_from(*old(self)),
            final(self).sel == if old(self).sel is Region {
                Sel::Here
            } else {
                old(self).sel
            },
            match old(self).inline_from(dir as int) {
                None => final(self).cursor == old(self).cursor && final(self).status@
                    == "no further inline node"@,
                Some(pos) => final(self).cursor.line == pos.line && final(self).cursor.col
                    == snapped(text_at(old(self).ls(), pos.line as int), less(pos.col as int, 1))
                    + 1 && final(self).status@ == final(self).place_note() && final(self).placed(),
            },
    {
        self.drop_region();
        let target = if dir > 0 {
            next_inline(&self.tree, self.cursor)
        } else {
            prev_inline(&self.tree, self.cursor)
        };
        match target {
            None => {
                self.status = "no further inline node".to_owned();
            },
            Some(pos) => {
                proof {
                    lemma_inline_in_file(self.tree.shape(), self.total());
                    crate::blocks::law_next_stop_is_the_nearest(
                        inline_starts(self.tree.shape()),
                        self.cursor,
                    );
                    crate::blocks::law_prev_stop_is_the_nearest(
                        inline_starts(self.tree.shape()),
                        self.cursor,
                    );
                }
                self.place(pos.line, pos.col.saturating_sub(1));
                let stack = self.stack();
                let mut out = if stack.len() > 0 {
                    stack[0].0.to_owned()
                } else {
                    String::new()
                };
                out.append(" L");
                out.append(decimal_string(self.cursor.line).as_str());
                out.append(":");
                out.append(decimal_string(self.cursor.col).as_str());
                self.status = out;
            },
        }
    }
}

/// The byte of row `k` that is `off` bytes into it, or its end where it is not that long -- its last
/// character where the next row starts at that end.
pub open spec fn aim_in(rows: Seq<Seq<Piece>>, k: int, off: int) -> int {
    let room = less(last_src(rows[k]), first_src(rows[k]));
    first_src(rows[k]) + smaller(
        off,
        if k + 1 < rows.len() && first_src(rows[k + 1]) == last_src(rows[k]) {
            less(room, 1)
        } else {
            room
        },
    )
}

proof fn lemma_row_of_byte(rows: Seq<Seq<Piece>>, b: int, k: int, n: int)
    requires
        0 <= k < n <= rows.len(),
        k > 0 ==> first_src(rows[k]) <= b,
        forall|j: int| k < j < n ==> b < first_src(#[trigger] rows[j]),
    ensures
        row_of_byte(rows, b, n) == k,
    decreases n,
{
    if n > k + 1 {
        assert(b < first_src(rows[n - 1]));
        lemma_row_of_byte(rows, b, k, n - 1);
    } else {
        assert(k == 0 ==> row_of_byte(rows, b, 0) == 0);
    }
}

/// The character that a row is aimed at is in that row.
proof fn lemma_lands_on_row(app: App, line: int, k: int, off: int)
    requires
        0 <= k < app.rows(line).len(),
        off >= 0,
        blen(text_at(app.ls(), line)) <= usize::MAX,
    ensures
        row_of_byte(
            app.rows(line),
            snapped(text_at(app.ls(), line), aim_in(app.rows(line), k, off)),
            app.rows(line).len() as int,
        ) == k,
{
    let l = text_at(app.ls(), line);
    let t = app.shown(line);
    let rows = app.rows(line);
    let aim = aim_in(rows, k, off);
    let b = snapped(l, aim);
    if rows.len() == 1 {
        lemma_row_of_byte(rows, b, 0, 1);
    } else {
        let w = app.width();
        let rest = w - capped_hang(t, w);
        let ws = rows_of(t, w, rest);
        law_rows_partition_the_line(t, w, rest);
        lemma_replace_offsets(l, '\t', ' ', l.len() as int);
        lemma_offset_ends(l);
        lemma_offset_ends(t);
        assert forall|i: int| 0 <= i < ws.len() implies 0 <= (#[trigger] ws[i]).0 < ws[i].1 <= t.len()
            && first_src(rows[i]) == offset(t, ws[i].0) && last_src(rows[i]) == offset(t, ws[i].1) by {
            law_no_row_is_spent_on_nothing(t, w, rest, i);
            if i + 1 < ws.len() {
                assert(ws[i].1 <= ws[ws.len() - 1].0);
            }
            assert(ws.last() == ws[ws.len() - 1]);
            lemma_offset_mono(t, ws[i].0, ws[i].1);
            assert(rows[i] == one_src((offset(t, ws[i].0), offset(t, ws[i].1))));
            assert(rows[i][0] == Piece::Src(offset(t, ws[i].0) as usize, offset(t, ws[i].1) as usize));
            assert(rows[i].last() == rows[i][0]);
        }
        let (a, e) = ws[k];
        lemma_offset_mono(t, a, e);
        lemma_replace_offsets(l, '\t', ' ', a);
        lemma_offset_is_boundary(l, a);
        lemma_round(l, smaller(aim, at_least_one(blen(l)) - 1));
        lemma_floor_keeps_cut(l, offset(t, a), smaller(aim, at_least_one(blen(l)) - 1));
        assert forall|j: int| k < j < rows.len() implies b < first_src(#[trigger] rows[j]) by {
            assert(ws[k].1 <= ws[j].0);
            assert(ws[k].1 <= ws[k + 1].0);
            if j > k + 1 {
                assert(ws[k + 1].1 <= ws[j].0);
            }
            lemma_offset_mono(t, ws[k].1, ws[k + 1].0);
            lemma_offset_mono(t, ws[k + 1].0, ws[j].0);
        }
        lemma_row_of_byte(rows, b, k, rows.len() as int);
    }
}

proof fn lemma_product_bound(a: isize, b: usize)
    ensures
        -0x7fffffff_ffffffff_80000000_00000000 <= a * b <= 0x7fffffff_fffffffe_80000000_00000001,
{
    assert(-0x7fffffff_ffffffff_80000000_00000000 <= a * b <= 0x7fffffff_fffffffe_80000000_00000001) by (nonlinear_arith)
        requires
            -0x8000_0000_0000_0000 <= a <= 0x7fff_ffff_ffff_ffff,
            0 <= b <= 0xffff_ffff_ffff_ffff,
    ;
}

/// Rows depend on nothing that a motion changes.
proof fn lemma_same_rows(a: App, b: App)
    requires
        b.moved_from(a),
    ensures
        forall|line: int| #[trigger] a.rows(line) == b.rows(line),
        a.total() == b.total(),
        a.cursor == b.cursor ==> a.row_here() == b.row_here(),
{
}

proof fn lemma_same_walk(a: App, b: App, at: Anchor, n: int, down: bool)
    requires
        b.moved_from(a),
    ensures
        a.walked(at, n, down) == b.walked(at, n, down),
    decreases n,
{
    lemma_same_rows(a, b);
    if n > 0 {
        assert(a.stepped(at, down) == b.stepped(at, down));
        if let Some(next) = a.stepped(at, down) {
            lemma_same_walk(a, b, next, n - 1, down);
        }
    }
}

/// Walking from a line of the document leads to a line of the document.
pub proof fn lemma_walk_in_document(app: App, at: Anchor, n: int, down: bool)
    requires
        1 <= at.line <= app.total(),
        app.lines@.len() <= usize::MAX,
    ensures
        1 <= app.walked(at, n, down).line <= app.total(),
    decreases n,
{
    if n > 0 {
        if let Some(next) = app.stepped(at, down) {
            lemma_walk_in_document(app, next, n - 1, down);
        }
    }
}

proof fn lemma_inline_in_file(t: Tree, total: int)
    requires
        in_file(t, total),
    ensures
        forall|i: int|
            0 <= i < inline_starts(t).len() ==> 1 <= (#[trigger] inline_starts(t)[i]).line <= total,
    decreases t, 0int,
{
    let below = crate::blocks::inline_starts_in(t.kids, t.kids.len() as int);
    lemma_inline_in_file_kids(t.kids, t.kids.len() as int, total);
    let r = inline_starts(t);
    assert forall|i: int| 0 <= i < r.len() implies 1 <= (#[trigger] r[i]).line <= total by {
        if r.len() > below.len() {
            if i > 0 {
                assert(r[i] == below[i - 1]);
            }
        } else {
            assert(r[i] == below[i]);
        }
    }
}

proof fn lemma_inline_in_file_kids(kids: Seq<Tree>, n: int, total: int)
    requires
        forall|i: int| 0 <= i < kids.len() ==> in_file(#[trigger] kids[i], total),
    ensures
        forall|i: int|
            0 <= i < crate::blocks::inline_starts_in(kids, n).len() ==> 1 <= (
            #[trigger] crate::blocks::inline_starts_in(kids, n)[i]).line <= total,
    decreases kids, n,
{
    if 0 < n <= kids.len() {
        lemma_inline_in_file_kids(kids, n - 1, total);
        lemma_inline_in_file(kids[n - 1], total);
        let a = crate::blocks::inline_starts_in(kids, n - 1);
        let b = inline_starts(kids[n - 1]);
        let r = crate::blocks::inline_starts_in(kids, n);
        assert forall|i: int| 0 <= i < r.len() implies 1 <= (#[trigger] r[i]).line <= total by {
            if i < a.len() {
                assert(r[i] == a[i]);
            } else {
                assert(r[i] == b[i - a.len()]);
            }
        }
    }
}

// ---------------------------------------------------------------------------
// Marks
// ---------------------------------------------------------------------------

/// Some annotation covers `p`.
pub open spec fn answered(v: Seq<Annotation>, p: Pos) -> bool {
    exists|i: int| 0 <= i < v.len() && (#[trigger] v[i]).span().has(p)
}

/// The questions among the first `n` that no annotation covers.
pub open spec fn open_questions(qs: Seq<Pos>, v: Seq<Annotation>, n: int) -> Seq<Pos>
    decreases n,
{
    if n <= 0 {
        Seq::empty()
    } else if answered(v, qs[n - 1]) {
        open_questions(qs, v, n - 1)
    } else {
        open_questions(qs, v, n - 1).push(qs[n - 1])
    }
}

/// `s` with `p` behind it, unless `p` is in it already.
pub open spec fn with_pos(s: Seq<Pos>, p: Pos) -> Seq<Pos> {
    if s.contains(p) {
        s
    } else {
        s.push(p)
    }
}

/// Every position of `s` once.
pub open spec fn distinct(s: Seq<Pos>) -> Seq<Pos>
    decreases s.len(),
{
    if s.len() == 0 {
        s
    } else {
        with_pos(distinct(s.drop_last()), s.last())
    }
}

/// How many of the first `n` positions stand at or before `p`.
pub open spec fn rank(s: Seq<Pos>, p: Pos, n: int) -> int
    decreases n,
{
    if n <= 0 {
        0
    } else if s[n - 1].le(p) {
        rank(s, p, n - 1) + 1
    } else {
        rank(s, p, n - 1)
    }
}

/// The earliest of the first `n` positions.
pub open spec fn earliest(s: Seq<Pos>, n: int) -> Pos
    decreases n,
{
    if n <= 1 {
        s[0]
    } else {
        crate::blocks::pos_min(earliest(s, n - 1), s[n - 1])
    }
}

/// The latest of the first `n` positions.
pub open spec fn latest(s: Seq<Pos>, n: int) -> Pos
    decreases n,
{
    if n <= 1 {
        s[0]
    } else {
        crate::blocks::pos_max(latest(s, n - 1), s[n - 1])
    }
}

/// The mark after `from`, or before it, in document order, going round at either end.
pub open spec fn mark_from(marks: Seq<Pos>, from: Pos, forward: bool) -> Option<Pos> {
    let n = marks.len() as int;
    if n == 0 {
        None
    } else if forward {
        match next_stop(marks, from) {
            Some(p) => Some(p),
            None => Some(earliest(marks, n)),
        }
    } else {
        match prev_stop(marks, from) {
            Some(p) => Some(p),
            None => Some(latest(marks, n)),
        }
    }
}

fn add_pos(v: &mut Vec<Pos>, p: Pos)
    ensures
        final(v)@ == with_pos(old(v)@, p),
{
    let mut i: usize = 0;
    while i < v.len()
        invariant
            i <= v@.len(),
            v@ == old(v)@,
            forall|k: int| 0 <= k < i ==> v@[k] != p,
        decreases v@.len() - i,
    {
        if v[i] == p {
            assert(v@.contains(p));
            return;
        }
        i += 1;
    }
    v.push(p);
}

impl App {
    /// The starts of the annotations.
    pub open spec fn annotation_starts(self) -> Seq<Pos> {
        self.annotations@.map_values(|a: Annotation| a.span().start)
    }

    /// The marks: where the annotations start, and the questions that none of them answers.
    pub open spec fn mark_ring(self) -> Seq<Pos> {
        distinct(
            self.annotation_starts() + open_questions(
                self.questions@,
                self.annotations@,
                self.questions@.len() as int,
            ),
        )
    }

    pub open spec fn mark_note(self, p: Pos) -> Seq<char> {
        let ring = self.mark_ring();
        (if self.annotation_starts().contains(p) {
            "annotation "@
        } else {
            "question "@
        }) + decimal(rank(ring, p, ring.len() as int) as nat) + "/"@ + decimal(ring.len())
    }

    /// Is there an annotation that covers `p`?
    fn is_answered(&self, p: Pos) -> (r: bool)
        ensures
            r == answered(self.annotations@, p),
    {
        let mut i: usize = 0;
        while i < self.annotations.len()
            invariant
                i <= self.annotations@.len(),
                forall|k: int| 0 <= k < i ==> !(#[trigger] self.annotations@[k]).span().has(p),
            decreases self.annotations@.len() - i,
        {
            let a = &self.annotations[i];
            let span = Span {
                start: Pos::new(a.start_line, a.start_col),
                end: Pos::new(a.end_line, a.end_col),
            };
            if span.contains(p) {
                assert(self.annotations@[i as int].span().has(p));
                return true;
            }
            i += 1;
        }
        false
    }

    /// The marks of the document: each annotation and each unanswered question, once.
    pub fn mark_positions(&self) -> (r: Vec<Pos>)
        ensures
            r@ == self.mark_ring(),
    {
        let ghost starts = self.annotation_starts();
        let ghost open = open_questions(
            self.questions@,
            self.annotations@,
            self.questions@.len() as int,
        );
        let mut out: Vec<Pos> = Vec::new();
        let mut i: usize = 0;
        proof {
            assert(starts.take(0) =~= Seq::<Pos>::empty());
        }
        while i < self.annotations.len()
            invariant
                i <= self.annotations@.len(),
                starts == self.annotation_starts(),
                out@ == distinct(starts.take(i as int)),
            decreases self.annotations@.len() - i,
        {
            let a = &self.annotations[i];
            proof {
                assert(starts.take(i + 1).drop_last() =~= starts.take(i as int));
                assert(starts[i as int] == self.annotations@[i as int].span().start);
            }
            add_pos(&mut out, Pos::new(a.start_line, a.start_col));
            i += 1;
        }
        let mut k: usize = 0;
        proof {
            assert(starts.take(i as int) =~= starts + open_questions(
                self.questions@,
                self.annotations@,
                0,
            ));
        }
        while k < self.questions.len()
            invariant
                k <= self.questions@.len(),
                out@ == distinct(
                    starts + open_questions(self.questions@, self.annotations@, k as int),
                ),
            decreases self.questions@.len() - k,
        {
            let q = self.questions[k];
            let ghost so_far = open_questions(self.questions@, self.annotations@, k as int);
            if !self.is_answered(q) {
                add_pos(&mut out, q);
                proof {
                    let s = starts + so_far.push(q);
                    assert(s.drop_last() =~= starts + so_far);
                }
            }
            k += 1;
        }
        out
    }

    /// Go to the next or previous mark, in document order, wrapping at both ends, and report where
    /// that is in the ring.
    pub fn move_mark(&mut self, dir: isize)
        requires
            old(self).wf(),
        ensures
            final(self).wf(),
            final(self).moved_from(*old(self)),
            final(self).sel == if old(self).sel is Region {
                Sel::Here
            } else {
                old(self).sel
            },
            match mark_from(old(self).mark_ring(), old(self).cursor, dir > 0) {
                None => final(self).cursor == old(self).cursor && final(self).status@ == "no marks"@,
                Some(p) => final(self).cursor.line == p.line && final(self).cursor.col == snapped(
                    text_at(old(self).ls(), p.line as int),
                    less(p.col as int, 1),
                ) + 1 && final(self).status@ == old(self).mark_note(p) && (1 <= p.line
                    <= old(self).total() ==> final(self).placed()),
            },
    {
        let ghost before = *self;
        let ring = self.mark_positions();
        self.drop_region();
        let n: usize = ring.len();
        if n == 0 {
            self.status = "no marks".to_owned();
            return;
        }
        let from = self.cursor;
        let forward = dir > 0;
        let mut best: Option<Pos> = None;
        let mut edge = ring[0];
        let mut i: usize = 0;
        while i < n
            invariant
                n == ring@.len(),
                n >= 1,
                i <= n,
                best == if forward {
                    next_stop(ring@.take(i as int), from)
                } else {
                    prev_stop(ring@.take(i as int), from)
                },
                edge == if forward {
                    earliest(ring@, i as int)
                } else {
                    latest(ring@, i as int)
                },
            decreases n - i,
        {
            let p = ring[i];
            proof {
                assert(ring@.take(i + 1).drop_last() =~= ring@.take(i as int));
            }
            if forward {
                if from.before(p) {
                    best = match best {
                        None => Some(p),
                        Some(b) => if b.at_or_before(p) {
                            Some(b)
                        } else {
                            Some(p)
                        },
                    };
                }
                if i > 0 && !edge.at_or_before(p) {
                    edge = p;
                }
            } else {
                if p.before(from) {
                    best = match best {
                        None => Some(p),
                        Some(b) => if b.at_or_before(p) {
                            Some(p)
                        } else {
                            Some(b)
                        },
                    };
                }
                if i > 0 && edge.at_or_before(p) {
                    edge = p;
                }
            }
            i += 1;
        }
        proof {
            assert(ring@.take(n as int) =~= ring@);
        }
        let to = match best {
            Some(p) => p,
            None => edge,
        };
        let mut k: usize = 0;
        let mut at: usize = 0;
        while k < n
            invariant
                n == ring@.len(),
                at <= k <= n,
                at == rank(ring@, to, k as int),
            decreases n - k,
        {
            if ring[k].at_or_before(to) {
                at += 1;
            }
            k += 1;
        }
        let mut out = if self.starts_annotation(to) {
            "annotation ".to_owned()
        } else {
            "question ".to_owned()
        };
        out.append(decimal_string(at).as_str());
        out.append("/");
        out.append(decimal_string(n).as_str());
        self.place(to.line, to.col.saturating_sub(1));
        self.status = out;
    }

    fn starts_annotation(&self, p: Pos) -> (r: bool)
        ensures
            r == self.annotation_starts().contains(p),
    {
        let ghost starts = self.annotation_starts();
        let mut i: usize = 0;
        while i < self.annotations.len()
            invariant
                i <= self.annotations@.len(),
                starts == self.annotation_starts(),
                forall|k: int| 0 <= k < i ==> starts[k] != p,
            decreases self.annotations@.len() - i,
        {
            let a = &self.annotations[i];
            proof {
                assert(starts[i as int] == self.annotations@[i as int].span().start);
            }
            if Pos::new(a.start_line, a.start_col) == p {
                assert(starts[i as int] == p);
                return true;
            }
            i += 1;
        }
        false
    }

    /// Does an unanswered question stand on `line`?
    pub fn question_on(&self, line: usize) -> (r: bool)
        ensures
            r == exists|i: int|
                0 <= i < self.questions@.len() && (#[trigger] self.questions@[i]).line == line
                    && !answered(self.annotations@, self.questions@[i]),
    {
        let mut i: usize = 0;
        while i < self.questions.len()
            invariant
                i <= self.questions@.len(),
                forall|k: int|
                    0 <= k < i ==> !((#[trigger] self.questions@[k]).line == line && !answered(
                        self.annotations@,
                        self.questions@[k],
                    )),
            decreases self.questions@.len() - i,
        {
            let q = self.questions[i];
            if q.line == line && !self.is_answered(q) {
                assert(self.questions@[i as int].line == line);
                return true;
            }
            i += 1;
        }
        false
    }
}

// ---------------------------------------------------------------------------
// Peeking, annotating
// ---------------------------------------------------------------------------

/// Index of the last of the first `n` annotations that touch `line`; -1 where none does.
pub open spec fn last_on(v: Seq<Annotation>, line: int, n: int) -> int
    decreases n,
{
    if n <= 0 {
        -1
    } else if v[n - 1].start_line <= line <= v[n - 1].end_line {
        n - 1
    } else {
        last_on(v, line, n - 1)
    }
}

impl App {
    pub fn toggle_peek(&mut self)
        requires
            old(self).wf(),
        ensures
            final(self).wf(),
            *final(self) == (App {
                peek: !old(self).peek && old(self).selected() is Some,
                peek_scroll: 0,
                status: final(self).status,
                ..*old(self)
            }),
            if !old(self).peek && old(self).selected() is None {
                final(self).status@ == "nothing to peek at"@
            } else {
                final(self).status == old(self).status
            },
    {
        let nothing = self.selection().is_none();
        self.peek = !self.peek;
        self.peek_scroll = 0;
        if self.peek && nothing {
            self.peek = false;
            self.status = "nothing to peek at".to_owned();
        }
    }

    pub fn scroll_peek(&mut self, delta: isize)
        requires
            old(self).wf(),
        ensures
            final(self).wf(),
            *final(self) == (App { peek_scroll: final(self).peek_scroll, ..*old(self) }),
            final(self).peek_scroll == clamp(
                old(self).peek_scroll + delta,
                0,
                less(old(self).peek_rows as int, 1),
            ),
    {
        let at: i128 = self.peek_scroll as i128 + delta as i128;
        let most: usize = self.peek_rows.saturating_sub(1);
        self.peek_scroll = if at < 0 {
            0
        } else if at > most as i128 {
            most
        } else {
            at as usize
        };
    }

    /// The text the peek overlay shows: exactly what would be quoted.
    pub fn peek_text(&self) -> (r: String)
        requires
            self.wf(),
        ensures
            r@ == match self.selected() {
                Some(s) => self.sliced(s),
                None => Seq::empty(),
            },
    {
        match self.selection() {
            Some(s) => self.slice(s),
            None => String::new(),
        }
    }

    pub fn begin_comment(&mut self)
        requires
            old(self).wf(),
        ensures
            final(self).wf(),
            match old(self).selected() {
                None => *final(self) == (App { status: final(self).status, ..*old(self) })
                    && final(self).status@ == "nothing to annotate"@,
                Some(_) => *final(self) == (App {
                    mode: Mode::Input,
                    editor: final(self).editor,
                    ..*old(self)
                }) && final(self).editor.model() == old(self).editor.model().fresh(),
            },
    {
        if self.selection().is_none() {
            self.status = "nothing to annotate".to_owned();
            return;
        }
        self.mode = Mode::Input;
        self.editor.start_fresh();
    }

    /// The annotation that a comment on `span` makes.
    pub open spec fn note_for(self, span: Span, text: Seq<char>) -> Note {
        Note {
            id: id_of(self.next_id as int),
            kind: "comment",
            block_kind: self.selected_kind(),
            span,
            whole_lines: self.covers_lines(span),
            original_text: self.sliced(span),
            text,
        }
    }

    /// Where committing makes an annotation, there is an id left for it.
    pub open spec fn id_left(self) -> bool {
        trim(self.editor.model().text()).len() > 0 && self.selected() is Some ==> self.next_id
            < usize::MAX
    }

    /// What committing does: an empty comment is discarded, any other is recorded in the editor's
    /// history and annotates the selection.
    pub open spec fn committed(self, before: App) -> bool {
        let text = trim(before.editor.model().text());
        if text.len() == 0 {
            &&& self == (App {
                mode: Mode::Normal,
                editor: self.editor,
                status: self.status,
                ..before
            })
            &&& self.editor.model() == before.editor.model().fresh()
            &&& self.status@ == "empty comment discarded"@
        } else {
            &&& self.editor.model() == before.editor.model().submitted()
            &&& match before.selected() {
                None => self == (App { mode: Mode::Normal, editor: self.editor, ..before }),
                Some(span) => {
                    &&& self == (App {
                        mode: Mode::Normal,
                        editor: self.editor,
                        sel: Sel::Here,
                        status: self.status,
                        annotations: self.annotations,
                        next_id: (before.next_id + 1) as usize,
                        ..before
                    })
                    &&& self.annotations@.len() == before.annotations@.len() + 1
                    &&& self.annotations@.drop_last() == before.annotations@
                    &&& self.annotations@.last().model() == before.note_for(span, text)
                    &&& self.status@ == decimal(self.annotations@.len()) + " annotation(s)"@
                },
            }
        }
    }

    pub fn commit_comment(&mut self)
        requires
            old(self).wf(),
            old(self).id_left(),
        ensures
            final(self).wf(),
            final(self).committed(*old(self)),
    {
        let ghost before = *self;
        let text = trimmed(self.editor.text()).to_owned();
        self.mode = Mode::Normal;
        if text.as_str().as_bytes().len() == 0 {
            self.editor.start_fresh();
            self.status = "empty comment discarded".to_owned();
            proof {
                lemma_offset_ends(text@);
                lemma_offset_mono(text@, 0, text@.len() as int);
            }
            return;
        }
        proof {
            if text@.len() == 0 {
                lemma_offset_ends(text@);
                assert(text@ =~= Seq::<char>::empty());
            }
        }
        self.editor.submit();
        proof {
            assert(self.selected() == before.selected());
            assert(self.selected_kind() == before.selected_kind());
        }
        if let Some(span) = self.selection() {
            let kind = self.selection_kind();
            let quoted = self.slice(span);
            proof {
                lemma_same_slice(before, *self, span);
            }
            let mut id = "a".to_owned();
            id.append(decimal_string(self.next_id).as_str());
            self.next_id = self.next_id + 1;
            let whole = self.is_whole_lines(span);
            let ghost held = self.annotations@;
            self.annotations.push(
                Annotation {
                    id,
                    kind: "comment",
                    block_kind: kind,
                    start_line: span.start.line,
                    start_col: span.start.col,
                    end_line: span.end.line,
                    end_col: span.end.col,
                    whole_lines: whole,
                    original_text: quoted,
                    text,
                },
            );
            self.sel = Sel::Here;
            let mut out = decimal_string(self.annotations.len());
            out.append(" annotation(s)");
            self.status = out;
            proof {
                assert(self.annotations@.drop_last() =~= held);
                assert(self.annotations@.last().span() == span);
            }
        }
    }

    pub fn cancel_input(&mut self)
        requires
            old(self).wf(),
        ensures
            final(self).wf(),
            *final(self) == (App {
                mode: Mode::Normal,
                editor: final(self).editor,
                status: final(self).status,
                ..*old(self)
            }),
            final(self).editor.model() == old(self).editor.model().fresh(),
            final(self).status@ == "cancelled"@,
    {
        self.mode = Mode::Normal;
        self.editor.start_fresh();
        self.status = "cancelled".to_owned();
    }

    pub fn remove_at_cursor(&mut self)
        requires
            old(self).wf(),
        ensures
            final(self).wf(),
            *final(self) == (App {
                annotations: final(self).annotations,
                status: final(self).status,
                ..*old(self)
            }),
            ({
                let v = old(self).annotations@;
                let i = last_on(v, old(self).cursor.line as int, v.len() as int);
                if i >= 0 {
                    final(self).annotations@ == v.remove(i) && final(self).status@
                        == "annotation removed"@
                } else {
                    final(self).annotations@ == v && final(self).status@ == "no annotation here"@
                }
            }),
    {
        let line: usize = self.cursor.line;
        let n: usize = self.annotations.len();
        let mut k: usize = n;
        while k > 0 && !(line >= self.annotations[k - 1].start_line && line
            <= self.annotations[k - 1].end_line)
            invariant
                k <= n,
                n == self.annotations@.len(),
                last_on(self.annotations@, line as int, k as int) == last_on(
                    self.annotations@,
                    line as int,
                    n as int,
                ),
            decreases k,
        {
            k -= 1;
        }
        if k > 0 {
            self.annotations.remove(k - 1);
            self.status = "annotation removed".to_owned();
        } else {
            self.status = "no annotation here".to_owned();
        }
    }

    fn is_whole_lines(&self, span: Span) -> (r: bool)
        ensures
            r == self.covers_lines(span),
    {
        let n: usize = self.line_len(span.end.line);
        span.start.col == 1 && span.end.col >= if n >= 1 {
            n
        } else {
            1
        }
    }

    fn slice_line(&self, span: Span, line: usize) -> (r: String)
        ensures
            r@ == self.part(span, line as int),
    {
        let text = self.line_text(line);
        let n: usize = byte_len(text);
        proof {
            crate::text::lemma_boundary_ends(text@);
        }
        let a: usize = if line == span.start.line {
            floor_boundary(text, span.start.col.saturating_sub(1))
        } else {
            0
        };
        let b: usize = if line == span.end.line {
            ceil_boundary(text, span.end.col)
        } else {
            n
        };
        bytes_between(text, a, b).to_owned()
    }

    /// The exact source text a span covers.
    pub fn slice(&self, span: Span) -> (r: String)
        ensures
            r@ == self.sliced(span),
    {
        let mut parts: Vec<String> = Vec::new();
        let (from, to) = (span.start.line, span.end.line);
        let ghost count: nat = if to - from + 1 >= 0 {
            (to - from + 1) as nat
        } else {
            0
        };
        let ghost all = Seq::new(count, |i: int| self.part(span, from + i));
        proof {
            assert(texts(parts@) =~= all.take(0));
        }
        if from <= to {
            let mut line: usize = from;
            loop
                invariant_except_break
                    texts(parts@) == all.take(line - from),
                invariant
                    from <= line <= to,
                    from == span.start.line,
                    to == span.end.line,
                    count == to - from + 1,
                    all == Seq::new(count, |i: int| self.part(span, from + i)),
                ensures
                    texts(parts@) == all,
                decreases to - line,
            {
                let ghost before = parts@;
                let s = self.slice_line(span, line);
                proof {
                    assert(texts(before.push(s)) =~= texts(before).push(s@));
                    assert(all.take(line - from + 1) =~= all.take(line - from).push(all[line - from]));
                }
                parts.push(s);
                if line == to {
                    proof {
                        assert(all.take(line - from + 1) =~= all);
                    }
                    break;
                }
                line += 1;
            }
        }
        proof {
            if from > to {
                assert(texts(parts@) =~= all);
            }
        }
        joined(&parts, "\n")
    }
}

/// What a span covers depends on the lines alone.
proof fn lemma_same_slice(a: App, b: App, span: Span)
    requires
        a.lines == b.lines,
    ensures
        a.sliced(span) == b.sliced(span),
        a.covers_lines(span) == b.covers_lines(span),
{
    let n = span.end.line - span.start.line + 1;
    let count: nat = if n >= 0 {
        n as nat
    } else {
        0
    };
    assert(Seq::new(count, |i: int| a.part(span, span.start.line + i)) =~= Seq::new(
        count,
        |i: int| b.part(span, span.start.line + i),
    ));
}

// ---------------------------------------------------------------------------
// Output
// ---------------------------------------------------------------------------

/// The lines of a text as it is quoted: between line feeds, without the carriage return before one,
/// and without the empty rest behind the last.
pub open spec fn quote_lines(s: Seq<char>) -> Seq<Seq<char>> {
    let ps = split_on(s, '\n');
    let n = ps.len() as int;
    Seq::new(
        if ps.last().len() == 0 {
            (n - 1) as nat
        } else {
            n as nat
        },
        |i: int|
            if i < n - 1 && ps[i].len() > 0 && ps[i].last() == '\r' {
                ps[i].drop_last()
            } else {
                ps[i]
            },
    )
}

/// The first `n` lines, each behind a quote marker.
pub open spec fn quoted(lines: Seq<Seq<char>>, n: int) -> Seq<char>
    decreases n,
{
    if n <= 0 {
        Seq::empty()
    } else {
        quoted(lines, n - 1) + "> "@ + lines[n - 1] + "\n"@
    }
}

/// Where an annotation stands, under the name a human knows the file by.
pub open spec fn location(name: Seq<char>, a: Note) -> Seq<char> {
    let (s, e) = (a.span.start, a.span.end);
    if a.whole_lines {
        if s.line == e.line {
            name + ":"@ + decimal(s.line as nat)
        } else {
            name + ":"@ + decimal(s.line as nat) + "-"@ + decimal(e.line as nat)
        }
    } else if s.line == e.line {
        name + ":"@ + decimal(s.line as nat) + ":"@ + decimal(s.col as nat) + "-"@ + decimal(
            e.col as nat,
        )
    } else {
        name + ":"@ + decimal(s.line as nat) + ":"@ + decimal(s.col as nat) + "-"@ + decimal(
            e.line as nat,
        ) + ":"@ + decimal(e.col as nat)
    }
}

/// One section of the feedback: location and kind, the quoted source, the comment.
pub open spec fn section(name: Seq<char>, a: Note) -> Seq<char> {
    let lines = quote_lines(a.original_text);
    "\n## "@ + location(name, a) + " · "@ + a.block_kind + "\n"@ + quoted(lines, lines.len() as int)
        + "\n"@ + a.text + "\n"@
}

/// The sections of the first `n` annotations.
pub open spec fn sections(name: Seq<char>, v: Seq<Note>, n: int) -> Seq<char>
    decreases n,
{
    if n <= 0 {
        Seq::empty()
    } else {
        sections(name, v, n - 1) + section(name, v[n - 1])
    }
}

/// The feedback on a file called `name`; nothing where there are no annotations.
pub open spec fn feedback(name: Seq<char>, v: Seq<Note>) -> Seq<char> {
    if v.len() == 0 {
        Seq::empty()
    } else {
        "# Review feedback: "@ + name + "\n"@ + sections(name, v, v.len() as int)
    }
}

pub open spec fn opt_text(s: Option<String>) -> Option<Seq<char>> {
    match s {
        Some(s) => Some(s@),
        None => None,
    }
}

fn push_quoted(out: &mut String, s: &str)
    ensures
        final(out)@ == old(out)@ + quoted(quote_lines(s@), quote_lines(s@).len() as int),
{
    let ps = pieces(s, '\n');
    let ghost views = slices(ps@);
    let ghost lines = quote_lines(s@);
    let ghost start = out@;
    let n: usize = ps.len();
    proof {
        assert(split_on(s@, '\n').len() >= 1);
    }
    let mut i: usize = 0;
    while i < n
        invariant
            n == ps@.len(),
            i <= n,
            n >= 1,
            views == slices(ps@),
            views == split_on(s@, '\n'),
            lines == quote_lines(s@),
            out@ == start + quoted(
                lines,
                if i <= lines.len() {
                    i as int
                } else {
                    lines.len() as int
                },
            ),
        decreases n - i,
    {
        let l = Laid::new(ps[i]);
        let m: usize = l.chars.len();
        proof {
            assert(views[i as int] == ps@[i as int]@);
        }
        if !(i == n - 1 && m == 0) {
            let end: usize = if i < n - 1 && m > 0 && l.chars[m - 1] == '\r' {
                m - 1
            } else {
                m
            };
            let part = l.sub(0, end);
            proof {
                if end < m {
                    assert(part@ =~= views[i as int].drop_last());
                } else {
                    assert(part@ =~= views[i as int]);
                }
                assert(lines[i as int] == part@);
            }
            out.append("> ");
            out.append(part);
            out.append("\n");
            proof {
                assert(out@ =~= start + quoted(lines, i + 1));
            }
        }
        i += 1;
    }
}

impl App {
    /// The name a human knows the file by.
    pub open spec fn shown_name(self) -> Seq<char> {
        match self.label {
            Some(s) => s@,
            None => self.path@,
        }
    }

    /// What a human should see this file called.
    pub fn display_name(&self) -> (r: &str)
        ensures
            r@ == self.shown_name(),
    {
        match &self.label {
            Some(s) => s.as_str(),
            None => self.path.as_str(),
        }
    }

    fn loc(&self, a: &Annotation) -> (r: String)
        ensures
            r@ == location(self.shown_name(), a.model()),
    {
        let mut out = self.display_name().to_owned();
        out.append(":");
        out.append(decimal_string(a.start_line).as_str());
        if a.whole_lines {
            if a.start_line != a.end_line {
                out.append("-");
                out.append(decimal_string(a.end_line).as_str());
            }
        } else {
            out.append(":");
            out.append(decimal_string(a.start_col).as_str());
            out.append("-");
            if a.start_line != a.end_line {
                out.append(decimal_string(a.end_line).as_str());
                out.append(":");
            }
            out.append(decimal_string(a.end_col).as_str());
        }
        out
    }

    pub fn feedback_markdown(&self) -> (r: String)
        ensures
            r@ == feedback(self.shown_name(), notes(self.annotations@)),
    {
        if self.annotations.len() == 0 {
            return String::new();
        }
        let ghost name = self.shown_name();
        let ghost v = notes(self.annotations@);
        let mut out = "# Review feedback: ".to_owned();
        out.append(self.display_name());
        out.append("\n");
        let ghost head = out@;
        let mut i: usize = 0;
        proof {
            assert(out@ =~= head + sections(name, v, 0));
        }
        while i < self.annotations.len()
            invariant
                i <= self.annotations@.len(),
                name == self.shown_name(),
                v == notes(self.annotations@),
                out@ == head + sections(name, v, i as int),
            decreases self.annotations@.len() - i,
        {
            let a = &self.annotations[i];
            let ghost before = out@;
            proof {
                assert(v[i as int] == self.annotations@[i as int].model());
            }
            out.append("\n## ");
            out.append(self.loc(a).as_str());
            out.append(" · ");
            out.append(a.block_kind.as_str());
            out.append("\n");
            push_quoted(&mut out, a.original_text.as_str());
            out.append("\n");
            out.append(a.text.as_str());
            out.append("\n");
            proof {
                assert(out@ =~= before + section(name, v[i as int]));
                assert(out@ =~= head + sections(name, v, i + 1));
            }
            i += 1;
        }
        out
    }

    pub fn result(&self) -> (r: Outcome)
        ensures
            r.version == 1,
            r.decision@ == if self.annotations@.len() == 0 {
                "approved"@
            } else {
                "changes-requested"@
            },
            r.source.path@ == self.path@,
            opt_text(r.source.label) == opt_text(self.label),
            r.source.lines == self.lines@.len(),
            notes(r.annotations@) == notes(self.annotations@),
            r.annotations@.len() == self.annotations@.len(),
            forall|i: int|
                0 <= i < r.annotations@.len() ==> (#[trigger] r.annotations@[i]).text@
                    == self.annotations@[i].text@ && r.annotations@[i].original_text@
                    == self.annotations@[i].original_text@ && r.annotations@[i].id@
                    == self.annotations@[i].id@ && r.annotations@[i].block_kind@
                    == self.annotations@[i].block_kind@ && r.annotations@[i].kind
                    == self.annotations@[i].kind && r.annotations@[i].span()
                    == self.annotations@[i].span() && r.annotations@[i].whole_lines
                    == self.annotations@[i].whole_lines,
            r.feedback_markdown@ == feedback(self.shown_name(), notes(self.annotations@)),
    {
        let mut copies: Vec<Annotation> = Vec::new();
        let mut i: usize = 0;
        proof {
            assert(notes(copies@) =~= notes(self.annotations@).take(0));
        }
        while i < self.annotations.len()
            invariant
                i <= self.annotations@.len(),
                notes(copies@) == notes(self.annotations@).take(i as int),
                copies@.len() == i,
                forall|k: int|
                    0 <= k < i ==> (#[trigger] copies@[k]).text@ == self.annotations@[k].text@
                        && copies@[k].original_text@ == self.annotations@[k].original_text@
                        && copies@[k].id@ == self.annotations@[k].id@ && copies@[k].block_kind@
                        == self.annotations@[k].block_kind@ && copies@[k].kind
                        == self.annotations@[k].kind && copies@[k].span()
                        == self.annotations@[k].span() && copies@[k].whole_lines
                        == self.annotations@[k].whole_lines,
            decreases self.annotations@.len() - i,
        {
            let ghost before = copies@;
            let c = self.annotations[i].clone();
            proof {
                let all = notes(self.annotations@);
                assert(notes(before.push(c)) =~= notes(before).push(c.model()));
                assert(all.take(i + 1) =~= all.take(i as int).push(all[i as int]));
            }
            copies.push(c);
            i += 1;
        }
        proof {
            assert(notes(self.annotations@).take(i as int) =~= notes(self.annotations@));
        }
        let label = match &self.label {
            Some(s) => Some(s.clone()),
            None => None,
        };
        Outcome {
            version: 1,
            decision: if self.annotations.len() == 0 {
                "approved"
            } else {
                "changes-requested"
            },
            source: Source { path: self.path.clone(), label, lines: self.lines.len() },
            annotations: copies,
            feedback_markdown: self.feedback_markdown(),
        }
    }
}

// ---------------------------------------------------------------------------
// Laws
// ---------------------------------------------------------------------------

proof fn lemma_first_wider(stack: Seq<(&'static str, Span)>, cur: Span, i: int)
    requires
        0 <= i < stack.len(),
    ensures
        i <= first_wider(stack, cur, i) < stack.len(),
        forall|k: int| i <= k < first_wider(stack, cur, i) ==> !wider((#[trigger] stack[k]).1, cur),
        first_wider(stack, cur, i) < stack.len() - 1 ==> wider(
            stack[first_wider(stack, cur, i)].1,
            cur,
        ),
    decreases stack.len() - i,
{
    if i < stack.len() - 1 && !wider(stack[i].1, cur) {
        lemma_first_wider(stack, cur, i + 1);
    }
}

proof fn lemma_last_narrower(stack: Seq<(&'static str, Span)>, cur: Span, n: int)
    requires
        0 < n <= stack.len(),
    ensures
        0 <= last_narrower(stack, cur, n) < n,
        forall|k: int| last_narrower(stack, cur, n) < k < n ==> !wider(cur, (#[trigger] stack[k]).1),
        last_narrower(stack, cur, n) > 0 ==> wider(cur, stack[last_narrower(stack, cur, n)].1),
    decreases n,
{
    if n > 1 && !wider(cur, stack[n - 1].1) {
        lemma_last_narrower(stack, cur, n - 1);
    }
}

/// Widening takes the innermost node around the cursor that is strictly wider than the selection,
/// and the document where there is none. So where the document covers the selection, it never
/// shrinks, and repeating it ends at the document.
pub proof fn law_widening_never_shrinks(before: App, after: App, cur: Span)
    requires
        after.took_region(before, before.wider_depth()),
        before.stack_here().len() > 0,
        before.stack_here().len() <= usize::MAX,
        before.selected() == Some(cur),
    ensures
        after.selected() is Some,
        (exists|k: int|
            0 <= k < before.stack_here().len() && wider((#[trigger] before.stack_here()[k]).1, cur))
            ==> wider(after.selected()->0, cur),
        forall|k: int|
            0 <= k < before.wider_depth() ==> !wider((#[trigger] before.stack_here()[k]).1, cur),
        before.stack_here().last().1.covers(cur) ==> after.selected()->0.covers(cur),
        (forall|k: int|
            0 <= k < before.stack_here().len() ==> !wider(
                (#[trigger] before.stack_here()[k]).1,
                cur,
            )) ==> after.selected()->0 == before.stack_here().last().1,
{
    let stack = before.stack_here();
    lemma_first_wider(stack, cur, 0);
    assert(after.stack_here() == stack);
}

/// Narrowing takes the outermost node around the cursor that is strictly narrower than the
/// selection, and the innermost one where there is none.
pub proof fn law_narrowing_goes_one_step_in(before: App, after: App, cur: Span)
    requires
        after.took_region(before, before.narrower_depth()),
        before.stack_here().len() > 0,
        before.stack_here().len() <= usize::MAX,
        before.selected() == Some(cur),
    ensures
        after.selected() is Some,
        (exists|k: int|
            0 < k < before.stack_here().len() && wider(cur, (#[trigger] before.stack_here()[k]).1))
            ==> wider(cur, after.selected()->0),
        forall|k: int|
            before.narrower_depth() < k < before.stack_here().len() ==> !wider(
                cur,
                (#[trigger] before.stack_here()[k]).1,
            ),
        before.narrower_depth() == 0 ==> after.selected()->0 == before.stack_here()[0].1,
{
    let stack = before.stack_here();
    lemma_last_narrower(stack, cur, stack.len() as int);
    assert(after.stack_here() == stack);
}

/// Rendering reaches nothing that is written out: whether lines wrap and tables align, how wide the
/// pane is and whether the overlay is up change neither what is selected, nor what it is called, nor
/// the text it covers, nor the annotation that a comment on it makes.
pub proof fn law_rendering_does_not_reach_the_output(a: App, b: App, span: Span, text: Seq<char>)
    requires
        b == (App {
            pretty: b.pretty,
            body_width: b.body_width,
            viewport: b.viewport,
            peek: b.peek,
            peek_scroll: b.peek_scroll,
            peek_rows: b.peek_rows,
            status: b.status,
            ..a
        }),
    ensures
        a.selected() == b.selected(),
        a.selected_kind() == b.selected_kind(),
        a.sliced(span) == b.sliced(span),
        a.note_for(span, text) == b.note_for(span, text),
        feedback(a.shown_name(), notes(a.annotations@)) == feedback(
            b.shown_name(),
            notes(b.annotations@),
        ),
{
    lemma_same_slice(a, b, span);
}

/// A row and its neighbour: stepping down and up again returns, and so does stepping up and down.
pub proof fn law_row_steps_undo_each_other(app: App, at: Anchor)
    requires
        1 <= at.line <= app.total(),
        at.row < app.height(at.line as int),
        app.lines@.len() <= usize::MAX,
        forall|line: int| #[trigger] app.height(line) <= usize::MAX,
    ensures
        app.stepped(at, true) matches Some(b) ==> app.stepped(b, false) == Some(at),
        app.stepped(at, false) matches Some(b) ==> app.stepped(b, true) == Some(at),
{
    assert(app.height(at.line as int) <= usize::MAX);
    assert(app.height(at.line - 1) <= usize::MAX);
}

/// The piece is cut at characters of `text`.
pub open spec fn piece_cut(p: Piece, text: Seq<char>) -> bool {
    match p {
        Piece::Src(s, e) => s <= e && is_cut(text, s as int) && is_cut(text, e as int),
        Piece::Pad { .. } => true,
    }
}

proof fn lemma_char_is_cut(line: Seq<char>, i: int)
    requires
        crate::table::on_char(line, i),
    ensures
        is_cut(replace_char(line, '\t', ' '), i),
{
    let t = replace_char(line, '\t', ' ');
    let k = choose|k: int| 0 <= k <= line.len() && #[trigger] offset(line, k) == i;
    lemma_replace_offsets(line, '\t', ' ', k);
    lemma_offset_is_boundary(t, k);
    lemma_offset_mono(t, k, t.len() as int);
}

proof fn lemma_spliced_cut(line: Seq<char>, pads: Seq<crate::table::Pad>, n: int)
    requires
        pads_between(line, pads),
        0 <= n <= pads.len(),
    ensures
        forall|i: int|
            0 <= i < crate::table::spliced(pads, n).len() ==> piece_cut(
                #[trigger] crate::table::spliced(pads, n)[i],
                replace_char(line, '\t', ' '),
            ),
        is_cut(replace_char(line, '\t', ' '), crate::table::splice_at(pads, n)),
    decreases n,
{
    let t = replace_char(line, '\t', ' ');
    if n <= 0 {
        crate::text::lemma_boundary_ends(t);
        lemma_offset_ends(t);
        lemma_offset_mono(t, 0, t.len() as int);
    } else {
        lemma_spliced_cut(line, pads, n - 1);
        let p = pads[n - 1];
        assert(crate::table::on_char(line, p.at as int));
        lemma_char_is_cut(line, p.at as int);
        let before = crate::table::spliced(pads, n - 1);
        let r = crate::table::spliced(pads, n);
        assert forall|i: int| 0 <= i < r.len() implies piece_cut(#[trigger] r[i], t) by {
            if i < before.len() {
                assert(r[i] == before[i]);
            }
        }
    }
}

/// Whatever the mode and the width, a line has a row, the first row starts where the line does, and
/// every source piece of every row is cut at characters of the line. A padded line is exactly one
/// row that shows the whole line; a line that is not padded is windows of the line in order with
/// nothing but spaces left out between them.
pub proof fn law_rows_show_the_line(app: App, line: int)
    requires
        app.wf(),
        1 <= line <= app.lines@.len(),
        blen(app.ls()[line - 1]) <= usize::MAX,
    ensures
        app.rows(line).len() >= 1,
        first_src(app.rows(line)[0]) == 0,
        forall|i: int, j: int|
            0 <= i < app.rows(line).len() && 0 <= j < app.rows(line)[i].len() ==> piece_cut(
                #[trigger] app.rows(line)[i][j],
                app.shown(line),
            ),
        pads_at(app.tables.model(), line, app.width()) is Some ==> app.rows(line).len() == 1
            && crate::table::shows(app.rows(line)[0], blen(app.shown(line))),
        pads_at(app.tables.model(), line, app.width()) is None && app.width() > 0 ==> crate::wrap::tiled(
            app.shown(line),
            rows_of(app.shown(line), app.width(), app.width() - capped_hang(app.shown(line), app.width())),
            app.shown(line).len() as int,
        ),
{
    let l = app.ls()[line - 1];
    let t = app.shown(line);
    assert(text_at(app.ls(), line) == l);
    lemma_replace_offsets(l, '\t', ' ', l.len() as int);
    lemma_offset_ends(l);
    lemma_offset_ends(t);
    crate::text::lemma_boundary_ends(t);
    lemma_offset_mono(t, 0, t.len() as int);
    let rows = app.rows(line);
    match pads_at(app.tables.model(), line, app.width()) {
        Some(pads) => {
            let n = pads.len() as int;
            assert(app.tables.model()[line - 1] is Some);
            assert(pads_between(l, pads));
            lemma_spliced_cut(l, pads, n);
            let row = padded_row(blen(t), pads);
            assert forall|j: int| 0 <= j < row.len() implies piece_cut(#[trigger] row[j], t) by {
                if j < crate::table::spliced(pads, n).len() {
                    assert(row[j] == crate::table::spliced(pads, n)[j]);
                }
            }
            crate::table::law_padded_row_shows_the_whole_line(l, pads);
            lemma_first_of_shown(row, blen(t));
        },
        None => {
            let w = app.width();
            if w == 0 {
                assert(rows[0][0] == Piece::Src(0, blen(t) as usize));
            } else {
                let rest = w - capped_hang(t, w);
                law_rows_partition_the_line(t, w, rest);
                let ws = rows_of(t, w, rest);
                assert forall|i: int, j: int|
                    0 <= i < rows.len() && 0 <= j < rows[i].len() implies piece_cut(
                    #[trigger] rows[i][j],
                    t,
                ) by {
                    let (a, b) = ws[i];
                    if i + 1 < ws.len() {
                        assert(ws[i].1 <= ws[ws.len() - 1].0);
                    }
                    assert(ws.last() == ws[ws.len() - 1]);
                    assert(0 <= a <= b <= t.len());
                    lemma_offset_mono(t, a, b);
                    lemma_offset_is_boundary(t, a);
                    lemma_offset_is_boundary(t, b);
                }
                assert(ws[0].0 == 0);
                assert(rows[0][0] == Piece::Src(offset(t, 0) as usize, offset(t, ws[0].1) as usize));
            }
        },
    }
}

proof fn lemma_first_of_shown(row: Seq<Piece>, to: int)
    requires
        crate::table::shows(row, to),
    ensures
        first_src(row) == 0,
    decreases row.len(),
{
    if row.len() > 0 {
        let d = row.drop_last();
        match row.last() {
            Piece::Src(s, _) => {
                lemma_first_of_shown(d, s as int);
                lemma_first_src_push(d, row.last());
                assert(d.push(row.last()) =~= row);
                if !has_src(d) {
                    lemma_shows_without_src(d, s as int);
                }
            },
            Piece::Pad { .. } => {
                lemma_first_of_shown(d, to);
                lemma_first_src_push(d, row.last());
                assert(d.push(row.last()) =~= row);
            },
        }
    }
}

spec fn has_src(row: Seq<Piece>) -> bool {
    exists|i: int| 0 <= i < row.len() && (#[trigger] row[i]) is Src
}

proof fn lemma_first_src_push(row: Seq<Piece>, p: Piece)
    ensures
        has_src(row) ==> first_src(row.push(p)) == first_src(row),
        !has_src(row) ==> first_src(row.push(p)) == match p {
            Piece::Src(s, _) => s as int,
            Piece::Pad { .. } => 0,
        },
    decreases row.len(),
{
    if row.len() == 0 {
        reveal_with_fuel(first_src, 2);
        assert(row.push(p).drop_first() =~= row);
    } else {
        let d = row.drop_first();
        assert(row.push(p).drop_first() =~= d.push(p));
        assert(row.push(p)[0] == row[0]);
        match row[0] {
            Piece::Src(_, _) => {
                assert(row[0] is Src);
            },
            Piece::Pad { .. } => {
                lemma_first_src_push(d, p);
                if has_src(row) {
                    let i = choose|i: int| 0 <= i < row.len() && (#[trigger] row[i]) is Src;
                    assert(d[i - 1] is Src);
                } else {
                    if has_src(d) {
                        let i = choose|i: int| 0 <= i < d.len() && (#[trigger] d[i]) is Src;
                        assert(row[i + 1] is Src);
                    }
                }
            },
        }
    }
}

proof fn lemma_shows_without_src(row: Seq<Piece>, to: int)
    requires
        crate::table::shows(row, to),
        !has_src(row),
    ensures
        to == 0,
    decreases row.len(),
{
    if row.len() > 0 {
        assert(row[row.len() - 1] == row.last());
        let d = row.drop_last();
        if has_src(d) {
            let i = choose|i: int| 0 <= i < d.len() && (#[trigger] d[i]) is Src;
            assert(row[i] is Src);
        }
        lemma_shows_without_src(d, to);
    }
}

proof fn lemma_distinct_has(s: Seq<Pos>, p: Pos)
    ensures
        distinct(s).contains(p) <==> s.contains(p),
    decreases s.len(),
{
    if s.len() > 0 {
        let d = s.drop_last();
        let q = distinct(d);
        let r = distinct(s);
        lemma_distinct_has(d, p);
        if s.contains(p) {
            let i = choose|i: int| 0 <= i < s.len() && s[i] == p;
            if i < d.len() {
                assert(d[i] == p);
                assert(q.contains(p));
            }
            if q.contains(p) {
                let k = choose|k: int| 0 <= k < q.len() && q[k] == p;
                assert(r[k] == p);
            } else {
                assert(r[r.len() - 1] == p);
            }
        }
        if r.contains(p) {
            let i = choose|i: int| 0 <= i < r.len() && r[i] == p;
            if i < q.len() {
                assert(q[i] == p);
                assert(d.contains(p));
                let k = choose|k: int| 0 <= k < d.len() && d[k] == p;
                assert(s[k] == p);
            } else {
                assert(s[s.len() - 1] == p);
            }
        }
    }
}

proof fn lemma_distinct(s: Seq<Pos>)
    ensures
        forall|i: int, j: int|
            0 <= i < j < distinct(s).len() ==> #[trigger] distinct(s)[i] != #[trigger] distinct(s)[j],
    decreases s.len(),
{
    if s.len() > 0 {
        let d = s.drop_last();
        let r = distinct(s);
        let q = distinct(d);
        lemma_distinct(d);
        assert forall|i: int, j: int| 0 <= i < j < r.len() implies #[trigger] r[i] != #[trigger] r[j] by {
            if j < q.len() {
                assert(q[i] != q[j]);
            } else {
                assert(r[i] == q[i]);
                assert(!q.contains(s.last()));
            }
        }
    }
}

proof fn lemma_open_questions(qs: Seq<Pos>, v: Seq<Annotation>, n: int, p: Pos)
    requires
        0 <= n <= qs.len(),
    ensures
        open_questions(qs, v, n).contains(p) <==> !answered(v, p) && qs.take(n).contains(p),
    decreases n,
{
    let r = open_questions(qs, v, n);
    if n > 0 {
        lemma_open_questions(qs, v, n - 1, p);
        let b = open_questions(qs, v, n - 1);
        if r.contains(p) {
            let k = choose|k: int| 0 <= k < r.len() && r[k] == p;
            if k < b.len() {
                assert(b[k] == p);
                assert(b.contains(p));
                let t = qs.take(n - 1);
                let i = choose|i: int| 0 <= i < t.len() && t[i] == p;
                assert(qs.take(n)[i] == p);
            } else {
                assert(qs.take(n)[n - 1] == p);
            }
        }
        if !answered(v, p) && qs.take(n).contains(p) {
            let t = qs.take(n);
            let i = choose|i: int| 0 <= i < t.len() && t[i] == p;
            if i < n - 1 {
                assert(qs.take(n - 1)[i] == p);
                assert(b.contains(p));
                let k = choose|k: int| 0 <= k < b.len() && b[k] == p;
                assert(r[k] == p);
            } else {
                assert(r[r.len() - 1] == p);
            }
        }
    }
}

/// The ring of marks holds, once each, the start of every annotation and every question that no
/// annotation covers, and nothing else: commenting on a question takes it out.
pub proof fn law_marks_are_annotations_and_open_questions(app: App, p: Pos)
    ensures
        app.mark_ring().contains(p) <==> app.annotation_starts().contains(p) || (
        app.questions@.contains(p) && !answered(app.annotations@, p)),
        forall|i: int, j: int|
            0 <= i < j < app.mark_ring().len() ==> #[trigger] app.mark_ring()[i]
                != #[trigger] app.mark_ring()[j],
{
    let n = app.questions@.len() as int;
    let a = app.annotation_starts();
    let b = open_questions(app.questions@, app.annotations@, n);
    lemma_distinct(a + b);
    lemma_distinct_has(a + b, p);
    lemma_open_questions(app.questions@, app.annotations@, n, p);
    assert(app.questions@.take(n) =~= app.questions@);
    assert((a + b).contains(p) <==> a.contains(p) || b.contains(p)) by {
        if a.contains(p) {
            let k = choose|k: int| 0 <= k < a.len() && a[k] == p;
            assert((a + b)[k] == p);
        }
        if b.contains(p) {
            let k = choose|k: int| 0 <= k < b.len() && b[k] == p;
            assert((a + b)[a.len() + k] == p);
        }
        if (a + b).contains(p) {
            let k = choose|k: int| 0 <= k < (a + b).len() && (a + b)[k] == p;
            if k < a.len() {
                assert(a[k] == p);
            } else {
                assert(b[k - a.len()] == p);
            }
        }
    }
}

/// Commenting on a question answers it: once a comment on a selection that covers it is committed,
/// the ring holds the question no more, unless an annotation starts there.
pub proof fn law_commenting_answers_the_question(before: App, after: App, span: Span, p: Pos)
    requires
        after.committed(before),
        trim(before.editor.model().text()).len() > 0,
        before.selected() == Some(span),
        span.has(p),
    ensures
        answered(after.annotations@, p),
        after.mark_ring().contains(p) ==> after.annotation_starts().contains(p),
{
    let n = after.annotations@.len() - 1;
    assert(after.annotations@[n] == after.annotations@.last());
    assert(after.annotations@[n].span().has(p));
    law_marks_are_annotations_and_open_questions(after, p);
}

proof fn lemma_part(app: App, span: Span, line: int)
    requires
        unbroken(app.ls()),
        span.start.le(span.end),
        span.on_line(line),
    ensures
        ({
            let text = text_at(app.ls(), line);
            let r = span.bytes_on(line, blen(text))->0;
            let a = floor_at(encode_utf8(text), r.0);
            let b = ceil_at(encode_utf8(text), r.1);
            &&& a <= b
            &&& is_cut(text, a)
            &&& is_cut(text, b)
            &&& app.part(span, line) == byte_slice(text, a, b)
        }),
        forall|k: int| 0 <= k < app.part(span, line).len() ==> #[trigger] app.part(span, line)[k] != '\n',
{
    let text = text_at(app.ls(), line);
    let n = blen(text);
    let r = span.bytes_on(line, n)->0;
    let a = floor_at(encode_utf8(text), r.0);
    let b = ceil_at(encode_utf8(text), r.1);
    lemma_round(text, r.0);
    lemma_round(text, r.1);
    assert(app.part(span, line) == byte_slice(text, a, b));
    lemma_boundary_is_offset(text, a);
    lemma_boundary_is_offset(text, b);
    let (i, j) = (char_index(text, a), char_index(text, b));
    if j < i {
        lemma_offset_mono(text, j, i);
    }
    lemma_byte_slice(text, i, j);
    reveal(unbroken);
    let p = app.part(span, line);
    assert forall|k: int| 0 <= k < p.len() implies #[trigger] p[k] != '\n' by {
        assert(p[k] == text[i + k]);
        let at = if line >= 1 {
            line - 1
        } else {
            0
        };
        assert(text == app.ls()[at]);
        assert(!ends_line(app.ls()[at][i + k]));
    }
}

/// The bytes of a line that are shown as selected are that line's piece of the quoted text: they
/// are cut at characters, and what lies between them is the piece of the slice, split at line
/// feeds, that belongs to the line. A line that the selection does not touch has none.
pub proof fn law_the_highlight_is_what_is_quoted(app: App, span: Span, line: int)
    requires
        app.wf(),
        app.selected() == Some(span),
        span.start.le(span.end),
    ensures
        !span.on_line(line) ==> app.selected_on(line) is None,
        span.on_line(line) ==> {
            let text = text_at(app.ls(), line);
            let pieces = split_on(app.sliced(span), '\n');
            &&& app.selected_on(line) matches Some((a, b)) && a <= b && is_cut(text, a) && is_cut(
                text,
                b,
            ) && byte_slice(text, a, b) == pieces[line - span.start.line]
            &&& pieces.len() == span.end.line - span.start.line + 1
        },
{
    if span.on_line(line) {
        let n = span.end.line - span.start.line + 1;
        let parts = Seq::new(n as nat, |i: int| app.part(span, span.start.line + i));
        assert forall|i: int, k: int| 0 <= i < parts.len() && 0 <= k < parts[i].len() implies
            #[trigger] parts[i][k] != '\n' by {
            lemma_part(app, span, span.start.line + i);
        }
        reveal_strlit("\n");
        assert("\n"@ =~= seq!['\n']);
        lemma_split_join(parts, '\n');
        assert(app.sliced(span) == join(parts, "\n"@));
        lemma_part(app, span, line);
        assert(parts[line - span.start.line] == app.part(span, line));
    }
}

// ---------------------------------------------------------------------------
// Ids
// ---------------------------------------------------------------------------

/// The `n`th id.
pub open spec fn id_of(n: int) -> Seq<char> {
    "a"@ + decimal(n as nat)
}

/// No two numbers give one id.
pub proof fn lemma_ids_differ(a: int, b: int)
    requires
        0 <= a,
        0 <= b,
        a != b,
    ensures
        id_of(a) != id_of(b),
{
    if id_of(a) == id_of(b) {
        let n = "a"@.len() as int;
        assert(id_of(a).skip(n) =~= decimal(a as nat));
        assert(id_of(b).skip(n) =~= decimal(b as nat));
        lemma_decimal_injective(a as nat, b as nat);
    }
}

/// `id` was given out before the counter came to `next`.
pub open spec fn given_before(id: Seq<char>, next: int) -> bool {
    exists|n: int| 0 <= n < next && id == #[trigger] id_of(n)
}

impl App {
    /// Every annotation has an id that was given out before, and no two have the same.
    pub open spec fn numbered(self) -> bool {
        &&& forall|i: int|
            0 <= i < self.annotations@.len() ==> given_before(
                (#[trigger] self.annotations@[i]).id@,
                self.next_id as int,
            )
        &&& forall|i: int, j: int|
            0 <= i < j < self.annotations@.len() ==> (#[trigger] self.annotations@[i]).id@ != (
            #[trigger] self.annotations@[j]).id@
    }

    /// A comment was committed that made an annotation.
    pub open spec fn annotated(self, before: App) -> bool {
        self.annotations@.len() > before.annotations@.len()
    }
}

/// The id that a commit gives is one that no annotation had before, a removed one included; the
/// counter goes on by one, and every annotation keeps an id of its own.
pub proof fn law_a_commit_gives_a_new_id(before: App, after: App)
    requires
        before.numbered(),
        before.id_left(),
        after.committed(before),
    ensures
        after.numbered(),
        after.annotated(before) ==> after.next_id == before.next_id + 1
            && after.annotations@.last().id@ == id_of(before.next_id as int) && !given_before(
            after.annotations@.last().id@,
            before.next_id as int,
        ),
        !after.annotated(before) ==> after.next_id == before.next_id && after.annotations@
            == before.annotations@,
{
    let v = after.annotations@;
    if after.annotated(before) {
        let n = before.next_id as int;
        let id = v.last().id@;
        assert(v.last().model().id == id_of(n));
        if given_before(id, n) {
            let k = choose|k: int| 0 <= k < n && id == #[trigger] id_of(k);
            lemma_ids_differ(k, n);
        }
        assert forall|i: int| 0 <= i < v.len() implies given_before(
            (#[trigger] v[i]).id@,
            after.next_id as int,
        ) by {
            if i < v.len() - 1 {
                assert(v.drop_last()[i] == v[i]);
                assert(given_before(before.annotations@[i].id@, n));
                let k = choose|k: int| 0 <= k < n && v[i].id@ == #[trigger] id_of(k);
                assert(v[i].id@ == id_of(k));
            } else {
                assert(v[i].id@ == id_of(n));
            }
        }
        assert forall|i: int, j: int| 0 <= i < j < v.len() implies (#[trigger] v[i]).id@ != (
        #[trigger] v[j]).id@ by {
            assert(v.drop_last()[i] == v[i]);
            assert(given_before(before.annotations@[i].id@, n));
            if j < v.len() - 1 {
                assert(v.drop_last()[j] == v[j]);
            }
        }
    }
}

/// A session starts with no id given out.
pub proof fn law_a_session_opens_with_every_id_free(app: App, path: Seq<char>, src: Seq<char>, format: Format)
    requires
        app.opened(path, src, format),
    ensures
        app.numbered(),
        !given_before(id_of(app.next_id as int), app.next_id as int),
{
    if given_before(id_of(1), 1) {
        let k = choose|k: int| 0 <= k < 1 && id_of(1) == #[trigger] id_of(k);
        lemma_ids_differ(k, 1);
    }
}

impl App {
    /// Every place the session holds is on a line of the document: the cursor, the anchor of a line
    /// selection, the annotations and the questions.
    pub open spec fn on_file(self) -> bool {
        &&& 1 <= self.cursor.line <= self.total()
        &&& self.cursor.col >= 1
        &&& self.sel matches Sel::Lines { anchor } ==> 1 <= anchor <= self.total()
        &&& forall|i: int|
            0 <= i < self.annotations@.len() ==> span_in_file(
                (#[trigger] self.annotations@[i]).span(),
                self.total(),
            )
        &&& forall|i: int|
            0 <= i < self.questions@.len() ==> 1 <= (#[trigger] self.questions@[i]).line
                <= self.total()
    }
}

/// What is selected lies in the file.
pub proof fn lemma_selected_in_file(app: App, s: Span)
    requires
        app.wf(),
        app.on_file(),
        app.selected() == Some(s),
    ensures
        span_in_file(s, app.total()),
{
    if app.blocks@.len() > 0 {
        law_no_line_without_a_unit(app.blocks@, app.cursor.line as int);
    }
    lemma_stack_in_file(app.tree.shape(), app.cursor, app.total());
    match app.sel {
        Sel::Here => {
            assert(on_file(app.blocks@[app.unit_here()->0], app.total()));
        },
        Sel::Blocks { anchor } => {
            let i = app.unit_here()->0;
            assert(on_file(app.blocks@[i], app.total()));
            assert(on_file(app.blocks@[anchor as int], app.total()));
        },
        Sel::Lines { .. } => {},
        Sel::Region { depth } => {
            let stack = app.stack_here();
            assert(span_in_file(stack[smaller(depth as int, stack.len() - 1)].1, app.total()));
        },
    }
}

proof fn lemma_earliest(s: Seq<Pos>, n: int)
    requires
        1 <= n <= s.len(),
    ensures
        s.contains(earliest(s, n)),
        s.contains(latest(s, n)),
    decreases n,
{
    assert(s[n - 1] == s[n - 1]);
    if n > 1 {
        lemma_earliest(s, n - 1);
    }
}

/// A mark motion leads to a mark.
pub proof fn lemma_mark_from(marks: Seq<Pos>, from: Pos, forward: bool)
    ensures
        mark_from(marks, from, forward) matches Some(p) ==> marks.contains(p),
{
    law_next_stop_is_the_nearest(marks, from);
    law_prev_stop_is_the_nearest(marks, from);
    if marks.len() > 0 {
        lemma_earliest(marks, marks.len() as int);
    }
}

/// A mark of a session on the file is on a line of it.
pub proof fn lemma_mark_in_file(app: App, p: Pos)
    requires
        app.on_file(),
        app.mark_ring().contains(p),
    ensures
        1 <= p.line <= app.total(),
{
    law_marks_are_annotations_and_open_questions(app, p);
    let starts = app.annotation_starts();
    if starts.contains(p) {
        let k = choose|k: int| 0 <= k < starts.len() && starts[k] == p;
        assert(span_in_file(app.annotations@[k].span(), app.total()));
    } else {
        let k = choose|k: int| 0 <= k < app.questions@.len() && app.questions@[k] == p;
        assert(app.questions@[k].line <= app.total());
    }
}

/// The annotation on a line is one of those searched, or there is none.
pub proof fn lemma_last_on(v: Seq<Annotation>, line: int, n: int)
    requires
        n >= 0,
    ensures
        -1 <= last_on(v, line, n) < n || last_on(v, line, n) == -1,
    decreases n,
{
    if n > 0 {
        lemma_last_on(v, line, n - 1);
    }
}

/// A snapped byte is a byte of the line, or its end where the line is empty.
pub proof fn lemma_snapped(text: Seq<char>, byte: int)
    requires
        byte >= 0,
    ensures
        0 <= snapped(text, byte) <= blen(text),
{
    lemma_round(text, smaller(byte, at_least_one(blen(text)) - 1));
}

/// An inline motion leads to a line of the document.
pub proof fn lemma_inline_stop_in_file(app: App, dir: int)
    requires
        app.wf(),
    ensures
        app.inline_from(dir) matches Some(p) ==> 1 <= p.line <= app.total(),
{
    let starts = inline_starts(app.tree.shape());
    lemma_inline_in_file(app.tree.shape(), app.total());
    law_next_stop_is_the_nearest(starts, app.cursor);
    law_prev_stop_is_the_nearest(starts, app.cursor);
    if let Some(p) = app.inline_from(dir) {
        let k = choose|k: int| 0 <= k < starts.len() && starts[k] == p;
        assert(1 <= starts[k].line <= app.total());
    }
}

/// A committed comment annotates a place on the file.
pub proof fn lemma_committed_on_file(before: App, after: App)
    requires
        before.wf(),
        before.on_file(),
        after.committed(before),
    ensures
        after.on_file(),
{
    assert(after.lines == before.lines && after.questions == before.questions);
    if let Some(s) = before.selected() {
        lemma_selected_in_file(before, s);
        if trim(before.editor.model().text()).len() > 0 {
            let n = before.annotations@.len() as int;
            assert(after.annotations@[n] == after.annotations@.last());
            assert(after.annotations@.last().span() == s);
            assert forall|i: int| 0 <= i < after.annotations@.len() implies span_in_file(
                (#[trigger] after.annotations@[i]).span(),
                after.total(),
            ) by {
                if i < n {
                    assert(after.annotations@.drop_last()[i] == after.annotations@[i]);
                }
            }
        }
    }
}

/// A session starts with every place on the file.
pub proof fn law_a_session_opens_on_the_file(app: App, path: Seq<char>, src: Seq<char>, format: Format)
    requires
        app.wf(),
        app.opened(path, src, format),
        app.lines@.len() <= usize::MAX,
        forall|i: int| 0 <= i < app.lines@.len() ==> blen(#[trigger] app.ls()[i]) <= usize::MAX,
    ensures
        app.on_file(),
{
    let ls = lines_of(src);
    assert(app.ls() == ls);
    assert(app.ls().len() == app.lines@.len());
    if app.blocks@.len() > 0 {
        assert(on_file(app.blocks@[0], app.total()));
    }
    law_questions_name_a_question_mark(ls, verbatim(format_tree(format, src)));
    assert forall|i: int| 0 <= i < app.questions@.len() implies 1 <= (#[trigger] app.questions@[i]).line
        <= app.total() by {
        let p = app.questions@[i];
        assert(asked(ls, verbatim(format_tree(format, src)), p));
    }
}

// ---------------------------------------------------------------------------
// What a selection takes in
// ---------------------------------------------------------------------------

/// While a block selection is up, it takes in the whole unit it was anchored at and the whole unit
/// under the cursor, whichever of them comes first, and reaches no further: it starts where one of
/// the two starts and ends where one of them ends. It has the name of the one unit where the two are
/// the same, and the names of both, the earlier in the list first, where they are not.
pub proof fn law_a_block_selection_takes_in_both_ends(app: App, anchor: usize, here: int)
    requires
        app.sel == (Sel::Blocks { anchor }),
        anchor < app.blocks@.len(),
        app.unit_here() == Some(here),
    ensures
        ({
            let from = app.blocks@[anchor as int].span;
            let to = app.blocks@[here].span;
            &&& 0 <= here < app.blocks@.len()
            &&& app.selected() matches Some(s) && {
                &&& s.start == from.start || s.start == to.start
                &&& s.end == from.end || s.end == to.end
                &&& s.start.line <= from.start.line && s.start.line <= to.start.line
                &&& s.end.line >= from.end.line && s.end.line >= to.end.line
                &&& s.start.line == from.start.line ==> s.start.col <= from.start.col
                &&& s.start.line == to.start.line ==> s.start.col <= to.start.col
                &&& s.end.line == from.end.line ==> s.end.col >= from.end.col
                &&& s.end.line == to.end.line ==> s.end.col >= to.end.col
            }
        }),
        here == anchor ==> app.selected_kind() == app.blocks@[here].kind@,
        here < anchor ==> app.selected_kind() == app.blocks@[here].kind@ + ".."@
            + app.blocks@[anchor as int].kind@,
        here > anchor ==> app.selected_kind() == app.blocks@[anchor as int].kind@ + ".."@
            + app.blocks@[here].kind@,
{
    law_no_line_without_a_unit(app.blocks@, app.cursor.line as int);
}

/// Without an anchor the selection is the unit under the cursor, exactly, and has its name; there is
/// none where the document has no unit.
pub proof fn law_the_default_selection_is_the_unit_here(app: App, i: int)
    requires
        app.sel is Here,
        0 <= i < app.blocks@.len(),
        app.blocks@[i].span.start.line <= app.cursor.line <= app.blocks@[i].span.end.line,
        forall|k: int|
            0 <= k < i ==> !((#[trigger] app.blocks@[k]).span.start.line <= app.cursor.line
                <= app.blocks@[k].span.end.line),
    ensures
        app.selected() == Some(app.blocks@[i].span),
        app.selected_kind() == app.blocks@[i].kind@,
{
    law_no_line_without_a_unit(app.blocks@, app.cursor.line as int);
    let j = app.unit_here()->0;
    assert(app.blocks@[i].span.on_line(app.cursor.line as int));
    assert(j <= i);
}

/// While a line selection is up, it takes in the whole of the line it was anchored at, the whole of
/// the cursor's line and everything between: from column 1 of the upper one to the last byte of the
/// lower one, an empty line counting as one column.
pub proof fn law_a_line_selection_takes_in_whole_lines(app: App, anchor: usize)
    requires
        app.sel == (Sel::Lines { anchor }),
        forall|i: int| 0 <= i < app.ls().len() ==> blen(#[trigger] app.ls()[i]) <= usize::MAX,
    ensures
        app.selected() matches Some(s) && {
            &&& s.start.line <= anchor && s.start.line <= app.cursor.line
            &&& s.end.line >= anchor && s.end.line >= app.cursor.line
            &&& s.start.line == anchor || s.start.line == app.cursor.line
            &&& s.end.line == anchor || s.end.line == app.cursor.line
            &&& s.start.col == 1
            &&& 1 <= s.end.line <= app.lines@.len() && app.lines@[s.end.line - 1]@.len() > 0
                ==> s.end.col == encode_utf8(app.lines@[s.end.line - 1]@).len()
            &&& 1 <= s.end.line <= app.lines@.len() && app.lines@[s.end.line - 1]@.len() == 0
                ==> s.end.col == 1
        },
        app.selected_kind() == "lines"@,
{
    let s = app.selected()->0;
    if 1 <= s.end.line <= app.lines@.len() {
        let text = app.lines@[s.end.line - 1]@;
        assert(app.ls()[s.end.line - 1] == text);
        lemma_offset_ends(text);
        if text.len() > 0 {
            lemma_offset_mono(text, 0, text.len() as int);
        } else {
            assert(text =~= Seq::<char>::empty());
        }
    }
}

/// A selection in the hierarchy is a node around the cursor, with the name of that node: the one
/// that is `depth` steps out, or the document where there are fewer.
pub proof fn law_a_region_selection_is_a_node_around_the_cursor(app: App, depth: usize)
    requires
        app.sel == (Sel::Region { depth }),
        app.stack_here().len() > 0,
    ensures
        depth < app.stack_here().len() ==> app.selected() == Some(app.stack_here()[depth as int].1)
            && app.selected_kind() == app.stack_here()[depth as int].0@,
        depth >= app.stack_here().len() ==> app.selected() == Some(app.stack_here().last().1)
            && app.selected_kind() == app.stack_here().last().0@,
{
}

// ---------------------------------------------------------------------------
// What the feedback says
// ---------------------------------------------------------------------------

/// No annotation is lost from the feedback, and none changes what is said of the others: one
/// annotation more leaves the feedback as it was and adds, at its end, a section of its own. The
/// first one stands behind the headline; without any there is no feedback at all.
pub proof fn law_every_annotation_adds_its_section(name: Seq<char>, v: Seq<Note>, a: Note)
    ensures
        feedback(name, Seq::empty()) == Seq::<char>::empty(),
        v.len() == 0 ==> feedback(name, v.push(a)) == "# Review feedback: "@ + name + "\n"@ + section(
            name,
            a,
        ),
        v.len() > 0 ==> feedback(name, v.push(a)) == feedback(name, v) + section(name, a),
{
    let w = v.push(a);
    let n = v.len() as int;
    lemma_sections_of(name, v, w, n);
    assert(sections(name, w, n + 1) == sections(name, v, n) + section(name, a));
    let head = "# Review feedback: "@ + name + "\n"@;
    if n == 0 {
        assert(sections(name, v, 0) =~= Seq::<char>::empty());
        assert(sections(name, v, 0) + section(name, a) =~= section(name, a));
    } else {
        assert(head + (sections(name, v, n) + section(name, a)) =~= (head + sections(name, v, n))
            + section(name, a));
    }
}

proof fn lemma_sections_of(name: Seq<char>, v: Seq<Note>, w: Seq<Note>, n: int)
    requires
        0 <= n <= v.len(),
        n <= w.len(),
        forall|i: int| 0 <= i < n ==> v[i] == w[i],
    ensures
        sections(name, v, n) == sections(name, w, n),
    decreases n,
{
    if n > 0 {
        lemma_sections_of(name, v, w, n - 1);
    }
}

/// Each annotation has its section in the feedback, behind those of the annotations before it and
/// before those of the ones after it.
pub proof fn law_the_feedback_holds_every_section_in_order(name: Seq<char>, v: Seq<Note>, i: int)
    requires
        0 <= i < v.len(),
    ensures
        exists|before: Seq<char>, after: Seq<char>|
            #![trigger before + section(name, v[i]) + after]
            feedback(name, v) == before + section(name, v[i]) + after && (i > 0 ==> before
                == feedback(name, v.take(i))),
    decreases v.len(),
{
    let u = v.drop_last();
    assert(v =~= u.push(v.last()));
    law_every_annotation_adds_its_section(name, u, v.last());
    if i == v.len() - 1 {
        let before = if u.len() == 0 {
            "# Review feedback: "@ + name + "\n"@
        } else {
            feedback(name, u)
        };
        assert(v.take(i) =~= u);
        assert(before + section(name, v[i]) + Seq::<char>::empty() =~= feedback(name, v));
    } else {
        law_the_feedback_holds_every_section_in_order(name, u, i);
        let (before, after) = choose|before: Seq<char>, after: Seq<char>|
            #![trigger before + section(name, u[i]) + after]
            feedback(name, u) == before + section(name, u[i]) + after && (i > 0 ==> before
                == feedback(name, u.take(i)));
        assert(u.take(i) =~= v.take(i));
        assert(before + section(name, v[i]) + (after + section(name, v.last())) =~= before
            + section(name, v[i]) + after + section(name, v.last()));
    }
}

/// A section is a headline, the quoted source and the comment, each whole. The headline says where
/// the annotation stands and what kind of place that is. The quote has a line for every line of the
/// source, in order, each behind a marker. The comment is the text as it was given.
pub proof fn law_a_section_says_where_what_and_why(name: Seq<char>, a: Note)
    ensures
        exists|quote: Seq<char>|
            #![trigger a.block_kind + "\n"@ + quote]
            {
                &&& section(name, a) == "\n## "@ + location(name, a) + (" · "@ + (a.block_kind + "\n"@
                    + quote) + "\n"@) + a.text + "\n"@
                &&& forall|i: int|
                    0 <= i < quote_lines(a.original_text).len() ==> split_on(quote, '\n')[i] == "> "@
                        + #[trigger] quote_lines(a.original_text)[i]
                &&& split_on(quote, '\n').len() == quote_lines(a.original_text).len() + 1
                &&& split_on(quote, '\n').last().len() == 0
            },
{
    let lines = quote_lines(a.original_text);
    let q = quoted(lines, lines.len() as int);
    lemma_quote_lines(a.original_text);
    lemma_quoted(lines, lines.len() as int, Seq::empty());
    assert(q + Seq::<char>::empty() =~= q);
    assert(section(name, a) =~= "\n## "@ + location(name, a) + (" · "@ + (a.block_kind + "\n"@ + q)
        + "\n"@) + a.text + "\n"@);
}

proof fn lemma_quote_lines(s: Seq<char>)
    ensures
        forall|i: int, k: int|
            0 <= i < quote_lines(s).len() && 0 <= k < quote_lines(s)[i].len() ==> #[trigger] quote_lines(s)[i][k]
                != '\n',
{
    law_pieces_are_what_lies_between(s, '\n');
    let ps = split_on(s, '\n');
    let n = ps.len() as int;
    assert forall|i: int, k: int|
        0 <= i < quote_lines(s).len() && 0 <= k < quote_lines(s)[i].len() implies #[trigger] quote_lines(s)[i][k]
        != '\n' by {
        assert(ps[i][k] != '\n');
    }
}

/// The first `n` lines of a quote, read back.
proof fn lemma_quoted(lines: Seq<Seq<char>>, n: int, tail: Seq<char>)
    requires
        0 <= n <= lines.len(),
        forall|i: int, k: int|
            0 <= i < lines.len() && 0 <= k < lines[i].len() ==> #[trigger] lines[i][k] != '\n',
        forall|k: int| 0 <= k < tail.len() ==> #[trigger] tail[k] != '\n',
    ensures
        split_on(quoted(lines, n) + tail, '\n') == Seq::new(n as nat, |i: int| "> "@ + lines[i]).push(
            tail,
        ),
    decreases n,
{
    reveal_strlit("> ");
    reveal_strlit("\n");
    if n == 0 {
        assert(quoted(lines, n) + tail =~= tail);
        lemma_split_whole(tail, '\n');
        assert(seq![tail] =~= Seq::new(n as nat, |i: int| "> "@ + lines[i]).push(tail));
    } else {
        let before = quoted(lines, n - 1);
        let l = "> "@ + lines[n - 1];
        assert forall|k: int| 0 <= k < l.len() implies #[trigger] l[k] != '\n' by {
            if k >= 2 {
                assert(l[k] == lines[n - 1][k - 2]);
            }
        }
        lemma_quoted(lines, n - 1, l);
        assert("\n"@ =~= seq!['\n']);
        assert(quoted(lines, n) + tail =~= (before + l) + seq!['\n'] + tail);
        lemma_split_append(before + l, '\n', tail);
        assert(Seq::new((n - 1) as nat, |i: int| "> "@ + lines[i]).push(l) =~= Seq::new(
            n as nat,
            |i: int| "> "@ + lines[i],
        ));
    }
}

/// A quote shows the source as it is: a text that holds no carriage return and does not end in a
/// line feed is its quoted lines with line feeds between them. A text that does end in one has the
/// same lines without it.
pub proof fn law_a_quote_shows_the_source(s: Seq<char>)
    requires
        forall|k: int| 0 <= k < s.len() ==> #[trigger] s[k] != '\r',
    ensures
        s.len() == 0 ==> quote_lines(s).len() == 0,
        s.len() > 0 && s.last() != '\n' ==> join(quote_lines(s), seq!['\n']) == s,
        s.len() > 0 && s.last() == '\n' ==> join(quote_lines(s), seq!['\n']) == s.drop_last(),
{
    let ps = split_on(s, '\n');
    let n = ps.len() as int;
    law_pieces_are_what_lies_between(s, '\n');
    assert forall|i: int| 0 <= i < n implies #[trigger] ps[i].len() == 0 || ps[i].last() != '\r' by {
        if ps[i].len() > 0 {
            assert(ps[i].contains(ps[i].last())) by {
                assert(ps[i][ps[i].len() - 1] == ps[i].last());
            }
            assert(s.contains(ps[i].last()));
        }
    }
    if s.len() == 0 {
        lemma_split_whole(s, '\n');
    } else if s.last() != '\n' {
        if ps.last().len() == 0 && n > 1 {
            let front = join(ps.drop_last(), seq!['\n']);
            assert(s =~= front + seq!['\n']);
        }
        assert(quote_lines(s) =~= ps);
    } else {
        let front = s.drop_last();
        lemma_split_append(front, '\n', Seq::empty());
        assert(front + seq!['\n'] + Seq::<char>::empty() =~= s);
        assert(ps.drop_last() =~= split_on(front, '\n'));
        assert(quote_lines(s) =~= ps.drop_last());
        law_pieces_are_what_lies_between(front, '\n');
    }
}

// ---------------------------------------------------------------------------
// Where motions lead
// ---------------------------------------------------------------------------

/// A line motion goes as many lines as it is told, and stops at the first line and at the last.
pub proof fn law_a_line_motion_stops_at_the_ends(app: App, delta: int)
    ensures
        1 <= app.cursor.line + delta <= app.lines@.len() ==> app.line_from(delta) == app.cursor.line
            + delta,
        app.cursor.line + delta < 1 ==> app.line_from(delta) == 1,
        app.cursor.line + delta > app.lines@.len() && app.lines@.len() > 0 ==> app.line_from(delta)
            == app.lines@.len(),
        app.lines@.len() == 0 ==> app.line_from(delta) == 1,
{
}

/// The cursor comes to rest on the character that the byte aimed at is in, and on the last character
/// of the line where the aim is beyond it; in an empty line it stands in column 1.
pub proof fn law_the_cursor_rests_on_a_character(text: Seq<char>, byte: int, k: int)
    requires
        0 <= byte,
    ensures
        0 <= k < text.len() && offset(text, k) <= byte < offset(text, k + 1) ==> snapped(text, byte)
            == offset(text, k),
        text.len() > 0 && byte >= blen(text) ==> snapped(text, byte) == offset(
            text,
            text.len() - 1,
        ),
        text.len() == 0 ==> snapped(text, byte) == 0,
{
    lemma_offset_ends(text);
    if text.len() == 0 {
        assert(text =~= Seq::<char>::empty());
        lemma_round(text, 0);
    } else {
        let n = text.len() as int;
        lemma_offset_mono(text, n - 1, n);
        lemma_offset_mono(text, 0, n);
        law_columns_round_to_characters(text, blen(text) - 1, n - 1);
        if 0 <= k < n && offset(text, k) <= byte < offset(text, k + 1) {
            lemma_offset_mono(text, k + 1, n);
            law_columns_round_to_characters(text, byte, k);
        }
    }
}

proof fn lemma_char_of_byte(text: Seq<char>, k: int, n: int)
    requires
        0 <= k < n <= text.len(),
    ensures
        char_of_byte(text, offset(text, k), n) == k,
    decreases n,
{
    if n - 1 > k {
        lemma_offset_mono(text, k, n - 1);
        lemma_char_of_byte(text, k, n - 1);
    }
}

/// From the start of a character, a motion of `delta` characters leads `delta` characters on, and
/// stops at the first and at the last character of the line.
pub proof fn law_a_character_motion_counts_characters(app: App, delta: int, k: int)
    requires
        1 <= app.cursor.line <= app.lines@.len(),
        0 <= k < app.lines@[app.cursor.line - 1]@.len(),
        app.cursor.col == offset(app.lines@[app.cursor.line - 1]@, k) + 1,
    ensures
        0 <= k + delta < app.lines@[app.cursor.line - 1]@.len() ==> app.char_from(delta) == k + delta,
        k + delta < 0 ==> app.char_from(delta) == 0,
        k + delta >= app.lines@[app.cursor.line - 1]@.len() ==> app.char_from(delta)
            == app.lines@[app.cursor.line - 1]@.len() - 1,
{
    let text = app.lines@[app.cursor.line - 1]@;
    assert(text_at(app.ls(), app.cursor.line as int) == text);
    lemma_char_of_byte(text, k, text.len() as int);
}

/// A unit motion counts units from the one under the cursor, and stops at the first and at the last.
pub proof fn law_a_unit_motion_counts_units(app: App, delta: int, here: int)
    requires
        app.unit_here() == Some(here),
    ensures
        0 <= here + delta < app.blocks@.len() ==> app.unit_from(delta) == Some(here + delta),
        here + delta < 0 ==> app.unit_from(delta) == Some(0int),
        here + delta >= app.blocks@.len() ==> app.unit_from(delta) == Some(app.blocks@.len() - 1),
{
    law_no_line_without_a_unit(app.blocks@, app.cursor.line as int);
}

/// A step of a row leads to the next row of the line, or to the first row of the next line; upwards
/// to the row before, or to the last row of the line before. There is none only from the last row of
/// the document downwards and from the first one upwards.
pub proof fn law_a_row_step_is_to_the_neighbour(app: App, at: Anchor)
    requires
        1 <= at.line <= app.lines@.len(),
        at.row < app.height(at.line as int),
        forall|line: int| #[trigger] app.height(line) <= usize::MAX,
    ensures
        at.row + 1 < app.height(at.line as int) ==> app.stepped(at, true) == Some(
            Anchor { line: at.line, row: (at.row + 1) as usize },
        ),
        at.row + 1 == app.height(at.line as int) && at.line < app.lines@.len() ==> app.stepped(at, true)
            == Some(Anchor { line: (at.line + 1) as usize, row: 0 }),
        at.row + 1 == app.height(at.line as int) && at.line == app.lines@.len() ==> app.stepped(
            at,
            true,
        ) is None,
        at.row > 0 ==> app.stepped(at, false) == Some(
            Anchor { line: at.line, row: (at.row - 1) as usize },
        ),
        at.row == 0 && at.line > 1 ==> app.stepped(at, false) == Some(
            Anchor { line: (at.line - 1) as usize, row: (app.height(at.line - 1) - 1) as usize },
        ),
        at.row == 0 && at.line == 1 ==> app.stepped(at, false) is None,
        app.height(at.line as int) >= 1,
        app.rows(at.line as int).len() >= 1 ==> app.height(at.line as int) == app.rows(
            at.line as int,
        ).len(),
{
    assert(app.height(at.line as int) <= usize::MAX);
    assert(app.height(at.line - 1) <= usize::MAX);
}

/// Walking rows is stepping that often, as far as there are rows: one row more is one step more, and
/// at the end of the document there is no going on.
pub proof fn law_walking_is_stepping(app: App, at: Anchor, n: int, down: bool)
    requires
        n >= 0,
    ensures
        app.walked(at, 0, down) == at,
        app.stepped(app.walked(at, n, down), down) matches Some(next) ==> app.walked(at, n + 1, down)
            == next,
        app.stepped(app.walked(at, n, down), down) is None ==> app.walked(at, n + 1, down)
            == app.walked(at, n, down),
    decreases n,
{
    if n > 0 {
        match app.stepped(at, down) {
            Some(next) => {
                law_walking_is_stepping(app, next, n - 1, down);
            },
            None => {},
        }
    } else {
        match app.stepped(at, down) {
            Some(next) => {
                assert(app.walked(at, 1, down) == app.walked(next, 0, down));
            },
            None => {},
        }
    }
}

/// A page is what the screen shows less two lines, and half a page half of it; each is at least one
/// line.
pub proof fn law_a_page_keeps_two_lines(app: App)
    ensures
        app.viewport >= 3 ==> app.page_step(false) == app.viewport - 2,
        app.viewport < 3 ==> app.page_step(false) == 1,
        app.viewport >= 2 ==> app.page_step(true) == app.viewport / 2,
        app.viewport < 2 ==> app.page_step(true) == 1,
{
}

proof fn lemma_row_of_byte_is(rows: Seq<Seq<Piece>>, b: int, n: int)
    requires
        0 < n <= rows.len(),
        first_src(rows[0]) <= b,
    ensures
        0 <= row_of_byte(rows, b, n) < n,
        first_src(rows[row_of_byte(rows, b, n)]) <= b,
        forall|j: int| row_of_byte(rows, b, n) < j < n ==> b < first_src(#[trigger] rows[j]),
    decreases n,
{
    if first_src(rows[n - 1]) > b {
        lemma_row_of_byte_is(rows, b, n - 1);
    }
}

/// The row the cursor is on is the last one that starts at or before its byte.
pub proof fn law_the_cursor_is_in_the_row_it_is_said_to_be_in(app: App)
    requires
        app.wf(),
        1 <= app.cursor.line <= app.lines@.len(),
        app.cursor.col >= 1,
        blen(app.ls()[app.cursor.line - 1]) <= usize::MAX,
    ensures
        ({
            let rows = app.rows(app.cursor.line as int);
            let b = app.cursor.col - 1;
            &&& 0 <= app.row_here() < rows.len()
            &&& first_src(rows[app.row_here()]) <= b
            &&& forall|j: int| app.row_here() < j < rows.len() ==> b < first_src(#[trigger] rows[j])
        }),
{
    law_rows_show_the_line(app, app.cursor.line as int);
    let rows = app.rows(app.cursor.line as int);
    lemma_row_of_byte_is(rows, app.cursor.col - 1, rows.len() as int);
}

proof fn lemma_edges(s: Seq<Pos>, n: int)
    requires
        1 <= n <= s.len(),
    ensures
        forall|i: int| 0 <= i < n ==> earliest(s, n).le(#[trigger] s[i]),
        forall|i: int| 0 <= i < n ==> (#[trigger] s[i]).le(latest(s, n)),
    decreases n,
{
    if n > 1 {
        lemma_edges(s, n - 1);
    }
}

/// A mark motion leads to the nearest mark ahead, of all the marks, and behind the last one round to
/// the first; backwards to the nearest before, and before the first one round to the last. Only
/// where there are no marks does it lead nowhere.
pub proof fn law_marks_go_round(marks: Seq<Pos>, from: Pos)
    requires
        marks.len() > 0,
    ensures
        mark_from(marks, from, true) matches Some(p) && marks.contains(p) && {
            &&& (exists|i: int| 0 <= i < marks.len() && from.lt(#[trigger] marks[i])) ==> from.lt(p)
                && forall|i: int|
                0 <= i < marks.len() && from.lt(#[trigger] marks[i]) ==> p.le(marks[i])
            &&& (forall|i: int| 0 <= i < marks.len() ==> !from.lt(#[trigger] marks[i])) ==> forall|
                i: int,
            |
                0 <= i < marks.len() ==> p.le(#[trigger] marks[i])
        },
        mark_from(marks, from, false) matches Some(p) && marks.contains(p) && {
            &&& (exists|i: int| 0 <= i < marks.len() && (#[trigger] marks[i]).lt(from)) ==> p.lt(from)
                && forall|i: int|
                0 <= i < marks.len() && (#[trigger] marks[i]).lt(from) ==> marks[i].le(p)
            &&& (forall|i: int| 0 <= i < marks.len() ==> !(#[trigger] marks[i]).lt(from)) ==> forall|
                i: int,
            |
                0 <= i < marks.len() ==> (#[trigger] marks[i]).le(p)
        },
{
    lemma_mark_from(marks, from, true);
    lemma_mark_from(marks, from, false);
    law_next_stop_is_the_nearest(marks, from);
    law_prev_stop_is_the_nearest(marks, from);
    lemma_edges(marks, marks.len() as int);
}

proof fn lemma_rank(s: Seq<Pos>, p: Pos, n: int)
    requires
        0 <= n <= s.len(),
    ensures
        rank(s, p, n) == s.take(n).filter(|q: Pos| q.le(p)).len(),
    decreases n,
{
    reveal(Seq::filter);
    if n > 0 {
        lemma_rank(s, p, n - 1);
        assert(s.take(n).drop_last() =~= s.take(n - 1));
        assert(s.take(n).last() == s[n - 1]);
    } else {
        assert(s.take(0).filter(|q: Pos| q.le(p)).len() == 0);
    }
}

/// A mark is announced as an annotation where one starts there, else as a question, with its number
/// in document order -- how many marks stand at or before it -- and the number of marks there are.
pub proof fn law_a_mark_is_announced_by_its_number(app: App, p: Pos)
    ensures
        ({
            let ring = app.mark_ring();
            let number = decimal(ring.filter(|q: Pos| q.le(p)).len());
            &&& (exists|i: int|
                0 <= i < app.annotations@.len() && (#[trigger] app.annotations@[i]).start_line
                    == p.line && app.annotations@[i].start_col == p.col) ==> app.mark_note(p)
                == "annotation "@ + number + "/"@ + decimal(ring.len())
            &&& (forall|i: int|
                0 <= i < app.annotations@.len() ==> !((#[trigger] app.annotations@[i]).start_line
                    == p.line && app.annotations@[i].start_col == p.col)) ==> app.mark_note(p)
                == "question "@ + number + "/"@ + decimal(ring.len())
        }),
{
    let ring = app.mark_ring();
    lemma_rank(ring, p, ring.len() as int);
    assert(ring.take(ring.len() as int) =~= ring);
    let starts = app.annotation_starts();
    if starts.contains(p) {
        let k = choose|k: int| 0 <= k < starts.len() && starts[k] == p;
        assert(app.annotations@[k].start_line == p.line);
    }
    if exists|i: int|
        0 <= i < app.annotations@.len() && (#[trigger] app.annotations@[i]).start_line == p.line
            && app.annotations@[i].start_col == p.col {
        let i = choose|i: int|
            0 <= i < app.annotations@.len() && (#[trigger] app.annotations@[i]).start_line == p.line
                && app.annotations@[i].start_col == p.col;
        assert(starts[i] == p);
    }
}

// ---------------------------------------------------------------------------
// What an annotation is
// ---------------------------------------------------------------------------

/// A committed comment is one annotation more, behind those there were: of kind `comment`, on the
/// selection, with the name of the selection and the text it covers, and with the comment trimmed.
/// It covers whole lines where it starts in the first column and ends at the last byte of its last
/// line or beyond. The editor is left, nothing stays selected but the unit under the cursor, and the
/// document, the cursor and the view are as they were.
pub proof fn law_a_comment_annotates_the_selection(before: App, after: App, span: Span)
    requires
        after.committed(before),
        trim(before.editor.model().text()).len() > 0,
        before.selected() == Some(span),
    ensures
        after.annotations@.len() == before.annotations@.len() + 1,
        forall|i: int|
            0 <= i < before.annotations@.len() ==> #[trigger] after.annotations@[i]
                == before.annotations@[i],
        ({
            let a = after.annotations@[before.annotations@.len() as int];
            &&& a.kind@ == "comment"@
            &&& a.start_line == span.start.line && a.start_col == span.start.col
            &&& a.end_line == span.end.line && a.end_col == span.end.col
            &&& a.text@ == trim(before.editor.model().text())
            &&& a.original_text@ == before.sliced(span)
            &&& a.block_kind@ == before.selected_kind()
            &&& 1 <= span.end.line <= before.lines@.len() && blen(before.lines@[span.end.line - 1]@)
                > 0 ==> (a.whole_lines <==> span.start.col == 1 && span.end.col >= blen(
                before.lines@[span.end.line - 1]@,
            ))
        }),
        after.mode is Normal,
        after.sel is Here,
        after.cursor == before.cursor,
        after.lines == before.lines && after.blocks == before.blocks && after.tree == before.tree,
        after.questions == before.questions && after.path == before.path && after.label
            == before.label,
{
    let n = before.annotations@.len() as int;
    assert forall|i: int| 0 <= i < n implies #[trigger] after.annotations@[i]
        == before.annotations@[i] by {
        assert(after.annotations@.drop_last()[i] == after.annotations@[i]);
    }
    assert(after.annotations@[n] == after.annotations@.last());
    let m = after.annotations@.last().model();
    assert(m.kind == "comment");
    assert(m.span == span);
    if 1 <= span.end.line <= before.lines@.len() {
        assert(text_at(before.ls(), span.end.line as int) == before.lines@[span.end.line - 1]@);
    }
}

/// A blank comment annotates nothing.
pub proof fn law_a_blank_comment_annotates_nothing(before: App, after: App)
    requires
        after.committed(before),
        trim(before.editor.model().text()).len() == 0 || before.selected() is None,
    ensures
        after.annotations@ == before.annotations@,
        after.next_id == before.next_id,
        after.sel == before.sel,
        after.mode is Normal,
{
}

/// The text of a span has one line for each line the span is on. Every line between the first and
/// the last is quoted whole; the first from the character that the start is in, the last up to and
/// with the character that the end is in. A span of whole lines quotes those lines.
pub proof fn law_a_span_quotes_its_lines(app: App, span: Span, line: int, i: int, j: int)
    requires
        unbroken(app.ls()),
        1 <= span.start.line <= line <= span.end.line <= app.lines@.len(),
        span.start.le(span.end),
        span.start.col >= 1,
    ensures
        ({
            let text = app.lines@[line - 1]@;
            let part = split_on(app.sliced(span), '\n')[line - span.start.line];
            &&& split_on(app.sliced(span), '\n').len() == span.end.line - span.start.line + 1
            &&& span.start.line < line < span.end.line ==> part == text
            &&& (line == span.start.line ==> span.start.col == 1) && (line == span.end.line
                ==> span.end.col >= blen(text)) ==> part == text
            &&& 0 <= i <= j < text.len() && (if line == span.start.line {
                    offset(text, i) <= span.start.col - 1 < offset(text, i + 1)
                } else {
                    i == 0
                }) && (if line == span.end.line {
                    offset(text, j) < span.end.col <= offset(text, j + 1)
                } else {
                    j == text.len() - 1
                }) ==> part == text.subrange(i, j + 1)
        }),
{
    let text = app.lines@[line - 1]@;
    assert(text_at(app.ls(), line) == text);
    let n = span.end.line - span.start.line + 1;
    let parts = Seq::new(n as nat, |i: int| app.part(span, span.start.line + i));
    assert forall|i: int, k: int| 0 <= i < parts.len() && 0 <= k < parts[i].len() implies
        #[trigger] parts[i][k] != '\n' by {
        lemma_part(app, span, span.start.line + i);
    }
    reveal_strlit("\n");
    assert("\n"@ =~= seq!['\n']);
    lemma_split_join(parts, '\n');
    assert(app.sliced(span) == join(parts, "\n"@));
    let part = app.part(span, line);
    assert(parts[line - span.start.line] == part);
    let m = text.len() as int;
    let bytes = encode_utf8(text);
    lemma_offset_ends(text);
    let a = if line == span.start.line {
        floor_at(bytes, span.start.col - 1)
    } else {
        0
    };
    let b = if line == span.end.line {
        ceil_at(bytes, span.end.col as int)
    } else {
        blen(text)
    };
    assert(part == byte_slice(text, a, b));
    if (line == span.start.line ==> span.start.col == 1) && (line == span.end.line ==> span.end.col
        >= blen(text)) {
        lemma_round(text, 0);
        assert(a == 0 && b == blen(text));
        lemma_byte_slice(text, 0, m);
        assert(text.subrange(0, m) =~= text);
    }
    if 0 <= i <= j < text.len() && (if line == span.start.line {
        offset(text, i) <= span.start.col - 1 < offset(text, i + 1)
    } else {
        i == 0
    }) && (if line == span.end.line {
        offset(text, j) < span.end.col <= offset(text, j + 1)
    } else {
        j == text.len() - 1
    }) {
        if line == span.start.line {
            law_columns_round_to_characters(text, span.start.col - 1, i);
        }
        if line == span.end.line {
            law_columns_round_to_characters(text, span.end.col as int, j);
        }
        lemma_byte_slice(text, i, j + 1);
    }
}

/// Annotations are counted line by line: each one more counts on the lines it touches and on no
/// other.
pub proof fn law_annotations_count_on_their_lines(v: Seq<Annotation>, a: Annotation, line: int)
    ensures
        count_on(Seq::empty(), line, 0) == 0,
        a.start_line <= line <= a.end_line ==> count_on(v.push(a), line, v.len() as int + 1)
            == count_on(v, line, v.len() as int) + 1,
        !(a.start_line <= line <= a.end_line) ==> count_on(v.push(a), line, v.len() as int + 1)
            == count_on(v, line, v.len() as int),
{
    lemma_count_on(v, v.push(a), line, v.len() as int);
}

proof fn lemma_count_on(v: Seq<Annotation>, w: Seq<Annotation>, line: int, n: int)
    requires
        0 <= n <= v.len(),
        n <= w.len(),
        forall|i: int| 0 <= i < n ==> v[i] == w[i],
    ensures
        count_on(v, line, n) == count_on(w, line, n),
    decreases n,
{
    if n > 0 {
        lemma_count_on(v, w, line, n - 1);
    }
}

/// The annotation that a removal takes is the latest made of those that touch the line; there is
/// none only where no annotation touches it.
pub proof fn law_a_removal_takes_the_latest_on_the_line(v: Seq<Annotation>, line: int)
    ensures
        ({
            let i = last_on(v, line, v.len() as int);
            &&& i >= 0 ==> i < v.len() && v[i].start_line <= line <= v[i].end_line
            &&& forall|k: int|
                i < k < v.len() && k >= 0 ==> !((#[trigger] v[k]).start_line <= line
                    <= v[k].end_line)
            &&& i < 0 ==> forall|k: int|
                0 <= k < v.len() ==> !((#[trigger] v[k]).start_line <= line <= v[k].end_line)
        }),
{
    lemma_last_on_is(v, line, v.len() as int);
}

proof fn lemma_last_on_is(v: Seq<Annotation>, line: int, n: int)
    requires
        0 <= n <= v.len(),
    ensures
        ({
            let i = last_on(v, line, n);
            &&& -1 <= i < n
            &&& i >= 0 ==> v[i].start_line <= line <= v[i].end_line
            &&& forall|k: int|
                i < k < n && k >= 0 ==> !((#[trigger] v[k]).start_line <= line <= v[k].end_line)
        }),
    decreases n,
{
    if n > 0 && !(v[n - 1].start_line <= line <= v[n - 1].end_line) {
        lemma_last_on_is(v, line, n - 1);
    }
}

/// The location of an annotation starts with the name of the file and the line it starts on, and
/// says no more of one on a single whole line. Of whole lines it names the first and the last; of
/// anything less, the columns too.
pub proof fn law_a_location_names_lines_and_columns(name: Seq<char>, a: Note)
    ensures
        ({
            let from = name + ":"@ + decimal(a.span.start.line as nat);
            let (s, e) = (a.span.start, a.span.end);
            &&& a.whole_lines && s.line == e.line ==> location(name, a) == from
            &&& a.whole_lines && s.line != e.line ==> location(name, a) == from + "-"@ + decimal(
                e.line as nat,
            )
            &&& !a.whole_lines && s.line == e.line ==> location(name, a) == from + ":"@ + decimal(
                s.col as nat,
            ) + "-"@ + decimal(e.col as nat)
            &&& !a.whole_lines && s.line != e.line ==> location(name, a) == from + ":"@ + decimal(
                s.col as nat,
            ) + "-"@ + decimal(e.line as nat) + ":"@ + decimal(e.col as nat)
        }),
{
}

/// One node is wider than another where it starts no later, ends no earlier and is not the same.
pub proof fn law_wider_is_more_on_either_side(outer: Span, inner: Span)
    ensures
        wider(outer, inner) ==> outer.covers(inner) && outer != inner,
        outer.covers(inner) && outer != inner ==> wider(outer, inner),
        wider(outer, inner) && inner.start.le(inner.end) ==> !wider(inner, outer),
{
}

/// A row motion keeps its place in the row: as many bytes into the row it comes to as into the one
/// it left, where that row is long enough, and the end of it where it is not.
pub proof fn law_a_row_motion_keeps_its_place(rows: Seq<Seq<Piece>>, k: int, off: int)
    requires
        0 <= k < rows.len(),
        0 <= off,
        first_src(rows[k]) <= last_src(rows[k]),
    ensures
        off < last_src(rows[k]) - first_src(rows[k]) ==> aim_in(rows, k, off) == first_src(rows[k])
            + off,
        first_src(rows[k]) <= aim_in(rows, k, off) <= last_src(rows[k]),
        off >= last_src(rows[k]) - first_src(rows[k]) ==> aim_in(rows, k, off) >= last_src(rows[k])
            - 1,
{
}

/// The screen shows a line character by character, a tab as one space.
pub proof fn law_a_line_is_shown_as_it_is(app: App, line: int, i: int)
    requires
        1 <= line <= app.lines@.len(),
        0 <= i < app.lines@[line - 1]@.len(),
    ensures
        app.shown(line).len() == app.lines@[line - 1]@.len(),
        app.lines@[line - 1]@[i] != '\t' ==> app.shown(line)[i] == app.lines@[line - 1]@[i],
        app.lines@[line - 1]@[i] == '\t' ==> app.shown(line)[i] == ' ',
{
    assert(text_at(app.ls(), line) == app.lines@[line - 1]@);
}

/// A motion moves the cursor and nothing else: the document, the annotations, the editor and the
/// view stay. A block or line selection stays anchored, so that the motion extends it; a selection
/// in the hierarchy is dropped.
pub proof fn law_a_motion_only_moves(before: App, after: App, line: int, byte: int)
    requires
        after.came_to(before, line, byte),
    ensures
        after.cursor.line == line,
        after.cursor.col == snapped(text_at(before.ls(), line), byte) + 1,
        after.lines == before.lines && after.blocks == before.blocks && after.annotations
            == before.annotations && after.editor == before.editor && after.mode == before.mode,
        after.pretty == before.pretty && after.peek == before.peek && after.quit == before.quit,
        before.sel is Blocks || before.sel is Lines || before.sel is Here ==> after.sel == before.sel,
        before.sel is Region ==> after.sel is Here,
{
}

} // verus!
