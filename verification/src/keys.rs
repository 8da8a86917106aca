//! What each key does.
//!
//! Keys arrive decoded. The mode, the overlay and the modifiers decide which action a key is bound
//! to; performing the action is all that touches the state.
use vstd::prelude::*;
use vstd::string::*;
use crate::app::{
    given_before, last_on, law_a_commit_gives_a_new_id, law_a_removal_takes_the_latest_on_the_line,
    lemma_committed_on_file, lemma_ids_differ, lemma_inline_stop_in_file, lemma_last_on, lemma_mark_from, lemma_mark_in_file, lemma_snapped,
    lemma_walk_in_document, less, mark_from, smaller, snapped, text_at, Anchor, App, Mode, Sel,
};
use crate::blocks::{
    clamp, inline_starts, law_no_line_without_a_unit, next_stop, on_file, prev_stop, span_in_file,
    Pos,
};
use crate::editor::Draft;
use crate::text::{blen, offset};
use crate::wrap::first_src;

verus! {

/// A key, without its modifiers.
#[derive(Debug, Clone, Copy, PartialEq, Eq, Structural)]
pub enum Key {
    Char(char),
    Enter,
    Esc,
    Backspace,
    Delete,
    Left,
    Right,
    Up,
    Down,
    Home,
    End,
    PageUp,
    PageDown,
    Other,
}

/// What a key does to the comment being written.
#[derive(Debug, Clone, Copy, PartialEq, Eq, Structural)]
pub enum Edit {
    Newline,
    Home,
    End,
    Left,
    Right,
    DeleteForward,
    KillToEnd,
    KillToStart,
    KillWordBackWs,
    Backspace,
    HistoryPrev,
    HistoryNext,
    WordLeft,
    WordRight,
    KillWordForward,
    KillWordBack,
    Insert(char),
}

/// What a key does.
#[derive(Debug, Clone, Copy, PartialEq, Eq, Structural)]
pub enum Action {
    Nothing,
    Quit,
    Commit,
    Cancel,
    Edit(Edit),
    TogglePeek,
    ScrollPeekDown,
    ScrollPeekUp,
    HalfPageDown,
    HalfPageUp,
    PageDown,
    PageUp,
    RowDown,
    RowUp,
    LineDown,
    LineUp,
    CharLeft,
    CharRight,
    UnitDown,
    UnitUp,
    InlineNext,
    InlinePrev,
    LineStart,
    LineEnd,
    First,
    Last,
    ToggleBlocks,
    ToggleLines,
    Expand,
    Contract,
    TogglePretty,
    Comment,
    Remove,
    MarkNext,
    MarkPrev,
    DropSelection,
}

/// The action of a key while a comment is being written: readline bindings.
pub open spec fn input_action(key: Key, ctrl: bool, alt: bool) -> Action {
    match key {
        Key::Enter => Action::Commit,
        Key::Esc => Action::Cancel,
        Key::Char(c) => if ctrl && c == 'c' {
            Action::Cancel
        } else if ctrl && c == 'j' {
            Action::Edit(Edit::Newline)
        } else if ctrl && c == 'a' {
            Action::Edit(Edit::Home)
        } else if ctrl && c == 'e' {
            Action::Edit(Edit::End)
        } else if ctrl && c == 'b' {
            Action::Edit(Edit::Left)
        } else if ctrl && c == 'f' {
            Action::Edit(Edit::Right)
        } else if ctrl && c == 'd' {
            Action::Edit(Edit::DeleteForward)
        } else if ctrl && c == 'k' {
            Action::Edit(Edit::KillToEnd)
        } else if ctrl && c == 'u' {
            Action::Edit(Edit::KillToStart)
        } else if ctrl && c == 'w' {
            Action::Edit(Edit::KillWordBackWs)
        } else if ctrl && c == 'h' {
            Action::Edit(Edit::Backspace)
        } else if ctrl && c == 'p' {
            Action::Edit(Edit::HistoryPrev)
        } else if ctrl && c == 'n' {
            Action::Edit(Edit::HistoryNext)
        } else if alt && c == 'b' {
            Action::Edit(Edit::WordLeft)
        } else if alt && c == 'f' {
            Action::Edit(Edit::WordRight)
        } else if alt && c == 'd' {
            Action::Edit(Edit::KillWordForward)
        } else if !ctrl && !alt {
            Action::Edit(Edit::Insert(c))
        } else {
            Action::Nothing
        },
        Key::Backspace => if alt {
            Action::Edit(Edit::KillWordBack)
        } else {
            Action::Edit(Edit::Backspace)
        },
        Key::Delete => Action::Edit(Edit::DeleteForward),
        Key::Left => Action::Edit(Edit::Left),
        Key::Right => Action::Edit(Edit::Right),
        Key::Home => Action::Edit(Edit::Home),
        Key::End => Action::Edit(Edit::End),
        Key::Up => Action::Edit(Edit::HistoryPrev),
        Key::Down => Action::Edit(Edit::HistoryNext),
        Key::PageUp => Action::Nothing,
        Key::PageDown => Action::Nothing,
        Key::Other => Action::Nothing,
    }
}

/// The action of a key while the overlay is up: the movement keys scroll it.
pub open spec fn peek_action(key: Key, ctrl: bool) -> Action {
    match key {
        Key::Esc => Action::TogglePeek,
        Key::Down => Action::ScrollPeekDown,
        Key::Up => Action::ScrollPeekUp,
        Key::Char(c) => if c == 'z' || c == 'q' {
            Action::TogglePeek
        } else if c == 'c' && ctrl {
            Action::Quit
        } else if c == 'j' {
            Action::ScrollPeekDown
        } else if c == 'k' {
            Action::ScrollPeekUp
        } else {
            Action::Nothing
        },
        _ => Action::Nothing,
    }
}

/// The action of a control chord.
pub open spec fn ctrl_action(key: Key) -> Action {
    match key {
        Key::Char(c) => if c == 'd' {
            Action::HalfPageDown
        } else if c == 'u' {
            Action::HalfPageUp
        } else if c == 'f' {
            Action::PageDown
        } else if c == 'b' {
            Action::PageUp
        } else if c == 'n' {
            Action::RowDown
        } else if c == 'p' {
            Action::RowUp
        } else if c == 'c' {
            Action::Quit
        } else {
            Action::Nothing
        },
        _ => Action::Nothing,
    }
}

/// The action of a plain key.
pub open spec fn plain_action(key: Key) -> Action {
    match key {
        Key::PageDown => Action::PageDown,
        Key::PageUp => Action::PageUp,
        Key::Down => Action::LineDown,
        Key::Up => Action::LineUp,
        Key::Left => Action::CharLeft,
        Key::Right => Action::CharRight,
        Key::Home => Action::LineStart,
        Key::End => Action::LineEnd,
        Key::Esc => Action::DropSelection,
        Key::Enter => Action::Comment,
        Key::Char(c) => if c == 'q' {
            Action::Quit
        } else if c == 'j' {
            Action::LineDown
        } else if c == 'k' {
            Action::LineUp
        } else if c == 'h' {
            Action::CharLeft
        } else if c == 'l' {
            Action::CharRight
        } else if c == 'J' {
            Action::UnitDown
        } else if c == 'K' {
            Action::UnitUp
        } else if c == 'w' {
            Action::InlineNext
        } else if c == 'b' {
            Action::InlinePrev
        } else if c == '0' {
            Action::LineStart
        } else if c == '$' {
            Action::LineEnd
        } else if c == 'g' {
            Action::First
        } else if c == 'G' {
            Action::Last
        } else if c == 'v' {
            Action::ToggleBlocks
        } else if c == 'V' {
            Action::ToggleLines
        } else if c == '+' || c == '=' {
            Action::Expand
        } else if c == '-' || c == '_' {
            Action::Contract
        } else if c == 'P' {
            Action::TogglePretty
        } else if c == 'z' {
            Action::TogglePeek
        } else if c == 'c' {
            Action::Comment
        } else if c == 'x' {
            Action::Remove
        } else if c == ']' {
            Action::MarkNext
        } else if c == '[' {
            Action::MarkPrev
        } else {
            Action::Nothing
        },
        _ => Action::Nothing,
    }
}

/// The action a key is bound to.
pub open spec fn bound(mode: Mode, peek: bool, key: Key, ctrl: bool, alt: bool) -> Action {
    match mode {
        Mode::Input => input_action(key, ctrl, alt),
        Mode::Normal => if alt {
            Action::Nothing
        } else if peek {
            peek_action(key, ctrl)
        } else if ctrl {
            ctrl_action(key)
        } else {
            plain_action(key)
        },
    }
}

fn input_key(key: Key, ctrl: bool, alt: bool) -> (r: Action)
    ensures
        r == input_action(key, ctrl, alt),
{
    match key {
        Key::Enter => Action::Commit,
        Key::Esc => Action::Cancel,
        Key::Char(c) => if ctrl && c == 'c' {
            Action::Cancel
        } else if ctrl && c == 'j' {
            Action::Edit(Edit::Newline)
        } else if ctrl && c == 'a' {
            Action::Edit(Edit::Home)
        } else if ctrl && c == 'e' {
            Action::Edit(Edit::End)
        } else if ctrl && c == 'b' {
            Action::Edit(Edit::Left)
        } else if ctrl && c == 'f' {
            Action::Edit(Edit::Right)
        } else if ctrl && c == 'd' {
            Action::Edit(Edit::DeleteForward)
        } else if ctrl && c == 'k' {
            Action::Edit(Edit::KillToEnd)
        } else if ctrl && c == 'u' {
            Action::Edit(Edit::KillToStart)
        } else if ctrl && c == 'w' {
            Action::Edit(Edit::KillWordBackWs)
        } else if ctrl && c == 'h' {
            Action::Edit(Edit::Backspace)
        } else if ctrl && c == 'p' {
            Action::Edit(Edit::HistoryPrev)
        } else if ctrl && c == 'n' {
            Action::Edit(Edit::HistoryNext)
        } else if alt && c == 'b' {
            Action::Edit(Edit::WordLeft)
        } else if alt && c == 'f' {
            Action::Edit(Edit::WordRight)
        } else if alt && c == 'd' {
            Action::Edit(Edit::KillWordForward)
        } else if !ctrl && !alt {
            Action::Edit(Edit::Insert(c))
        } else {
            Action::Nothing
        },
        Key::Backspace => if alt {
            Action::Edit(Edit::KillWordBack)
        } else {
            Action::Edit(Edit::Backspace)
        },
        Key::Delete => Action::Edit(Edit::DeleteForward),
        Key::Left => Action::Edit(Edit::Left),
        Key::Right => Action::Edit(Edit::Right),
        Key::Home => Action::Edit(Edit::Home),
        Key::End => Action::Edit(Edit::End),
        Key::Up => Action::Edit(Edit::HistoryPrev),
        Key::Down => Action::Edit(Edit::HistoryNext),
        Key::PageUp => Action::Nothing,
        Key::PageDown => Action::Nothing,
        Key::Other => Action::Nothing,
    }
}

fn peek_key(key: Key, ctrl: bool) -> (r: Action)
    ensures
        r == peek_action(key, ctrl),
{
    match key {
        Key::Esc => Action::TogglePeek,
        Key::Down => Action::ScrollPeekDown,
        Key::Up => Action::ScrollPeekUp,
        Key::Char(c) => if c == 'z' || c == 'q' {
            Action::TogglePeek
        } else if c == 'c' && ctrl {
            Action::Quit
        } else if c == 'j' {
            Action::ScrollPeekDown
        } else if c == 'k' {
            Action::ScrollPeekUp
        } else {
            Action::Nothing
        },
        _ => Action::Nothing,
    }
}

fn ctrl_key(key: Key) -> (r: Action)
    ensures
        r == ctrl_action(key),
{
    match key {
        Key::Char(c) => if c == 'd' {
            Action::HalfPageDown
        } else if c == 'u' {
            Action::HalfPageUp
        } else if c == 'f' {
            Action::PageDown
        } else if c == 'b' {
            Action::PageUp
        } else if c == 'n' {
            Action::RowDown
        } else if c == 'p' {
            Action::RowUp
        } else if c == 'c' {
            Action::Quit
        } else {
            Action::Nothing
        },
        _ => Action::Nothing,
    }
}

fn plain_key(key: Key) -> (r: Action)
    ensures
        r == plain_action(key),
{
    match key {
        Key::PageDown => Action::PageDown,
        Key::PageUp => Action::PageUp,
        Key::Down => Action::LineDown,
        Key::Up => Action::LineUp,
        Key::Left => Action::CharLeft,
        Key::Right => Action::CharRight,
        Key::Home => Action::LineStart,
        Key::End => Action::LineEnd,
        Key::Esc => Action::DropSelection,
        Key::Enter => Action::Comment,
        Key::Char(c) => if c == 'q' {
            Action::Quit
        } else if c == 'j' {
            Action::LineDown
        } else if c == 'k' {
            Action::LineUp
        } else if c == 'h' {
            Action::CharLeft
        } else if c == 'l' {
            Action::CharRight
        } else if c == 'J' {
            Action::UnitDown
        } else if c == 'K' {
            Action::UnitUp
        } else if c == 'w' {
            Action::InlineNext
        } else if c == 'b' {
            Action::InlinePrev
        } else if c == '0' {
            Action::LineStart
        } else if c == '$' {
            Action::LineEnd
        } else if c == 'g' {
            Action::First
        } else if c == 'G' {
            Action::Last
        } else if c == 'v' {
            Action::ToggleBlocks
        } else if c == 'V' {
            Action::ToggleLines
        } else if c == '+' || c == '=' {
            Action::Expand
        } else if c == '-' || c == '_' {
            Action::Contract
        } else if c == 'P' {
            Action::TogglePretty
        } else if c == 'z' {
            Action::TogglePeek
        } else if c == 'c' {
            Action::Comment
        } else if c == 'x' {
            Action::Remove
        } else if c == ']' {
            Action::MarkNext
        } else if c == '[' {
            Action::MarkPrev
        } else {
            Action::Nothing
        },
        _ => Action::Nothing,
    }
}

/// The action a key is bound to in the state it is pressed in.
pub fn action_for(app: &App, key: Key, ctrl: bool, alt: bool) -> (r: Action)
    ensures
        r == bound(app.mode, app.peek, key, ctrl, alt),
{
    match app.mode {
        Mode::Input => input_key(key, ctrl, alt),
        Mode::Normal => if alt {
            Action::Nothing
        } else if app.peek {
            peek_key(key, ctrl)
        } else if ctrl {
            ctrl_key(key)
        } else {
            plain_key(key)
        },
    }
}

/// A draft after an edit.
pub open spec fn edited(d: Draft, e: Edit) -> Draft {
    match e {
        Edit::Newline => d.typed('\n'),
        Edit::Home => d.moved_home(),
        Edit::End => d.moved_end(),
        Edit::Left => d.moved_left(),
        Edit::Right => d.moved_right(),
        Edit::DeleteForward => d.deleted(),
        Edit::KillToEnd => d.killed_to_end(),
        Edit::KillToStart => d.killed_to_start(),
        Edit::KillWordBackWs => d.killed_blob(),
        Edit::Backspace => d.erased(),
        Edit::HistoryPrev => d.recalled(),
        Edit::HistoryNext => d.advanced(),
        Edit::WordLeft => d.moved_word_left(),
        Edit::WordRight => d.moved_word_right(),
        Edit::KillWordForward => d.killed_word_forward(),
        Edit::KillWordBack => d.killed_word_back(),
        Edit::Insert(c) => d.typed(c),
    }
}

/// A page was turned.
pub open spec fn paged(before: App, after: App, down: bool, half: bool) -> bool {
    if before.pretty && before.body_width > 0 {
        let to = before.page_target(
            if down {
                1
            } else {
                -1
            },
            half,
        );
        let rows = before.rows(to.line as int);
        after.came_to(
            before,
            to.line as int,
            first_src(rows[smaller(to.row as int, rows.len() - 1)]),
        )
    } else {
        after.came_to(
            before,
            before.line_from(
                if down {
                    before.page_step(half)
                } else {
                    -before.page_step(half)
                },
            ),
            less(before.cursor.col as int, 1),
        )
    }
}

/// A row motion was made.
pub open spec fn row_moved(before: App, after: App, dir: int) -> bool {
    match before.row_target(dir) {
        None => after.stayed(before),
        Some(to) => after.came_to(before, to.line as int, before.row_aim(to)) && after.row_here()
            == to.row,
    }
}

/// A character motion was made.
pub open spec fn char_moved(before: App, after: App, delta: int) -> bool {
    &&& after.moved_from(before)
    &&& after.region_dropped(before)
    &&& after.cursor.line == before.cursor.line
    &&& after.cursor.col == offset(
        text_at(before.ls(), before.cursor.line as int),
        before.char_from(delta),
    ) + 1
}

/// A unit motion was made.
pub open spec fn unit_moved(before: App, after: App, delta: int) -> bool {
    match before.unit_from(delta) {
        None => after.stayed(before),
        Some(i) => after.came_to(
            before,
            before.blocks@[i].span.start.line as int,
            before.blocks@[i].span.start.col - 1,
        ),
    }
}

/// An inline motion was made.
pub open spec fn inline_moved(before: App, after: App, dir: int) -> bool {
    &&& after.moved_from(before)
    &&& after.sel == if before.sel is Region {
        Sel::Here
    } else {
        before.sel
    }
    &&& match before.inline_from(dir) {
        None => after.cursor == before.cursor && after.status@ == "no further inline node"@,
        Some(pos) => after.cursor.line == pos.line && after.cursor.col == snapped(
            text_at(before.ls(), pos.line as int),
            less(pos.col as int, 1),
        ) + 1 && after.status@ == after.place_note(),
    }
}

/// A mark motion was made.
pub open spec fn mark_moved(before: App, after: App, forward: bool) -> bool {
    &&& after.moved_from(before)
    &&& after.sel == if before.sel is Region {
        Sel::Here
    } else {
        before.sel
    }
    &&& match mark_from(before.mark_ring(), before.cursor, forward) {
        None => after.cursor == before.cursor && after.status@ == "no marks"@,
        Some(p) => after.cursor.line == p.line && after.cursor.col == snapped(
            text_at(before.ls(), p.line as int),
            less(p.col as int, 1),
        ) + 1 && after.status@ == before.mark_note(p),
    }
}

/// The cursor was put on column `col` of `line`.
pub open spec fn went_to(before: App, after: App, line: int, col: int) -> bool {
    &&& after.moved_from(before)
    &&& after.region_dropped(before)
    &&& after.cursor.line == line
    &&& after.cursor.col == col
}

/// What an action does to the state.
pub open spec fn performed(before: App, after: App, action: Action) -> bool {
    match action {
        Action::Nothing => after == before,
        Action::Quit => after == (App { quit: true, ..before }),
        Action::Commit => after.committed(before),
        Action::Cancel => after == (App {
            mode: Mode::Normal,
            editor: after.editor,
            status: after.status,
            ..before
        }) && after.editor.model() == before.editor.model().fresh() && after.status@ == "cancelled"@,
        Action::Edit(e) => after == (App { editor: after.editor, ..before })
            && after.editor.model() == edited(before.editor.model(), e),
        Action::TogglePeek => after == (App {
            peek: !before.peek && before.selected() is Some,
            peek_scroll: 0,
            status: after.status,
            ..before
        }) && if !before.peek && before.selected() is None {
            after.status@ == "nothing to peek at"@
        } else {
            after.status == before.status
        },
        Action::ScrollPeekDown => after == (App { peek_scroll: after.peek_scroll, ..before })
            && after.peek_scroll == clamp(
            before.peek_scroll + 1,
            0,
            less(before.peek_rows as int, 1),
        ),
        Action::ScrollPeekUp => after == (App { peek_scroll: after.peek_scroll, ..before })
            && after.peek_scroll == clamp(
            before.peek_scroll - 1,
            0,
            less(before.peek_rows as int, 1),
        ),
        Action::HalfPageDown => paged(before, after, true, true),
        Action::HalfPageUp => paged(before, after, false, true),
        Action::PageDown => paged(before, after, true, false),
        Action::PageUp => paged(before, after, false, false),
        Action::RowDown => row_moved(before, after, 1),
        Action::RowUp => row_moved(before, after, -1),
        Action::LineDown => after.came_to(
            before,
            before.line_from(1),
            less(before.cursor.col as int, 1),
        ),
        Action::LineUp => after.came_to(
            before,
            before.line_from(-1),
            less(before.cursor.col as int, 1),
        ),
        Action::CharLeft => char_moved(before, after, -1),
        Action::CharRight => char_moved(before, after, 1),
        Action::UnitDown => unit_moved(before, after, 1),
        Action::UnitUp => unit_moved(before, after, -1),
        Action::InlineNext => inline_moved(before, after, 1),
        Action::InlinePrev => inline_moved(before, after, -1),
        Action::LineStart => went_to(before, after, before.cursor.line as int, 1),
        Action::LineEnd => {
            let text = text_at(before.ls(), before.cursor.line as int);
            went_to(
                before,
                after,
                before.cursor.line as int,
                snapped(text, blen(text)) + 1,
            )
        },
        Action::First => went_to(before, after, 1, 1),
        Action::Last => went_to(before, after, before.total(), 1),
        Action::ToggleBlocks => after == (App { sel: after.sel, status: after.status, ..before })
            && if before.sel is Blocks {
            after.sel is Here && after.status@ == "selection cleared"@
        } else {
            after.sel == (Sel::Blocks {
                anchor: match before.unit_here() {
                    Some(i) => i as usize,
                    None => 0,
                },
            }) && after.status@ == "block selection — J/K to extend"@
        },
        Action::ToggleLines => after == (App { sel: after.sel, status: after.status, ..before })
            && if before.sel is Lines {
            after.sel is Here && after.status@ == "selection cleared"@
        } else {
            after.sel == (Sel::Lines { anchor: before.cursor.line }) && after.status@
                == "line selection — j/k to extend"@
        },
        Action::Expand => after.took_region(before, before.wider_depth()),
        Action::Contract => after.took_region(before, before.narrower_depth()),
        Action::TogglePretty => after == (App {
            pretty: !before.pretty,
            status: after.status,
            ..before
        }) && after.status@ == if before.pretty {
            "pretty off"@
        } else {
            "pretty on"@
        },
        Action::Comment => match before.selected() {
            None => after == (App { status: after.status, ..before }) && after.status@
                == "nothing to annotate"@,
            Some(_) => after == (App { mode: Mode::Input, editor: after.editor, ..before })
                && after.editor.model() == before.editor.model().fresh(),
        },
        Action::Remove => {
            let v = before.annotations@;
            let i = last_on(v, before.cursor.line as int, v.len() as int);
            &&& after == (App { annotations: after.annotations, status: after.status, ..before })
            &&& if i >= 0 {
                after.annotations@ == v.remove(i) && after.status@ == "annotation removed"@
            } else {
                after.annotations@ == v && after.status@ == "no annotation here"@
            }
        },
        Action::MarkNext => mark_moved(before, after, true),
        Action::MarkPrev => mark_moved(before, after, false),
        Action::DropSelection => after == (App { sel: Sel::Here, ..before }),
    }
}

fn perform_edit(app: &mut App, e: Edit)
    requires
        old(app).wf(),
    ensures
        final(app).wf(),
        *final(app) == (App { editor: final(app).editor, ..*old(app) }),
        final(app).editor.model() == edited(old(app).editor.model(), e),
{
    match e {
        Edit::Newline => app.editor.newline(),
        Edit::Home => app.editor.home(),
        Edit::End => app.editor.end(),
        Edit::Left => app.editor.left(),
        Edit::Right => app.editor.right(),
        Edit::DeleteForward => app.editor.delete_forward(),
        Edit::KillToEnd => app.editor.kill_to_end(),
        Edit::KillToStart => app.editor.kill_to_start(),
        Edit::KillWordBackWs => app.editor.kill_word_back_ws(),
        Edit::Backspace => app.editor.backspace(),
        Edit::HistoryPrev => app.editor.history_prev(),
        Edit::HistoryNext => app.editor.history_next(),
        Edit::WordLeft => app.editor.word_left(),
        Edit::WordRight => app.editor.word_right(),
        Edit::KillWordForward => app.editor.kill_word_forward(),
        Edit::KillWordBack => app.editor.kill_word_back(),
        Edit::Insert(c) => app.editor.insert(c),
    }
}

/// Performs an action.
pub fn perform(app: &mut App, action: Action)
    requires
        old(app).wf(),
        action is Commit ==> old(app).id_left(),
    ensures
        final(app).wf(),
        performed(*old(app), *final(app), action),
{
    match action {
        Action::Nothing => {},
        Action::Quit => {
            app.quit = true;
        },
        Action::Commit => app.commit_comment(),
        Action::Cancel => app.cancel_input(),
        Action::Edit(e) => perform_edit(app, e),
        Action::TogglePeek => app.toggle_peek(),
        Action::ScrollPeekDown => app.scroll_peek(1),
        Action::ScrollPeekUp => app.scroll_peek(-1),
        Action::HalfPageDown => app.page(1, true),
        Action::HalfPageUp => app.page(-1, true),
        Action::PageDown => app.page(1, false),
        Action::PageUp => app.page(-1, false),
        Action::RowDown => app.move_row(1),
        Action::RowUp => app.move_row(-1),
        Action::LineDown => app.move_line(1),
        Action::LineUp => app.move_line(-1),
        Action::CharLeft => app.move_char(-1),
        Action::CharRight => app.move_char(1),
        Action::UnitDown => app.move_block(1),
        Action::UnitUp => app.move_block(-1),
        Action::InlineNext => app.move_inline(1),
        Action::InlinePrev => app.move_inline(-1),
        Action::LineStart => app.goto_line_start(),
        Action::LineEnd => app.goto_line_end(),
        Action::First => app.goto_first(),
        Action::Last => app.goto_last(),
        Action::ToggleBlocks => app.toggle_blocks(),
        Action::ToggleLines => app.toggle_lines(),
        Action::Expand => app.expand(),
        Action::Contract => app.contract(),
        Action::TogglePretty => app.toggle_pretty(),
        Action::Comment => app.begin_comment(),
        Action::Remove => app.remove_at_cursor(),
        Action::MarkNext => app.move_mark(1),
        Action::MarkPrev => app.move_mark(-1),
        Action::DropSelection => {
            app.sel = Sel::Here;
        },
    }
}

/// Takes one key press.
pub fn handle_key(app: &mut App, key: Key, ctrl: bool, alt: bool)
    requires
        old(app).wf(),
        bound(old(app).mode, old(app).peek, key, ctrl, alt) is Commit ==> old(app).id_left(),
    ensures
        final(app).wf(),
        performed(
            *old(app),
            *final(app),
            bound(old(app).mode, old(app).peek, key, ctrl, alt),
        ),
{
    let action = action_for(app, key, ctrl, alt);
    perform(app, action);
}

/// Outside the comment box no ALT chord does anything, whatever the key.
pub proof fn law_normal_mode_binds_no_alt_chord(peek: bool, key: Key, ctrl: bool)
    ensures
        bound(Mode::Normal, peek, key, ctrl, true) is Nothing,
{
}

/// There is a way out of every state: `C-c` quits, or cancels the comment being written, after
/// which it quits.
pub proof fn law_control_c_always_leads_out(mode: Mode, peek: bool)
    ensures
        mode is Normal ==> bound(mode, peek, Key::Char('c'), true, false) is Quit,
        mode is Input ==> bound(mode, peek, Key::Char('c'), true, false) is Cancel,
        forall|before: App, after: App|
            performed(before, after, Action::Cancel) ==> #[trigger] after.mode is Normal
                && #[trigger] before.quit == after.quit,
{
}

/// A chord of the comment box that is bound to nothing does not insert its letter: text is inserted
/// only by a key without modifiers.
pub proof fn law_chords_are_not_typed(key: Key, ctrl: bool, alt: bool, c: char)
    requires
        bound(Mode::Input, false, key, ctrl, alt) == Action::Edit(Edit::Insert(c)),
    ensures
        key == Key::Char(c),
        !ctrl,
        !alt,
{
}

/// No key but the one that commits a comment and the one that removes an annotation changes what
/// has been annotated.
pub proof fn law_only_two_actions_touch_the_annotations(before: App, after: App, action: Action)
    requires
        performed(before, after, action),
        !(action is Commit),
        !(action is Remove),
    ensures
        after.annotations@ == before.annotations@,
{
}

/// No key changes the document that is being annotated, its structure, or where it came from.
pub proof fn law_no_key_changes_the_document(before: App, after: App, action: Action)
    requires
        performed(before, after, action),
    ensures
        after.lines == before.lines,
        after.blocks == before.blocks,
        after.tree == before.tree,
        after.marks == before.marks,
        after.tables == before.tables,
        after.questions == before.questions,
        after.path == before.path,
        after.label == before.label,
{
}

/// Whatever the action, every place the session holds stays on a line of the document: no motion
/// leads off it, and what is annotated lies in it.
pub proof fn law_every_action_keeps_the_session_on_the_file(before: App, after: App, action: Action)
    requires
        before.wf(),
        before.on_file(),
        before.lines@.len() <= usize::MAX,
        performed(before, after, action),
    ensures
        after.on_file(),
{
    let here = Anchor { line: before.cursor.line, row: before.row_here() as usize };
    match action {
        Action::HalfPageDown => lemma_walk_in_document(before, here, before.page_step(true), true),
        Action::HalfPageUp => lemma_walk_in_document(before, here, before.page_step(true), false),
        Action::PageDown => lemma_walk_in_document(before, here, before.page_step(false), true),
        Action::PageUp => lemma_walk_in_document(before, here, before.page_step(false), false),
        Action::RowDown | Action::RowUp => {},
        Action::UnitDown | Action::UnitUp => {
            if before.blocks@.len() > 0 {
                law_no_line_without_a_unit(before.blocks@, before.cursor.line as int);
                assert(on_file(before.blocks@[before.unit_from(1)->0], before.total()));
                assert(on_file(before.blocks@[before.unit_from(-1)->0], before.total()));
            }
        },
        Action::InlineNext => lemma_inline_landing(before, 1),
        Action::InlinePrev => lemma_inline_landing(before, -1),
        Action::LineEnd => {
            let text = text_at(before.ls(), before.cursor.line as int);
            lemma_snapped(text, blen(text));
        },
        Action::MarkNext => lemma_mark_landing(before, true),
        Action::MarkPrev => lemma_mark_landing(before, false),
        Action::Commit => lemma_committed_on_file(before, after),
        Action::Remove => {
            lemma_last_on(before.annotations@, before.cursor.line as int, before.annotations@.len() as int);
            assert forall|i: int| 0 <= i < after.annotations@.len() implies span_in_file(
                (#[trigger] after.annotations@[i]).span(),
                after.total(),
            ) by {
                let k = last_on(before.annotations@, before.cursor.line as int, before.annotations@.len() as int);
                if k >= 0 && i >= k {
                    assert(span_in_file(before.annotations@[i + 1].span(), before.total()));
                } else {
                    assert(span_in_file(before.annotations@[i].span(), before.total()));
                }
            }
        },
        _ => {},
    }
}

proof fn lemma_inline_landing(app: App, dir: int)
    requires
        app.wf(),
    ensures
        app.inline_from(dir) matches Some(p) ==> 1 <= p.line <= app.total() && snapped(
            text_at(app.ls(), p.line as int),
            less(p.col as int, 1),
        ) >= 0,
{
    lemma_inline_stop_in_file(app, dir);
    if let Some(p) = app.inline_from(dir) {
        lemma_snapped(text_at(app.ls(), p.line as int), less(p.col as int, 1));
    }
}

proof fn lemma_mark_landing(app: App, forward: bool)
    requires
        app.on_file(),
    ensures
        mark_from(app.mark_ring(), app.cursor, forward) matches Some(p) ==> 1 <= p.line
            <= app.total() && snapped(text_at(app.ls(), p.line as int), less(p.col as int, 1)) >= 0,
{
    lemma_mark_from(app.mark_ring(), app.cursor, forward);
    if let Some(p) = mark_from(app.mark_ring(), app.cursor, forward) {
        lemma_mark_in_file(app, p);
        lemma_snapped(text_at(app.ls(), p.line as int), less(p.col as int, 1));
    }
}

/// Whatever the action, every annotation keeps an id of its own that was given out before, and the
/// counter never goes back.
pub proof fn law_every_action_keeps_the_ids_apart(before: App, after: App, action: Action)
    requires
        performed(before, after, action),
        action is Commit ==> before.id_left(),
        before.numbered(),
    ensures
        after.numbered(),
        after.next_id >= before.next_id,
        after.annotated(before) ==> action is Commit,
{
    match action {
        Action::Commit => law_a_commit_gives_a_new_id(before, after),
        Action::Remove => {
            let v = before.annotations@;
            let w = after.annotations@;
            let k = last_on(v, before.cursor.line as int, v.len() as int);
            lemma_last_on(v, before.cursor.line as int, v.len() as int);
            if k >= 0 {
                assert forall|i: int| 0 <= i < w.len() implies given_before(
                    (#[trigger] w[i]).id@,
                    after.next_id as int,
                ) by {
                    assert(w[i] == if i < k {
                        v[i]
                    } else {
                        v[i + 1]
                    });
                }
                assert forall|i: int, j: int| 0 <= i < j < w.len() implies (#[trigger] w[i]).id@ != (
                #[trigger] w[j]).id@ by {
                    let (p, q) = (
                        if i < k {
                            i
                        } else {
                            i + 1
                        },
                        if j < k {
                            j
                        } else {
                            j + 1
                        },
                    );
                    assert(w[i] == v[p] && w[j] == v[q]);
                }
            }
        },
        _ => {},
    }
}

/// A session: the states it went through, each from the one before by an action.
pub open spec fn session(states: Seq<App>, actions: Seq<Action>) -> bool {
    &&& states.len() == actions.len() + 1
    &&& states[0].numbered()
    &&& forall|k: int|
        0 <= k < actions.len() ==> performed(states[k], states[k + 1], #[trigger] actions[k]) && (
        actions[k] is Commit ==> states[k].id_left())
}

proof fn lemma_session_counts(states: Seq<App>, actions: Seq<Action>, i: int, j: int)
    requires
        session(states, actions),
        0 <= i <= j <= actions.len(),
    ensures
        states[j].numbered(),
        states[i].next_id <= states[j].next_id,
    decreases j,
{
    if j > 0 {
        lemma_session_counts(states, actions, if i < j {
            i
        } else {
            j - 1
        }, j - 1);
        assert(performed(states[j - 1], states[j], actions[j - 1]));
        law_every_action_keeps_the_ids_apart(states[j - 1], states[j], actions[j - 1]);
    }
}

/// No id is ever used twice in a session: two commits give different ids, whatever was annotated
/// and removed in between.
pub proof fn law_no_id_is_used_twice(states: Seq<App>, actions: Seq<Action>, i: int, j: int)
    requires
        session(states, actions),
        0 <= i < j < actions.len(),
        states[i + 1].annotated(states[i]),
        states[j + 1].annotated(states[j]),
    ensures
        states[i + 1].annotations@.last().id@ != states[j + 1].annotations@.last().id@,
{
    lemma_session_counts(states, actions, 0, i);
    lemma_session_counts(states, actions, i + 1, j);
    assert(performed(states[i], states[i + 1], actions[i]));
    assert(performed(states[j], states[j + 1], actions[j]));
    law_every_action_keeps_the_ids_apart(states[i], states[i + 1], actions[i]);
    law_every_action_keeps_the_ids_apart(states[j], states[j + 1], actions[j]);
    law_a_commit_gives_a_new_id(states[i], states[i + 1]);
    law_a_commit_gives_a_new_id(states[j], states[j + 1]);
    lemma_ids_differ(states[i].next_id as int, states[j].next_id as int);
}

// ---------------------------------------------------------------------------
// What each key is for
// ---------------------------------------------------------------------------

/// The keys of normal mode: moving by line and by character, by unit, by inline node and by mark,
/// to the ends of the line and of the document, by page; selecting, widening and narrowing;
/// commenting, removing, peeking; and leaving.
pub proof fn law_normal_keys_do_what_they_are_for(before: App, after: App, key: Key)
    requires
        performed(before, after, bound(Mode::Normal, false, key, false, false)),
    ensures
        key == Key::Char('j') || key == Key::Down ==> after.came_to(
            before,
            before.line_from(1),
            less(before.cursor.col as int, 1),
        ),
        key == Key::Char('k') || key == Key::Up ==> after.came_to(
            before,
            before.line_from(-1),
            less(before.cursor.col as int, 1),
        ),
        key == Key::Char('h') || key == Key::Left || key == Key::Char('l') || key == Key::Right
            ==> after.cursor.line == before.cursor.line && after.cursor.col == offset(
            text_at(before.ls(), before.cursor.line as int),
            before.char_from(
                if key == Key::Char('h') || key == Key::Left {
                    -1
                } else {
                    1
                },
            ),
        ) + 1 && after.moved_from(before),
        key == Key::Char('J') || key == Key::Char('K') ==> match before.unit_from(
            if key == Key::Char('J') {
                1
            } else {
                -1
            },
        ) {
            None => after.stayed(before),
            Some(i) => after.came_to(
                before,
                before.blocks@[i].span.start.line as int,
                before.blocks@[i].span.start.col - 1,
            ),
        },
        key == Key::Char('w') ==> match next_stop(inline_starts(before.tree.shape()), before.cursor) {
            None => after.cursor == before.cursor,
            Some(p) => after.cursor.line == p.line && after.cursor.col == snapped(
                text_at(before.ls(), p.line as int),
                less(p.col as int, 1),
            ) + 1,
        },
        key == Key::Char('b') ==> match prev_stop(inline_starts(before.tree.shape()), before.cursor) {
            None => after.cursor == before.cursor,
            Some(p) => after.cursor.line == p.line && after.cursor.col == snapped(
                text_at(before.ls(), p.line as int),
                less(p.col as int, 1),
            ) + 1,
        },
        key == Key::Char(']') || key == Key::Char('[') ==> match mark_from(
            before.mark_ring(),
            before.cursor,
            key == Key::Char(']'),
        ) {
            None => after.cursor == before.cursor,
            Some(p) => after.cursor.line == p.line && after.cursor.col == snapped(
                text_at(before.ls(), p.line as int),
                less(p.col as int, 1),
            ) + 1,
        },
        key == Key::Char('0') || key == Key::Home ==> after.cursor == (Pos {
            line: before.cursor.line,
            col: 1,
        }),
        key == Key::Char('$') || key == Key::End ==> after.cursor.line == before.cursor.line
            && after.cursor.col == snapped(
            text_at(before.ls(), before.cursor.line as int),
            blen(text_at(before.ls(), before.cursor.line as int)),
        ) + 1,
        key == Key::Char('g') ==> after.cursor == (Pos { line: 1, col: 1 }),
        key == Key::Char('G') ==> after.cursor.line == before.total() && after.cursor.col == 1,
        key == Key::Char('+') || key == Key::Char('=') ==> after.took_region(
            before,
            before.wider_depth(),
        ),
        key == Key::Char('-') || key == Key::Char('_') ==> after.took_region(
            before,
            before.narrower_depth(),
        ),
        key == Key::Char('P') ==> after.pretty == !before.pretty && after.cursor == before.cursor
            && after.sel == before.sel && after.annotations == before.annotations,
        key == Key::Char('z') && before.selected() is Some && !before.peek ==> after.peek
            && after.peek_scroll == 0,
        key == Key::Char('c') || key == Key::Enter ==> (before.selected() is Some ==> after.mode
            is Input && after.editor.model().text().len() == 0 && after.sel == before.sel
            && after.cursor == before.cursor) && (before.selected() is None ==> after.mode
            == before.mode),
        key == Key::Esc ==> after == (App { sel: Sel::Here, ..before }),
        key == Key::Char('q') ==> after == (App { quit: true, ..before }),
{
}

/// A range is begun where the cursor is, and given up by the key that began it; the cursor stays.
pub proof fn law_selections_begin_where_the_cursor_is(before: App, after: App, lines: bool)
    requires
        performed(
            before,
            after,
            bound(
                Mode::Normal,
                false,
                Key::Char(
                    if lines {
                        'V'
                    } else {
                        'v'
                    },
                ),
                false,
                false,
            ),
        ),
    ensures
        after.cursor == before.cursor,
        after.annotations == before.annotations,
        lines && !(before.sel is Lines) ==> after.sel == (Sel::Lines { anchor: before.cursor.line }),
        lines && before.sel is Lines ==> after.sel is Here,
        !lines && !(before.sel is Blocks) ==> (after.sel matches Sel::Blocks { anchor } && (
        before.unit_here() matches Some(i) ==> anchor == i as usize)),
        !lines && before.sel is Blocks ==> after.sel is Here,
{
}

/// Removing takes one annotation that touches the cursor's line, the latest made, and leaves the
/// others in their order; it changes nothing else. Where none touches the line it takes none.
pub proof fn law_a_removal_takes_one_annotation(before: App, after: App)
    requires
        performed(before, after, bound(Mode::Normal, false, Key::Char('x'), false, false)),
    ensures
        ({
            let v = before.annotations@;
            let i = last_on(v, before.cursor.line as int, v.len() as int);
            &&& 0 <= i ==> i < v.len() && after.annotations@ == v.take(i) + v.skip(i + 1)
            &&& i < 0 ==> after.annotations@ == v
        }),
        after.cursor == before.cursor && after.sel == before.sel && after.mode == before.mode,
{
    let v = before.annotations@;
    let i = last_on(v, before.cursor.line as int, v.len() as int);
    law_a_removal_takes_the_latest_on_the_line(v, before.cursor.line as int);
    if i >= 0 {
        assert(v.remove(i) =~= v.take(i) + v.skip(i + 1));
    }
}

/// The control chords of normal mode: half pages and pages, rows, and leaving. The page keys turn
/// whole pages too.
pub proof fn law_chords_turn_pages(before: App, after: App, key: Key, ctrl: bool)
    requires
        performed(before, after, bound(Mode::Normal, false, key, ctrl, false)),
    ensures
        ctrl && key == Key::Char('d') ==> paged(before, after, true, true),
        ctrl && key == Key::Char('u') ==> paged(before, after, false, true),
        (ctrl && key == Key::Char('f')) || (!ctrl && key == Key::PageDown) ==> paged(
            before,
            after,
            true,
            false,
        ),
        (ctrl && key == Key::Char('b')) || (!ctrl && key == Key::PageUp) ==> paged(
            before,
            after,
            false,
            false,
        ),
        ctrl && (key == Key::Char('n') || key == Key::Char('p')) ==> match before.stepped(
            Anchor { line: before.cursor.line, row: before.row_here() as usize },
            key == Key::Char('n'),
        ) {
            None => after.cursor == before.cursor,
            Some(to) => after.cursor.line == to.line && after.row_here() == to.row,
        },
        ctrl && key == Key::Char('c') ==> after == (App { quit: true, ..before }),
{
}

/// Turning a page moves the cursor by a page of rows while lines wrap and tables align, onto the
/// start of the row it comes to; otherwise by a page of lines, in its column.
pub proof fn law_a_page_is_walked(before: App, after: App, down: bool, half: bool)
    requires
        paged(before, after, down, half),
    ensures
        before.pretty && before.body_width > 0 ==> ({
            let to = before.walked(
                Anchor { line: before.cursor.line, row: before.row_here() as usize },
                before.page_step(half),
                down,
            );
            let rows = before.rows(to.line as int);
            &&& after.cursor.line == to.line
            &&& to.row < rows.len() ==> after.cursor.col == snapped(
                text_at(before.ls(), to.line as int),
                first_src(rows[to.row as int]),
            ) + 1
        }),
        !(before.pretty && before.body_width > 0) && down ==> after.cursor.line == before.line_from(
            before.page_step(half),
        ),
        !(before.pretty && before.body_width > 0) && !down ==> after.cursor.line == before.line_from(
            -before.page_step(half),
        ),
        after.moved_from(before),
{
}

/// The keys of the overlay scroll it, a row at a time and no further than its last row, or close it;
/// no other key does anything.
pub proof fn law_the_overlay_scrolls_and_closes(before: App, after: App, key: Key, ctrl: bool)
    requires
        performed(before, after, bound(Mode::Normal, true, key, ctrl, false)),
        before.peek,
    ensures
        key == Key::Char('j') || key == Key::Down ==> after == (App {
            peek_scroll: if before.peek_scroll + 1 < before.peek_rows {
                (before.peek_scroll + 1) as usize
            } else if before.peek_rows > 0 {
                (before.peek_rows - 1) as usize
            } else {
                0
            },
            ..before
        }),
        (key == Key::Char('k') || key == Key::Up) && 0 < before.peek_scroll && before.peek_scroll
            <= before.peek_rows ==> after == (App {
            peek_scroll: (before.peek_scroll - 1) as usize,
            ..before
        }),
        (key == Key::Char('k') || key == Key::Up) && before.peek_scroll == 0 ==> after == before,
        key == Key::Char('z') || key == Key::Char('q') || key == Key::Esc ==> !after.peek
            && after.cursor == before.cursor && after.sel == before.sel,
        key == Key::Char('c') && ctrl ==> after.quit,
        key == Key::Enter || key == Key::Char('x') || key == Key::Char('v') || key == Key::Char('J')
            ==> after == before,
{
}

/// The keys of the comment editor. A character is typed; the readline chords and the keys that stand
/// for them move, erase and kill, and walk the history; Enter commits and Escape gives up.
pub proof fn law_editing_keys_do_what_they_are_for(
    before: App,
    after: App,
    key: Key,
    ctrl: bool,
    alt: bool,
)
    requires
        performed(before, after, bound(Mode::Input, before.peek, key, ctrl, alt)),
    ensures
        ({
            let d = before.editor.model();
            let e = after.editor.model();
            &&& key matches Key::Char(c) ==> {
                &&& !ctrl && !alt ==> e == d.typed(c)
                &&& ctrl && c == 'j' ==> e == d.typed('\n')
                &&& ctrl && c == 'a' ==> e == d.moved_home()
                &&& ctrl && c == 'e' ==> e == d.moved_end()
                &&& ctrl && c == 'b' ==> e == d.moved_left()
                &&& ctrl && c == 'f' ==> e == d.moved_right()
                &&& ctrl && c == 'd' ==> e == d.deleted()
                &&& ctrl && c == 'h' ==> e == d.erased()
                &&& ctrl && c == 'k' ==> e == d.killed_to_end()
                &&& ctrl && c == 'u' ==> e == d.killed_to_start()
                &&& ctrl && c == 'w' ==> e == d.killed_blob()
                &&& ctrl && c == 'p' ==> e == d.recalled()
                &&& ctrl && c == 'n' ==> e == d.advanced()
                &&& !ctrl && alt && c == 'b' ==> e == d.moved_word_left()
                &&& !ctrl && alt && c == 'f' ==> e == d.moved_word_right()
                &&& !ctrl && alt && c == 'd' ==> e == d.killed_word_forward()
            }
            &&& key == Key::Backspace && !alt ==> e == d.erased()
            &&& key == Key::Backspace && alt ==> e == d.killed_word_back()
            &&& key == Key::Delete ==> e == d.deleted()
            &&& key == Key::Left ==> e == d.moved_left()
            &&& key == Key::Right ==> e == d.moved_right()
            &&& key == Key::Home ==> e == d.moved_home()
            &&& key == Key::End ==> e == d.moved_end()
            &&& key == Key::Up ==> e == d.recalled()
            &&& key == Key::Down ==> e == d.advanced()
            &&& key == Key::Enter ==> after.committed(before)
            &&& key == Key::Esc || (key == Key::Char('c') && ctrl) ==> e == d.fresh() && after.mode
                is Normal && after.annotations == before.annotations && after.sel == before.sel
            &&& key != Key::Enter && key != Key::Esc && !(key == Key::Char('c') && ctrl) ==> after
                == (App { editor: after.editor, ..before })
        }),
{
}

} // verus!
