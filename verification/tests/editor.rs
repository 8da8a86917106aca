use marginal::editor::Editor;

fn ed(text: &str, cursor: usize) -> Editor {
    let mut e = Editor::default();
    e.set(text);
    e.cursor = cursor;
    e
}

fn show(e: &Editor) -> String {
    let mut s = e.text.clone();
    s.insert(e.cursor, '|');
    s
}

#[test]
fn typing_and_backspace() {
    let mut e = Editor::default();
    for c in "abc".chars() {
        e.insert(c);
    }
    assert_eq!(show(&e), "abc|");
    e.backspace();
    assert_eq!(show(&e), "ab|");
    e.left();
    e.insert('X');
    assert_eq!(show(&e), "aX|b");
}

#[test]
fn backspace_at_the_start_is_a_no_op() {
    let mut e = ed("abc", 0);
    e.backspace();
    assert_eq!(show(&e), "|abc");
}

#[test]
fn ctrl_a_and_ctrl_e_are_line_local() {
    let mut e = ed("first line\nsecond line", 15);
    e.home();
    assert_eq!(show(&e), "first line\n|second line");
    e.end();
    assert_eq!(show(&e), "first line\nsecond line|");
    e.home();
    e.left(); // across the newline
    e.home();
    assert_eq!(show(&e), "|first line\nsecond line");
}

#[test]
fn ctrl_j_inserts_a_newline_without_committing() {
    let mut e = Editor::default();
    for c in "one".chars() {
        e.insert(c);
    }
    e.newline();
    for c in "two".chars() {
        e.insert(c);
    }
    assert_eq!(e.text(), "one\ntwo");
    assert_eq!(e.rows(), vec!["one", "two"]);
    assert_eq!(e.row_col(), (1, 3));
}

#[test]
fn ctrl_u_kills_to_line_start_and_keeps_the_tail() {
    let mut e = ed("hello world", 6);
    e.kill_to_start();
    assert_eq!(show(&e), "|world");
}

#[test]
fn ctrl_u_on_the_second_line_leaves_the_first_alone() {
    let mut e = ed("keep me\ndrop this", 13);
    e.kill_to_start();
    assert_eq!(show(&e), "keep me\n|this");
}

#[test]
fn ctrl_k_kills_to_end_then_swallows_the_newline() {
    let mut e = ed("hello world", 5);
    e.kill_to_end();
    assert_eq!(show(&e), "hello|");

    let mut e = ed("one\ntwo", 3);
    e.kill_to_end(); // already at line end -> join the lines
    assert_eq!(show(&e), "one|two");
}

#[test]
fn ctrl_w_is_whitespace_delimited_and_takes_punctuation() {
    let mut e = ed("call foo.bar()", 14);
    e.kill_word_back_ws();
    assert_eq!(show(&e), "call |");
}

#[test]
fn ctrl_w_skips_trailing_whitespace_first() {
    let mut e = ed("one two   ", 10);
    e.kill_word_back_ws();
    assert_eq!(show(&e), "one |");
}

#[test]
fn meta_del_stops_at_punctuation_unlike_ctrl_w() {
    let mut e = ed("call foo.bar()", 14);
    e.kill_word_back();
    assert_eq!(show(&e), "call foo.|");
    e.kill_word_back();
    assert_eq!(show(&e), "call |");
}

#[test]
fn meta_d_kills_the_word_ahead() {
    let mut e = ed("delete this word", 6);
    e.kill_word_forward();
    assert_eq!(show(&e), "delete| word");

    let mut e = ed("delete this word", 7);
    e.kill_word_forward();
    assert_eq!(show(&e), "delete | word");
}

#[test]
fn ctrl_d_deletes_forward_and_stops_at_the_end() {
    let mut e = ed("abc", 1);
    e.delete_forward();
    assert_eq!(show(&e), "a|c");
    e.end();
    e.delete_forward();
    assert_eq!(show(&e), "ac|");
}

#[test]
fn word_motions_move_without_editing() {
    let mut e = ed("alpha beta gamma", 16);
    e.word_left();
    assert_eq!(show(&e), "alpha beta |gamma");
    e.word_left();
    assert_eq!(show(&e), "alpha |beta gamma");
    e.word_right();
    assert_eq!(show(&e), "alpha beta| gamma");
}

#[test]
fn every_operation_respects_character_boundaries() {
    let mut e = ed("Prüfen köde ✓", 0);
    e.right();
    e.right();
    e.right(); // P, r, ü
    assert_eq!(e.cursor, 4);
    e.backspace();
    assert_eq!(e.text(), "Prfen köde ✓");
    e.end();
    e.kill_word_back_ws();
    assert_eq!(e.text(), "Prfen köde ");
    e.kill_word_back_ws();
    assert_eq!(e.text(), "Prfen ");
}

#[test]
fn history_recalls_previous_comments_and_returns() {
    let mut e = Editor::default();
    e.set("first");
    e.submit();
    e.set("second");
    e.submit();

    e.set("draft");
    e.history_prev();
    assert_eq!(e.text(), "second");
    e.history_prev();
    assert_eq!(e.text(), "first");
    e.history_prev(); // clamped at the oldest
    assert_eq!(e.text(), "first");
    e.history_next();
    assert_eq!(e.text(), "second");
    e.history_next(); // back to what was being typed
    assert_eq!(e.text(), "draft");
}

#[test]
fn a_cursor_motion_does_not_throw_away_the_stashed_draft() {
    for motion in [
        Editor::left,
        Editor::right,
        Editor::home,
        Editor::end,
        Editor::word_left,
        Editor::word_right,
    ] {
        let mut e = Editor::default();
        e.set("old comment");
        e.submit();

        e.set("my new draft");
        e.history_prev();
        assert_eq!(e.text(), "old comment");
        motion(&mut e);
        e.history_next();
        assert_eq!(e.text(), "my new draft", "draft lost by a cursor motion");
    }
}

#[test]
fn history_ignores_blanks_and_immediate_repeats() {
    let mut e = Editor::default();
    e.set("  ");
    e.submit();
    e.set("same");
    e.submit();
    e.set("same");
    e.submit();
    e.history_prev();
    assert_eq!(e.text(), "same");
    e.history_prev();
    assert_eq!(e.text(), "same");
    assert_eq!(e.history.len(), 1);
}

#[test]
fn typing_after_a_recall_stops_browsing() {
    let mut e = Editor::default();
    e.set("old");
    e.submit();
    e.set("new draft");
    e.history_prev();
    assert_eq!(e.text(), "old");
    e.insert('!');
    e.history_next(); // no longer browsing, so nothing is restored
    assert_eq!(e.text(), "old!");
}

#[test]
fn submit_clears_the_buffer() {
    let mut e = Editor::default();
    e.set("something");
    assert_eq!(e.submit(), "something");
    assert!(e.text().is_empty());
    assert_eq!(e.cursor, 0);
}

#[test]
fn operations_on_an_empty_buffer_never_panic() {
    let mut e = Editor::default();
    e.left();
    e.right();
    e.home();
    e.end();
    e.backspace();
    e.delete_forward();
    e.kill_to_end();
    e.kill_to_start();
    e.kill_word_back();
    e.kill_word_back_ws();
    e.kill_word_forward();
    e.word_left();
    e.word_right();
    e.history_prev();
    e.history_next();
    assert!(e.text().is_empty());
    assert!(e.text().trim().is_empty());
}
