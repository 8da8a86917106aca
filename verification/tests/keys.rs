use marginal::app::App;
use marginal::keys::{handle_key, Key};

const DOC: &str = "# Steps\n\n- one\n- two\n";

#[test]
fn normal_mode_binds_no_alt_chord() {
    let mut app = App::new("t.md".into(), DOC);
    handle_key(&mut app, Key::Char('c'), false, false);
    app.editor.set("keep me");
    handle_key(&mut app, Key::Enter, false, false);
    assert_eq!(app.annotations.len(), 1, "setup failed");

    handle_key(&mut app, Key::Char('x'), false, true);
    assert_eq!(app.annotations.len(), 1, "M-x removed an annotation");

    handle_key(&mut app, Key::Char('q'), false, true);
    assert!(!app.quit, "M-q quit");

    handle_key(&mut app, Key::Char('x'), false, false);
    assert!(app.annotations.is_empty(), "plain x stopped working");
    handle_key(&mut app, Key::Char('q'), false, false);
    assert!(app.quit, "plain q stopped working");
}

#[test]
fn the_peek_overlay_binds_no_alt_chord() {
    let mut app = App::new("t.md".into(), DOC);
    handle_key(&mut app, Key::Char('z'), false, false);
    assert!(app.peek, "setup failed");
    handle_key(&mut app, Key::Char('q'), false, true);
    assert!(app.peek, "M-q closed the overlay");
    assert!(!app.quit);
    handle_key(&mut app, Key::Char('q'), false, false);
    assert!(!app.peek, "plain q stopped closing the overlay");
}
