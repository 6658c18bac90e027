use willo::editor::{scroll_step, shown, Key, KeyAction, LineEditor, Shown, MAX_LINE};

#[test]
fn editor_builds_and_submits_line() {
    let mut e = LineEditor::new();
    assert_eq!(e.press(Key::Char('l'), 25), KeyAction::Echo('l'));
    assert_eq!(e.press(Key::Char('s'), 25), KeyAction::Echo('s'));
    assert_eq!(e.press(Key::Char('\n'), 25), KeyAction::Submit("ls".to_string()));
    // The next line starts empty.
    assert_eq!(e.press(Key::Char('\n'), 25), KeyAction::Submit(String::new()));
}

#[test]
fn editor_backspace_and_delete() {
    let mut e = LineEditor::new();
    assert_eq!(e.press(Key::Char('\x08'), 25), KeyAction::Nothing);
    e.press(Key::Char('a'), 25);
    e.press(Key::Char('b'), 25);
    assert_eq!(e.press(Key::Char('\x08'), 25), KeyAction::Erase);
    assert_eq!(e.press(Key::Char('\x7f'), 25), KeyAction::Erase);
    assert_eq!(e.press(Key::Char('\x7f'), 25), KeyAction::Nothing);
    e.press(Key::Char('c'), 25);
    assert_eq!(e.press(Key::Char('\n'), 25), KeyAction::Submit("c".to_string()));
}

#[test]
fn editor_ignores_unprintable_and_caps_length() {
    let mut e = LineEditor::new();
    assert_eq!(e.press(Key::Char('\t'), 25), KeyAction::Nothing);
    assert_eq!(e.press(Key::Char('é'), 25), KeyAction::Nothing);
    for _ in 0..MAX_LINE {
        assert_eq!(e.press(Key::Char('x'), 25), KeyAction::Echo('x'));
    }
    assert_eq!(e.press(Key::Char('x'), 25), KeyAction::Nothing);
    match e.press(Key::Char('\n'), 25) {
        KeyAction::Submit(s) => assert_eq!(s.len(), 120),
        other => panic!("expected a submitted line, got {other:?}"),
    }
}

#[test]
fn editor_scroll_keys() {
    let mut e = LineEditor::new();
    assert_eq!(e.press(Key::PageUp, 25), KeyAction::ScrollUp(24));
    assert_eq!(e.press(Key::PageDown, 25), KeyAction::ScrollDown(24));
    assert_eq!(e.press(Key::End, 25), KeyAction::ScrollEnd);
    assert_eq!(e.press(Key::Other, 25), KeyAction::Nothing);
    assert_eq!(e.press(Key::PageUp, 1), KeyAction::ScrollUp(1));
    assert_eq!(e.press(Key::PageUp, 0), KeyAction::ScrollUp(1));
}

#[test]
fn scroll_step_is_one_less_than_a_screen() {
    assert_eq!(scroll_step(0), 1);
    assert_eq!(scroll_step(1), 1);
    assert_eq!(scroll_step(2), 1);
    assert_eq!(scroll_step(3), 2);
    assert_eq!(scroll_step(50), 49);
}

#[test]
fn shown_output_actions() {
    assert_eq!(shown("\x1bCLR"), Shown::Clear);
    assert_eq!(shown("hi\n"), Shown::Print);
    assert_eq!(shown(""), Shown::Nothing);
}
