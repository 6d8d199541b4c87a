use oxi::readline::{
    Action, Buffer, History, Instance, KeyCode, KeyPress, Prompt, ReadlineError,
};
use std::collections::VecDeque;

fn ev_char(c: char) -> KeyPress {
    KeyPress { code: KeyCode::Char(c), control_only: false, no_modifiers: true }
}
fn ev_ctrl(c: char) -> KeyPress {
    KeyPress { code: KeyCode::Char(c), control_only: true, no_modifiers: false }
}
fn ev(code: KeyCode) -> KeyPress {
    KeyPress { code, control_only: false, no_modifiers: true }
}

/// Reads one line from queued key presses, as a terminal would deliver them.
fn readline(inst: &mut Instance, events: &mut VecDeque<KeyPress>) -> Result<String, ReadlineError> {
    let mut buf = Buffer::new();
    loop {
        let key = match events.pop_front() {
            Some(k) => k,
            None => {
                return Err(ReadlineError::Io(std::io::Error::new(
                    std::io::ErrorKind::UnexpectedEof,
                    "no events",
                )))
            }
        };
        match inst.handle_key(&mut buf, key) {
            Action::Continue => {}
            Action::Line(l) => return Ok(l),
            Action::Interrupted => return Err(ReadlineError::Interrupted),
            Action::Eof => return Err(ReadlineError::Eof),
        }
    }
}

#[test]
fn editing_basic() {
    let mut events: VecDeque<KeyPress> =
        vec![ev_char('a'), ev(KeyCode::Left), ev_char('b'), ev(KeyCode::Enter)].into();
    let mut inst = Instance::new(Prompt::default());
    let line = readline(&mut inst, &mut events).unwrap();
    assert_eq!(line, "ba");
}

#[test]
fn history_navigation() {
    let mut events: VecDeque<KeyPress> = VecDeque::new();
    events.extend(vec![ev_char('f'), ev_char('o'), ev_char('o'), ev(KeyCode::Enter)]);
    let mut inst = Instance::new(Prompt::default());
    let line1 = readline(&mut inst, &mut events).unwrap();
    assert_eq!(line1, "foo");
    events.extend(vec![ev(KeyCode::Up), ev(KeyCode::Enter)]);
    let line2 = readline(&mut inst, &mut events).unwrap();
    assert_eq!(line2, "foo");
}

#[test]
fn ctrl_c_interrupt() {
    let mut events: VecDeque<KeyPress> = vec![ev_ctrl('c')].into();
    let mut inst = Instance::new(Prompt::default());
    let err = readline(&mut inst, &mut events).unwrap_err();
    assert_eq!(err, ReadlineError::Interrupted);
}

#[test]
fn ctrl_d_eof() {
    let mut events: VecDeque<KeyPress> = vec![ev_ctrl('d')].into();
    let mut inst = Instance::new(Prompt::default());
    let err = readline(&mut inst, &mut events).unwrap_err();
    assert_eq!(err, ReadlineError::Eof);
}

#[test]
fn buffer_add_then_remove_restores() {
    let mut b = Buffer::new();
    b.add('x');
    b.add('y');
    b.move_left();
    b.add('z');
    assert_eq!(b.string(), "xzy");
    b.remove();
    assert_eq!(b.string(), "xy");
    b.delete();
    assert_eq!(b.string(), "x");
    b.move_to_start();
    b.delete();
    assert!(b.is_empty());
}

#[test]
fn history_prev_next() {
    let mut h = History::new();
    h.add("a".to_string());
    h.add("b".to_string());
    assert_eq!(h.size(), 2);
    assert_eq!(h.prev(), Some("b".to_string()));
    assert_eq!(h.prev(), Some("a".to_string()));
    assert_eq!(h.prev(), None);
    assert_eq!(h.next(), Some("b".to_string()));
    assert_eq!(h.next(), None);
    h.disable();
    h.add("c".to_string());
    assert_eq!(h.size(), 2);
}

#[test]
fn prompt_alt() {
    let mut p = Prompt::default();
    assert_eq!(p.prompt(), ">");
    p.use_alt = true;
    p.alt_prompt = "...".into();
    p.alt_placeholder = "hint".into();
    assert_eq!(p.prompt(), "...");
    assert_eq!(p.placeholder(), "hint");
}

#[test]
fn readline_error_messages() {
    assert_eq!(ReadlineError::Interrupted.to_string(), "interrupted");
    assert_eq!(ReadlineError::Eof.to_string(), "eof");
    assert_ne!(ReadlineError::Eof, ReadlineError::Interrupted);
}
