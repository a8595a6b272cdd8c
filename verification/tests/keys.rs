use crossterm::event::KeyModifiers;
use terracotta_installer::keys::{key, Code, Event, Key, Nav};

fn press(code: Code, modifiers: KeyModifiers) -> Option<Result<Key, Nav>> {
    key(Event::Key { code, modifiers: modifiers.bits(), press: true })
}

#[test]
fn control_keys() {
    let ctrl = KeyModifiers::CONTROL;
    assert_eq!(press(Code::Char('c'), ctrl), Some(Err(Nav::Quit)));
    assert_eq!(press(Code::Char('u'), ctrl), Some(Ok(Key::ClearLine)));
    assert_eq!(press(Code::Char('p'), ctrl), Some(Ok(Key::Up)));
    assert_eq!(press(Code::Char('n'), ctrl), Some(Ok(Key::Down)));
    assert_eq!(press(Code::Char('x'), ctrl), None);
    assert_eq!(press(Code::Char(' '), ctrl), None);
    assert_eq!(press(Code::Char('c'), ctrl | KeyModifiers::SHIFT), Some(Err(Nav::Quit)));
    assert_eq!(press(Code::Enter, ctrl), Some(Ok(Key::Enter)));
}

#[test]
fn without_control_a_letter_is_a_letter() {
    for held in [KeyModifiers::NONE, KeyModifiers::SHIFT, KeyModifiers::ALT, KeyModifiers::META] {
        assert_eq!(press(Code::Char('c'), held), Some(Ok(Key::Char('c'))));
        assert_eq!(press(Code::Char(' '), held), Some(Ok(Key::Space)));
    }
}

#[test]
fn every_set_of_modifiers() {
    for bits in 0..=255u8 {
        let held = KeyModifiers::from_bits_truncate(bits).contains(KeyModifiers::CONTROL);
        let out = key(Event::Key { code: Code::Char('c'), modifiers: bits, press: true });
        assert_eq!(out == Some(Err(Nav::Quit)), held);
    }
}

#[test]
fn other_keys() {
    let none = KeyModifiers::NONE;
    assert_eq!(press(Code::Esc, none), Some(Err(Nav::Back)));
    assert_eq!(press(Code::Up, none), Some(Ok(Key::Up)));
    assert_eq!(press(Code::Down, none), Some(Ok(Key::Down)));
    assert_eq!(press(Code::Enter, none), Some(Ok(Key::Enter)));
    assert_eq!(press(Code::Backspace, none), Some(Ok(Key::Backspace)));
    assert_eq!(press(Code::Other, none), None);
}

#[test]
fn what_is_no_press() {
    assert_eq!(key(Event::Key { code: Code::Esc, modifiers: 0, press: false }), None);
    assert_eq!(key(Event::Resize), Some(Ok(Key::Resize)));
    assert_eq!(key(Event::Other), None);
    assert_eq!(key(Event::Closed), Some(Err(Nav::Quit)));
}
