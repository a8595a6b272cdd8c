//! From what the terminal reports to what a screen understands.

use vstd::prelude::*;

verus! {

/// How the user left a screen.
#[derive(Debug, Clone, Copy, PartialEq, Eq, Structural)]
pub enum Nav {
    /// Esc: go back one screen.
    Back,
    /// Ctrl-C: leave the installer without touching the disk.
    Quit,
}

/// What a screen was answered, or how it was left.
pub type Answer<T> = Result<T, Nav>;

/// A key, as far as the screens tell keys apart.
#[derive(Debug, Clone, Copy, PartialEq, Eq, Structural)]
pub enum Code {
    Char(char),
    Esc,
    Up,
    Down,
    Enter,
    Backspace,
    Other,
}

/// What came from the terminal.
#[derive(Debug, Clone, Copy, PartialEq, Eq, Structural)]
pub enum Event {
    /// The terminal has another size.
    Resize,
    /// A key, with the modifiers that were held, one bit each. `press` is false
    /// when it was released or repeats.
    Key { code: Code, modifiers: u8, press: bool },
    /// Anything else.
    Other,
    /// Nothing can be read any more.
    Closed,
}

/// What a screen is told.
#[derive(Debug, Clone, Copy, PartialEq, Eq, Structural)]
pub enum Key {
    Up,
    Down,
    Enter,
    Backspace,
    ClearLine,
    Space,
    Char(char),
    Resize,
}

/// The bit of a set of modifiers that stands for the control key.
pub open spec fn control_bit(modifiers: u8) -> bool {
    modifiers & 2 == 2
}

/// `KeyModifiers::from_bits_retain` and `KeyModifiers::contains` of the
/// crossterm crate: whether the flag `CONTROL`, the second lowest bit, is set
/// in the given bits.
#[verifier::external_body]
fn control(modifiers: u8) -> (r: bool)
    ensures
        r == control_bit(modifiers),
{
    crossterm::event::KeyModifiers::from_bits_retain(modifiers).contains(
        crossterm::event::KeyModifiers::CONTROL,
    )
}

/// What a key that was pressed means; `None` when it means nothing.
pub open spec fn pressed(code: Code, ctrl: bool) -> Option<Answer<Key>> {
    match code {
        Code::Char(c) => if ctrl {
            if c == 'c' {
                Some(Err(Nav::Quit))
            } else if c == 'u' {
                Some(Ok(Key::ClearLine))
            } else if c == 'p' {
                Some(Ok(Key::Up))
            } else if c == 'n' {
                Some(Ok(Key::Down))
            } else {
                None
            }
        } else if c == ' ' {
            Some(Ok(Key::Space))
        } else {
            Some(Ok(Key::Char(c)))
        },
        Code::Esc => Some(Err(Nav::Back)),
        Code::Up => Some(Ok(Key::Up)),
        Code::Down => Some(Ok(Key::Down)),
        Code::Enter => Some(Ok(Key::Enter)),
        Code::Backspace => Some(Ok(Key::Backspace)),
        Code::Other => None,
    }
}

/// What an event means; `None` when the next one is to be read.
pub open spec fn meaning(event: Event) -> Option<Answer<Key>> {
    match event {
        Event::Resize => Some(Ok(Key::Resize)),
        Event::Key { code, modifiers, press } => if press {
            pressed(code, control_bit(modifiers))
        } else {
            None
        },
        Event::Other => None,
        // A closed stdin cannot be recovered from and must not spin.
        Event::Closed => Some(Err(Nav::Quit)),
    }
}

/// What an event means, Ctrl-C and Esc translated into navigation; `None` when
/// the next one is to be read.
pub fn key(event: Event) -> (out: Option<Answer<Key>>)
    ensures
        out == meaning(event),
{
    match event {
        Event::Resize => Some(Ok(Key::Resize)),
        Event::Key { code, modifiers, press } => {
            if !press {
                return None;
            }
            let ctrl = control(modifiers);
            match code {
                Code::Char(c) => {
                    if ctrl {
                        if c == 'c' {
                            Some(Err(Nav::Quit))
                        } else if c == 'u' {
                            Some(Ok(Key::ClearLine))
                        } else if c == 'p' {
                            Some(Ok(Key::Up))
                        } else if c == 'n' {
                            Some(Ok(Key::Down))
                        } else {
                            None
                        }
                    } else if c == ' ' {
                        Some(Ok(Key::Space))
                    } else {
                        Some(Ok(Key::Char(c)))
                    }
                },
                Code::Esc => Some(Err(Nav::Back)),
                Code::Up => Some(Ok(Key::Up)),
                Code::Down => Some(Ok(Key::Down)),
                Code::Enter => Some(Ok(Key::Enter)),
                Code::Backspace => Some(Ok(Key::Backspace)),
                Code::Other => None,
            }
        },
        Event::Other => None,
        Event::Closed => Some(Err(Nav::Quit)),
    }
}

/// Only Esc goes back, and only Ctrl-C, or the end of all input, quits.
pub proof fn lemma_ways_out(event: Event)
    ensures
        meaning(event) == Some(Err::<Key, Nav>(Nav::Back)) <==> (event matches Event::Key {
            code,
            modifiers,
            press,
        } && press && code == Code::Esc),
        meaning(event) == Some(Err::<Key, Nav>(Nav::Quit)) <==> (event == Event::Closed || (
        event matches Event::Key { code, modifiers, press } && press && control_bit(modifiers)
            && code == Code::Char('c'))),
{
}

/// Every character that is typed without the control key reaches the screen as
/// itself, but for the space, which is a key of its own. With the control key
/// only four characters mean anything. A key that is not pressed means nothing,
/// and neither does what is no key.
pub proof fn lemma_typed_characters_arrive(c: char, modifiers: u8, code: Code)
    ensures
        ({
            let typed = meaning(Event::Key { code: Code::Char(c), modifiers, press: true });
            &&& modifiers & 2 != 2 && c != ' ' ==> typed == Some(Ok::<Key, Nav>(Key::Char(c)))
            &&& modifiers & 2 != 2 && c == ' ' ==> typed == Some(Ok::<Key, Nav>(Key::Space))
            &&& modifiers & 2 == 2 && c == 'u' ==> typed == Some(Ok::<Key, Nav>(Key::ClearLine))
            &&& modifiers & 2 == 2 && c == 'p' ==> typed == Some(Ok::<Key, Nav>(Key::Up))
            &&& modifiers & 2 == 2 && c == 'n' ==> typed == Some(Ok::<Key, Nav>(Key::Down))
            &&& modifiers & 2 == 2 && c != 'c' && c != 'u' && c != 'p' && c != 'n' ==> typed is None
        }),
        meaning(Event::Key { code, modifiers, press: false }) is None,
        meaning(Event::Other) is None,
        meaning(Event::Resize) == Some(Ok::<Key, Nav>(Key::Resize)),
        meaning(Event::Key { code: Code::Up, modifiers, press: true }) == Some(
            Ok::<Key, Nav>(Key::Up),
        ),
        meaning(Event::Key { code: Code::Down, modifiers, press: true }) == Some(
            Ok::<Key, Nav>(Key::Down),
        ),
        meaning(Event::Key { code: Code::Enter, modifiers, press: true }) == Some(
            Ok::<Key, Nav>(Key::Enter),
        ),
        meaning(Event::Key { code: Code::Backspace, modifiers, press: true }) == Some(
            Ok::<Key, Nav>(Key::Backspace),
        ),
        meaning(Event::Key { code: Code::Other, modifiers, press: true }) is None,
{
}

} // verus!
