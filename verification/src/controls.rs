//! What the keys of the keyboard do.
use vstd::prelude::*;

verus! {

/// What the player asked for.
#[derive(Clone, Copy, PartialEq, Eq, Debug, Structural)]
pub enum Action {
    MoveLeft,
    MoveRight,
    Drop,
    Quit,
    Restart,
    Nothing,
}

/// A key of the keyboard, as far as the game tells keys apart.
#[derive(Clone, Copy, PartialEq, Eq, Debug, Structural)]
pub enum Key {
    Left,
    Right,
    Enter,
    Esc,
    Char(char),
    Other,
}

/// The action bound to `key`; only a key press (not a release or a repeat)
/// acts.  Arrows or `h` / `l` move the cursor, Enter or space drops a piece,
/// `q` or Esc quits and `r` restarts.
pub open spec fn key_action(key: Key, pressed: bool) -> Action {
    if !pressed {
        Action::Nothing
    } else {
        match key {
            Key::Left => Action::MoveLeft,
            Key::Char('h') => Action::MoveLeft,
            Key::Right => Action::MoveRight,
            Key::Char('l') => Action::MoveRight,
            Key::Enter => Action::Drop,
            Key::Char(' ') => Action::Drop,
            Key::Char('q') => Action::Quit,
            Key::Esc => Action::Quit,
            Key::Char('r') => Action::Restart,
            _ => Action::Nothing,
        }
    }
}

/// The action bound to a key event.
pub fn action_for_key(key: Key, pressed: bool) -> (a: Action)
    ensures
        a == key_action(key, pressed),
{
    if !pressed {
        return Action::Nothing;
    }
    match key {
        Key::Left | Key::Char('h') => Action::MoveLeft,
        Key::Right | Key::Char('l') => Action::MoveRight,
        Key::Enter | Key::Char(' ') => Action::Drop,
        Key::Char('q') | Key::Esc => Action::Quit,
        Key::Char('r') => Action::Restart,
        _ => Action::Nothing,
    }
}

/// Only key presses act: releasing or repeating any key does nothing.
pub proof fn law_release_does_nothing(key: Key)
    ensures
        key_action(key, false) == Action::Nothing,
{
}

/// Which pressed keys give which action: the arrows or `h` / `l` move, Enter
/// or space drops, `q` or Esc quits, `r` restarts, and every other key does
/// nothing.
pub proof fn law_pressed_keys(key: Key)
    ensures
        key_action(key, true) == Action::MoveLeft <==> (key == Key::Left || key == Key::Char('h')),
        key_action(key, true) == Action::MoveRight <==> (key == Key::Right || key == Key::Char('l')),
        key_action(key, true) == Action::Drop <==> (key == Key::Enter || key == Key::Char(' ')),
        key_action(key, true) == Action::Quit <==> (key == Key::Esc || key == Key::Char('q')),
        key_action(key, true) == Action::Restart <==> key == Key::Char('r'),
        key_action(key, true) == Action::Nothing <==> !(key == Key::Left || key == Key::Char('h') || key
            == Key::Right || key == Key::Char('l') || key == Key::Enter || key == Key::Char(' ') || key
            == Key::Esc || key == Key::Char('q') || key == Key::Char('r')),
{
}

} // verus!
