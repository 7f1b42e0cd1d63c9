use vstd::prelude::*;

use crate::keys::Key;

verus! {

/// A synthetic input event that a backend dispatches to the focused window.
#[derive(Clone, Copy, Debug, PartialEq, Eq)]
pub enum InputEvent {
    /// A logical key goes down.
    Press(Key),
    /// A logical key goes up.
    Release(Key),
    /// A character is typed through the platform's text primitive.
    Type(char),
    /// A physical key code of the virtual input device goes down.
    RawPress(u32),
    /// A physical key code of the virtual input device goes up.
    RawRelease(u32),
}

/// The modifiers that a capture context reports.
#[derive(Clone, Copy, Debug, PartialEq, Eq)]
pub enum KeyModifier {
    Meta,
    Shift,
    Alt,
    Ctrl,
    Backspace,
}

/// A normalised captured key event.
#[derive(Clone, Copy, Debug, PartialEq, Eq)]
pub enum KeyEvent {
    Char(char),
    Modifier(KeyModifier),
}

/// What a capture context sends to the matching logic.
#[derive(Clone, Copy, Debug, PartialEq, Eq)]
pub enum Event {
    Key(KeyEvent),
}

/// Press then release of one key.
pub open spec fn tap(k: Key) -> Seq<InputEvent> {
    seq![InputEvent::Press(k), InputEvent::Release(k)]
}

/// Each key pressed and released in turn, in list order.
pub open spec fn keys_plan(keys: Seq<Key>) -> Seq<InputEvent>
    decreases keys.len(),
{
    if keys.len() == 0 {
        seq![]
    } else {
        keys_plan(keys.drop_last()) + tap(keys.last())
    }
}

/// Every key pressed in list order.
pub open spec fn presses(keys: Seq<Key>) -> Seq<InputEvent> {
    keys.map_values(|k: Key| InputEvent::Press(k))
}

/// Every key released in reverse list order.
pub open spec fn releases_reversed(keys: Seq<Key>) -> Seq<InputEvent> {
    Seq::new(keys.len(), |i: int| InputEvent::Release(keys[keys.len() - 1 - i]))
}

/// All keys held down in list order, then released in reverse order.
pub open spec fn combination_plan(keys: Seq<Key>) -> Seq<InputEvent> {
    presses(keys) + releases_reversed(keys)
}

/// Press and release every key of `keys`, in list order.
pub fn key_events(keys: &[Key]) -> (r: Vec<InputEvent>)
    ensures
        r@ == keys_plan(keys@),
{
    let mut r: Vec<InputEvent> = Vec::new();
    let mut i: usize = 0;
    while i < keys.len()
        invariant
            i <= keys@.len(),
            r@ == keys_plan(keys@.take(i as int)),
        decreases keys.len() - i,
    {
        let k = keys[i];
        r.push(InputEvent::Press(k));
        r.push(InputEvent::Release(k));
        assert(keys@.take(i + 1).drop_last() == keys@.take(i as int));
        i += 1;
    }
    assert(keys@.take(keys@.len() as int) == keys@);
    r
}

/// Hold every key of `keys` in list order, then release them in reverse order.
pub fn combination_events(keys: &[Key]) -> (r: Vec<InputEvent>)
    ensures
        r@ == combination_plan(keys@),
{
    let mut r: Vec<InputEvent> = Vec::new();
    let mut i: usize = 0;
    while i < keys.len()
        invariant
            i <= keys@.len(),
            r@ == presses(keys@.take(i as int)),
        decreases keys.len() - i,
    {
        r.push(InputEvent::Press(keys[i]));
        assert(presses(keys@.take(i + 1)) == presses(keys@.take(i as int)).push(
            InputEvent::Press(keys@[i as int]),
        ));
        i += 1;
    }
    assert(keys@.take(keys@.len() as int) == keys@);
    let mut j: usize = keys.len();
    while j > 0
        invariant
            j <= keys@.len(),
            r@ == presses(keys@) + releases_reversed(keys@).take(keys@.len() - j),
        decreases j,
    {
        j -= 1;
        r.push(InputEvent::Release(keys[j]));
        assert(releases_reversed(keys@).take(keys@.len() - j) == releases_reversed(keys@).take(
            keys@.len() - j - 1,
        ).push(InputEvent::Release(keys@[j as int])));
    }
    assert(releases_reversed(keys@).take(keys@.len() as int) == releases_reversed(keys@));
    r
}

} // verus!
