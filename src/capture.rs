use vstd::prelude::*;

use crate::event::{Event, KeyEvent, KeyModifier};

verus! {

#[verifier::external_type_specification]
#[verifier::external_body]
#[verifier::reject_recursive_types(T)]
pub struct ExSender<T>(std::sync::mpsc::Sender<T>);

/// What std's lossy UTF-8 decoding makes of a buffer.
pub uninterp spec fn lossy_utf8(b: Seq<u8>) -> Seq<char>;

/// Relies on String::from_utf8_lossy: decodes UTF-8, replacing each invalid
/// sequence with U+FFFD, so every byte ends up in some character; an empty
/// buffer gives an empty string and any other a non-empty one.
#[verifier::external_body]
fn decode_lossy(b: &[u8]) -> (r: String)
    ensures
        r@ == lossy_utf8(b@),
        b@.len() == 0 ==> r@.len() == 0,
        b@.len() > 0 ==> r@.len() > 0,
{
    String::from_utf8_lossy(b).into_owned()
}

/// Relies on Sender::send: hands the event to the receiving side; it fails
/// only when that side is gone.
#[verifier::external_body]
fn forward(ch: &std::sync::mpsc::Sender<Event>, e: Event) -> (r: bool) {
    ch.send(e).is_ok()
}

/// The native key codes of the modifiers that the capture reports.
pub open spec fn modifier_for(code: i32) -> Option<KeyModifier> {
    if code == 133 {
        Some(KeyModifier::Meta)
    } else if code == 50 {
        Some(KeyModifier::Shift)
    } else if code == 64 {
        Some(KeyModifier::Alt)
    } else if code == 37 {
        Some(KeyModifier::Ctrl)
    } else if code == 22 {
        Some(KeyModifier::Backspace)
    } else {
        None
    }
}

/// The event for a native key event: for a character event the first
/// character of its decoded text, if any; for a modifier event the modifier
/// of its code, if it is one of those reported.
pub open spec fn event_for(is_modifier: i32, key_code: i32, decoded: Seq<char>) -> Option<Event> {
    if is_modifier == 0 {
        if decoded.len() > 0 {
            Some(Event::Key(KeyEvent::Char(decoded[0])))
        } else {
            None
        }
    } else {
        match modifier_for(key_code) {
            Some(m) => Some(Event::Key(KeyEvent::Modifier(m))),
            None => None,
        }
    }
}

/// The event for a native key event whose buffer has been decoded.
pub fn event_from_decoded(is_modifier: i32, key_code: i32, decoded: &str) -> (r: Option<Event>)
    ensures
        r == event_for(is_modifier, key_code, decoded@),
{
    if is_modifier == 0 {
        if decoded.unicode_len() > 0 {
            Some(Event::Key(KeyEvent::Char(decoded.get_char(0))))
        } else {
            None
        }
    } else {
        let m = if key_code == 133 {
            Some(KeyModifier::Meta)
        } else if key_code == 50 {
            Some(KeyModifier::Shift)
        } else if key_code == 64 {
            Some(KeyModifier::Alt)
        } else if key_code == 37 {
            Some(KeyModifier::Ctrl)
        } else if key_code == 22 {
            Some(KeyModifier::Backspace)
        } else {
            None
        };
        match m {
            Some(m) => Some(Event::Key(KeyEvent::Modifier(m))),
            None => None,
        }
    }
}

/// The event for a native key event: `raw` is the text buffer of a
/// character event; a modifier event carries its native `key_code`.
pub fn classify_keypress(raw: &[u8], is_modifier: i32, key_code: i32) -> (r: Option<Event>)
    ensures
        is_modifier == 0 ==> r == event_for(is_modifier, key_code, lossy_utf8(raw@)),
        is_modifier != 0 ==> r == event_for(is_modifier, key_code, Seq::empty()),
        is_modifier == 0 && raw@.len() == 0 ==> r is None,
        is_modifier == 0 && raw@.len() > 0 ==> r is Some && r->Some_0 matches Event::Key(
            KeyEvent::Char(_),
        ),
{
    if is_modifier == 0 {
        let decoded = decode_lossy(raw);
        event_from_decoded(is_modifier, key_code, decoded.as_str())
    } else {
        event_from_decoded(is_modifier, key_code, "")
    }
}

/// A native modifier event with a code outside those reported gives no
/// event.
pub proof fn lemma_unknown_modifier_dropped(key_code: i32, is_modifier: i32, decoded: Seq<char>)
    requires
        is_modifier != 0,
        key_code != 133 && key_code != 50 && key_code != 64 && key_code != 37 && key_code != 22,
    ensures
        event_for(is_modifier, key_code, decoded) is None,
{
}

/// Why a captured event could not be handed on.
#[derive(Clone, Copy, Debug, PartialEq, Eq)]
pub enum CaptureError {
    /// The receiving side of the channel is gone.
    Disconnected,
}

/// The Linux capture context: turns native key events into events on its
/// channel, in the order they arrive.
pub struct LinuxContext {
    pub send_channel: std::sync::mpsc::Sender<Event>,
}

impl LinuxContext {
    pub fn new(send_channel: std::sync::mpsc::Sender<Event>) -> (r: Box<LinuxContext>)
        ensures
            r.send_channel == send_channel,
    {
        Box::new(LinuxContext { send_channel })
    }

    /// Handles one native key event: sends its event, if it has one, and
    /// returns what was sent. Events without a meaning here are dropped
    /// without error.
    pub fn on_keypress(&self, raw: &[u8], is_modifier: i32, key_code: i32) -> (r: Result<
        Option<Event>,
        CaptureError,
    >)
        ensures
            ({
                let e = if is_modifier == 0 {
                    event_for(is_modifier, key_code, lossy_utf8(raw@))
                } else {
                    event_for(is_modifier, key_code, Seq::empty())
                };
                &&& (is_modifier == 0 && raw@.len() == 0 ==> r == Ok::<Option<Event>, CaptureError>(
                    None,
                ))
                &&& match e {
                    None => r == Ok::<Option<Event>, CaptureError>(None),
                    Some(ev) => r == Ok::<Option<Event>, CaptureError>(Some(ev)) || r == Err::<
                        Option<Event>,
                        CaptureError,
                    >(CaptureError::Disconnected),
                }
            }),
    {
        match classify_keypress(raw, is_modifier, key_code) {
            None => Ok(None),
            Some(e) => if forward(&self.send_channel, e) {
                Ok(Some(e))
            } else {
                Err(CaptureError::Disconnected)
            },
        }
    }
}

} // verus!
