//! Page turning through a MIDI pedal.
//!
//! The soft pedal (MIDI controller 67) turns to the next page and the sostenuto
//! pedal (MIDI controller 66) to the previous one, each when pressed fully
//! (value 127).
use vstd::prelude::*;
use midi_event::{MidiEvent, MidiEventType, Parse};

verus! {

/// A page turn asked for by a pedal.
#[derive(Clone, Copy, Debug, PartialEq, Eq, Structural)]
pub enum PageEvent {
    Next,
    Previous,
}

/// `midi_event::MidiEvent::parse` on a three-byte message, reduced to the
/// controller and value of a control change. The crate's `parse.rs` turns a
/// message whose status byte has the high nibble `0xB` into
/// `Controller(data1 & 0x7F, data2 & 0x7F)`, and every other three-byte message
/// into another kind of event or into none.
#[verifier::external_body]
fn parse_controller(status: u8, data1: u8, data2: u8) -> (r: Option<(u8, u8)>)
    ensures
        r == if (status & 0xF0) == 0xB0 {
            Some(((data1 & 0x7F) as u8, (data2 & 0x7F) as u8))
        } else {
            None::<(u8, u8)>
        },
{
    match MidiEvent::parse(&[status, data1, data2][..]) {
        Some(MidiEvent { event: MidiEventType::Controller(controller, value), .. }) => Some((controller, value)),
        _ => None,
    }
}

/// The page turn that a controller change asks for, if any.
pub fn page_event_of_controller(controller: u8, value: u8) -> (r: Option<PageEvent>)
    ensures
        r == if controller == 67 && value == 127 {
            Some(PageEvent::Next)
        } else if controller == 66 && value == 127 {
            Some(PageEvent::Previous)
        } else {
            None::<PageEvent>
        },
{
    if controller == 67 && value == 127 {
        Some(PageEvent::Next)
    } else if controller == 66 && value == 127 {
        Some(PageEvent::Previous)
    } else {
        None
    }
}

/// The page turn that a raw three-byte MIDI message asks for, if any.
pub fn page_event_of_message(status: u8, data1: u8, data2: u8) -> (r: Option<PageEvent>)
    ensures
        r == if (status & 0xF0) == 0xB0 {
            page_event_spec((data1 & 0x7F) as u8, (data2 & 0x7F) as u8)
        } else {
            None::<PageEvent>
        },
        r == page_event_message_spec(status, data1, data2),
{
    match parse_controller(status, data1, data2) {
        Some((controller, value)) => page_event_of_controller(controller, value),
        None => None,
    }
}

/// How the pedals turn pages, for every MIDI message: a message that is no control change turns
/// no page; a control change asks for what `page_event_of_controller` answers for its controller
/// and value (each read as seven bits); only a full press (value 127) turns a page, so releasing
/// a pedal never does; the soft pedal (controller 67) turns forward and the sostenuto pedal
/// (controller 66) backward, and no other controller turns a page.
pub proof fn lemma_pedal_turns_pages(status: u8, data1: u8, data2: u8)
    ensures
        (status & 0xF0) != 0xB0 ==> page_event_message_spec(status, data1, data2) is None,
        (status & 0xF0) == 0xB0 ==> page_event_message_spec(status, data1, data2) == (if (data1 & 0x7F) == 67
            && (data2 & 0x7F) == 127 {
            Some(PageEvent::Next)
        } else if (data1 & 0x7F) == 66 && (data2 & 0x7F) == 127 {
            Some(PageEvent::Previous)
        } else {
            None::<PageEvent>
        }),
        (data2 & 0x7F) != 127 ==> page_event_message_spec(status, data1, data2) is None,
        (data1 & 0x7F) != 66 && (data1 & 0x7F) != 67 ==> page_event_message_spec(status, data1, data2) is None,
        page_event_spec(67, 127) == Some(PageEvent::Next),
        page_event_spec(66, 127) == Some(PageEvent::Previous),
        forall|c: u8, v: u8| v != 127 ==> #[trigger] page_event_spec(c, v) is None,
        forall|c: u8, v: u8| c != 66 && c != 67 ==> #[trigger] page_event_spec(c, v) is None,
{
}

/// The page turn that a raw three-byte MIDI message asks for, as `page_event_of_message`
/// answers it.
pub open spec fn page_event_message_spec(status: u8, data1: u8, data2: u8) -> Option<PageEvent> {
    if (status & 0xF0) == 0xB0 {
        page_event_spec((data1 & 0x7F) as u8, (data2 & 0x7F) as u8)
    } else {
        None
    }
}

/// The page turn that a controller change asks for.
pub open spec fn page_event_spec(controller: u8, value: u8) -> Option<PageEvent> {
    if controller == 67 && value == 127 {
        Some(PageEvent::Next)
    } else if controller == 66 && value == 127 {
        Some(PageEvent::Previous)
    } else {
        None
    }
}

} // verus!
