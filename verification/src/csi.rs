//! Control sequences: what follows `ESC [`.
//!
//! The byte after the introducer picks the form: a cursor or function key,
//! a mouse report in one of three dialects, or a numbered sequence whose
//! final byte says whether the numbers are a key code or a mouse report.

use vstd::prelude::*;
use vstd::std_specs::iter::IteratorSpec;
use std::io::Error;
use crate::error::ParseError;
use crate::event::{outcome_view, Event, EventView, Key, MouseButton, MouseEvent};
use crate::params::{is_digit, one_number, spec_one_number, spec_three_numbers, three_numbers};
use crate::source::{
    advanced, done, failed, lawful, lemma_advanced_chain, lemma_ok_bytes_first, ok_bytes, pop,
    spec_pop, well_behaved, Parsed,
};

verus! {

/// `M`: the lead byte of an X10 report, and the final byte of a press.
pub const UPPER_M: u8 = 0x4d;

/// `m`: the final byte of a release in the xterm dialect.
pub const LOWER_M: u8 = 0x6d;

/// `~`: the final byte of a key code.
pub const TILDE: u8 = 0x7e;

/// `[`: after the introducer, the lead byte of the older function keys.
pub const BRACKET: u8 = 0x5b;

/// `<`: the lead byte of an xterm report.
pub const LESS_THAN: u8 = 0x3c;

/// The button byte of an X10 report with its offset of 32 taken off, kept
/// within eight bits.
pub open spec fn x10_button_bits(b1: u8) -> u8 {
    if b1 >= 32 {
        (b1 - 32) as u8
    } else {
        (b1 + 224) as u8
    }
}

/// A coordinate byte of an X10 report with its offset of 32 taken off, and
/// 0 where the byte is below the offset.
pub open spec fn x10_coordinate(b: u8) -> u16 {
    if b >= 32 {
        (b - 32) as u16
    } else {
        0
    }
}

/// The event of an X10 report with button byte `b1` and coordinate bytes
/// `b2` and `b3`. The two low bits of the button byte name the button:
/// left, middle, right, or none for a release; with bit `0x40` set the
/// first two are the wheel going up and down.
pub open spec fn spec_x10_event(b1: u8, b2: u8, b3: u8) -> MouseEvent {
    let bits = x10_button_bits(b1);
    let x = x10_coordinate(b2);
    let y = x10_coordinate(b3);
    let wheel = bits & 0x40 != 0;
    let class = bits & 0b11;
    if class == 0 {
        if wheel {
            MouseEvent::Press(MouseButton::WheelUp, x, y)
        } else {
            MouseEvent::Press(MouseButton::Left, x, y)
        }
    } else if class == 1 {
        if wheel {
            MouseEvent::Press(MouseButton::WheelDown, x, y)
        } else {
            MouseEvent::Press(MouseButton::Middle, x, y)
        }
    } else if class == 2 {
        MouseEvent::Press(MouseButton::Right, x, y)
    } else {
        MouseEvent::Release(x, y)
    }
}

/// Computes the event of an X10 report.
pub fn x10_event(b1: u8, b2: u8, b3: u8) -> (r: MouseEvent)
    ensures
        r == spec_x10_event(b1, b2, b3),
{
    let bits: u8 = if b1 >= 32 {
        b1 - 32
    } else {
        b1 + 224
    };
    let x: u16 = if b2 >= 32 {
        (b2 - 32) as u16
    } else {
        0
    };
    let y: u16 = if b3 >= 32 {
        (b3 - 32) as u16
    } else {
        0
    };
    let wheel = bits & 0x40 != 0;
    let class: u8 = bits & 0b11;
    if class == 0 {
        if wheel {
            MouseEvent::Press(MouseButton::WheelUp, x, y)
        } else {
            MouseEvent::Press(MouseButton::Left, x, y)
        }
    } else if class == 1 {
        if wheel {
            MouseEvent::Press(MouseButton::WheelDown, x, y)
        } else {
            MouseEvent::Press(MouseButton::Middle, x, y)
        }
    } else if class == 2 {
        MouseEvent::Press(MouseButton::Right, x, y)
    } else {
        MouseEvent::Release(x, y)
    }
}

/// The button that an xterm report names with the code `cb`.
pub open spec fn spec_xterm_button(cb: u16) -> Option<MouseButton> {
    if cb == 0 {
        Some(MouseButton::Left)
    } else if cb == 1 {
        Some(MouseButton::Middle)
    } else if cb == 2 {
        Some(MouseButton::Right)
    } else if cb == 64 {
        Some(MouseButton::WheelUp)
    } else if cb == 65 {
        Some(MouseButton::WheelDown)
    } else {
        None
    }
}

/// The event of an xterm report with the numbers `cb`, `cx`, `cy` and the
/// final byte `fin`: a button code with `M` is a press and with `m` a
/// release; 32 is a hold and 3 a release whatever the final byte; no other
/// code has a meaning.
pub open spec fn spec_xterm_event(cb: u16, cx: u16, cy: u16, fin: u8) -> Option<MouseEvent> {
    if spec_xterm_button(cb) is Some {
        if fin == UPPER_M {
            Some(MouseEvent::Press(spec_xterm_button(cb)->0, cx, cy))
        } else if fin == LOWER_M {
            Some(MouseEvent::Release(cx, cy))
        } else {
            None
        }
    } else if cb == 32 {
        Some(MouseEvent::Hold(cx, cy))
    } else if cb == 3 {
        Some(MouseEvent::Release(cx, cy))
    } else {
        None
    }
}

/// Computes the event of an xterm report.
pub fn xterm_event(cb: u16, cx: u16, cy: u16, fin: u8) -> (r: Option<MouseEvent>)
    ensures
        r == spec_xterm_event(cb, cx, cy, fin),
{
    let button = if cb == 0 {
        Some(MouseButton::Left)
    } else if cb == 1 {
        Some(MouseButton::Middle)
    } else if cb == 2 {
        Some(MouseButton::Right)
    } else if cb == 64 {
        Some(MouseButton::WheelUp)
    } else if cb == 65 {
        Some(MouseButton::WheelDown)
    } else {
        None
    };
    match button {
        Some(button) => {
            if fin == UPPER_M {
                Some(MouseEvent::Press(button, cx, cy))
            } else if fin == LOWER_M {
                Some(MouseEvent::Release(cx, cy))
            } else {
                None
            }
        },
        None => {
            if cb == 32 {
                Some(MouseEvent::Hold(cx, cy))
            } else if cb == 3 {
                Some(MouseEvent::Release(cx, cy))
            } else {
                None
            }
        },
    }
}

/// The event of an rxvt report with the numbers `cb`, `cx`, `cy`.
pub open spec fn spec_rxvt_event(cb: u16, cx: u16, cy: u16) -> Option<MouseEvent> {
    if cb == 32 {
        Some(MouseEvent::Press(MouseButton::Left, cx, cy))
    } else if cb == 33 {
        Some(MouseEvent::Press(MouseButton::Middle, cx, cy))
    } else if cb == 34 {
        Some(MouseEvent::Press(MouseButton::Right, cx, cy))
    } else if cb == 35 {
        Some(MouseEvent::Release(cx, cy))
    } else if cb == 64 {
        Some(MouseEvent::Hold(cx, cy))
    } else if cb == 96 || cb == 97 {
        Some(MouseEvent::Press(MouseButton::WheelUp, cx, cy))
    } else {
        None
    }
}

/// Computes the event of an rxvt report.
pub fn rxvt_event(cb: u16, cx: u16, cy: u16) -> (r: Option<MouseEvent>)
    ensures
        r == spec_rxvt_event(cb, cx, cy),
{
    if cb == 32 {
        Some(MouseEvent::Press(MouseButton::Left, cx, cy))
    } else if cb == 33 {
        Some(MouseEvent::Press(MouseButton::Middle, cx, cy))
    } else if cb == 34 {
        Some(MouseEvent::Press(MouseButton::Right, cx, cy))
    } else if cb == 35 {
        Some(MouseEvent::Release(cx, cy))
    } else if cb == 64 {
        Some(MouseEvent::Hold(cx, cy))
    } else if cb == 96 || cb == 97 {
        Some(MouseEvent::Press(MouseButton::WheelUp, cx, cy))
    } else {
        None
    }
}

/// The key that a numbered sequence ending in `~` names with `code`.
pub open spec fn spec_special_key(code: u16) -> Option<Key> {
    if code == 1 || code == 7 {
        Some(Key::Home)
    } else if code == 2 {
        Some(Key::Insert)
    } else if code == 3 {
        Some(Key::Delete)
    } else if code == 4 || code == 8 {
        Some(Key::End)
    } else if code == 5 {
        Some(Key::PageUp)
    } else if code == 6 {
        Some(Key::PageDown)
    } else if 11 <= code <= 15 {
        Some(Key::F((code - 10) as u8))
    } else if 17 <= code <= 21 {
        Some(Key::F((code - 11) as u8))
    } else if 23 <= code <= 24 {
        Some(Key::F((code - 12) as u8))
    } else {
        None
    }
}

/// Looks up the key of a numbered sequence.
pub fn special_key(code: u16) -> (r: Option<Key>)
    ensures
        r == spec_special_key(code),
{
    if code == 1 || code == 7 {
        Some(Key::Home)
    } else if code == 2 {
        Some(Key::Insert)
    } else if code == 3 {
        Some(Key::Delete)
    } else if code == 4 || code == 8 {
        Some(Key::End)
    } else if code == 5 {
        Some(Key::PageUp)
    } else if code == 6 {
        Some(Key::PageDown)
    } else if 11 <= code && code <= 15 {
        Some(Key::F((code - 10) as u8))
    } else if 17 <= code && code <= 21 {
        Some(Key::F((code - 11) as u8))
    } else if 23 <= code && code <= 24 {
        Some(Key::F((code - 12) as u8))
    } else {
        None
    }
}

/// Whether `b` ends the text of parameters: in an xterm report the two
/// bytes `M` and `m` do, in a numbered sequence every byte from 64 to 126.
pub open spec fn is_final(xterm: bool, b: u8) -> bool {
    if xterm {
        b == UPPER_M || b == LOWER_M
    } else {
        64 <= b <= 126
    }
}

/// The number of items at the front of `src` that are bytes of the text of
/// parameters: those before the first final byte, error or end.
pub open spec fn body_len(xterm: bool, src: Seq<Result<u8, Error>>) -> nat
    decreases src.len(),
{
    if src.len() > 0 && src[0] is Ok && !is_final(xterm, src[0]->Ok_0) {
        1 + body_len(xterm, src.drop_first())
    } else {
        0
    }
}

/// Reading the text of parameters and the final byte after it: the text is
/// what stands before the first final byte, and the item after the text
/// decides, as in [`spec_pop`], whether the final byte is there.
pub open spec fn spec_read_body(xterm: bool, src: Seq<Result<u8, Error>>) -> Parsed<
    (Seq<u8>, u8),
> {
    let n = body_len(xterm, src);
    let end = spec_pop(src.skip(n as int));
    match end.outcome {
        Ok(fin) => done((ok_bytes(src.take(n as int)), fin), n + 1),
        Err(e) => failed(e, n + end.taken),
    }
}

/// The text of parameters lies within the source and holds bytes only,
/// none of them final; what follows it is no such byte.
pub proof fn lemma_body_len(xterm: bool, src: Seq<Result<u8, Error>>)
    ensures
        body_len(xterm, src) <= src.len(),
        forall|i: int|
            0 <= i < body_len(xterm, src) ==> (#[trigger] src[i]) is Ok && !is_final(
                xterm,
                src[i]->Ok_0,
            ),
        body_len(xterm, src) < src.len() ==> !(src[body_len(xterm, src) as int] is Ok
            && !is_final(xterm, src[body_len(xterm, src) as int]->Ok_0)),
    decreases src.len(),
{
    if src.len() > 0 && src[0] is Ok && !is_final(xterm, src[0]->Ok_0) {
        let rest = src.drop_first();
        lemma_body_len(xterm, rest);
        let n = body_len(xterm, src);
        assert forall|i: int| 0 <= i < n implies (#[trigger] src[i]) is Ok && !is_final(
            xterm,
            src[i]->Ok_0,
        ) by {
            if i > 0 {
                assert(src[i] == rest[i - 1]);
            }
        }
    }
}

/// Reads the text of parameters, adding its bytes to `body`, and returns
/// the final byte that ends it. Where the final byte does not come, `body`
/// still gains the text as far as it went.
pub fn read_body<I>(xterm: bool, iter: &mut I, seen: &mut Vec<u8>, body: &mut Vec<u8>) -> (r:
    Result<u8, ParseError>) where I: Iterator<Item = Result<u8, Error>>
    requires
        well_behaved(old(iter)),
    ensures
        well_behaved(final(iter)),
        advanced(
            (*old(iter)).remaining(),
            (*final(iter)).remaining(),
            old(seen)@,
            final(seen)@,
            spec_read_body(xterm, (*old(iter)).remaining()).taken,
        ),
        match spec_read_body(xterm, (*old(iter)).remaining()).outcome {
            Ok((text, fin)) => r == Ok::<u8, ParseError>(fin) && final(body)@ == old(body)@ + text,
            Err(e) => r == Err::<u8, ParseError>(e),
        },
        final(body)@ == old(body)@ + ok_bytes(
            (*old(iter)).remaining().take(body_len(xterm, (*old(iter)).remaining()) as int),
        ),
{
    let ghost src = (*iter).remaining();
    let ghost seen0 = seen@;
    let ghost body0 = body@;
    let ghost count: nat = 0;
    proof {
        lemma_ok_bytes_first(src);
    }
    loop
        invariant
            well_behaved(iter),
            src == (*old(iter)).remaining(),
            seen0 == old(seen)@,
            body0 == old(body)@,
            count <= src.len(),
            (*iter).remaining() == src.skip(count as int),
            advanced(src, (*iter).remaining(), seen0, seen@, count),
            body_len(xterm, src) == count + body_len(xterm, (*iter).remaining()),
            body@ == body0 + ok_bytes(src.take(count as int)),
        decreases (*iter).decrease()->0,
    {
        let ghost mid = (*iter).remaining();
        let ghost seen1 = seen@;
        let next = pop(iter, seen);
        proof {
            lemma_advanced_chain(
                src,
                mid,
                (*iter).remaining(),
                seen0,
                seen1,
                seen@,
                count,
                spec_pop(mid).taken,
            );
        }
        match next {
            Ok(b) => {
                let stop = if xterm {
                    b == UPPER_M || b == LOWER_M
                } else {
                    64 <= b && b <= 126
                };
                if stop {
                    return Ok(b);
                }
                body.push(b);
                proof {
                    let grown = src.take(count as int + 1);
                    assert(grown.drop_last() =~= src.take(count as int));
                    count = count + 1;
                }
            },
            Err(e) => {
                return Err(e);
            },
        }
    }
}

/// An X10 report: three bytes follow the lead byte, one for the button and
/// one for each coordinate.
pub open spec fn spec_x10_mouse(src: Seq<Result<u8, Error>>) -> Parsed<EventView> {
    let first = spec_pop(src);
    let second = spec_pop(src.skip(1));
    let third = spec_pop(src.skip(2));
    match first.outcome {
        Err(e) => failed(e, first.taken),
        Ok(b1) => match second.outcome {
            Err(e) => failed(e, 1 + second.taken),
            Ok(b2) => match third.outcome {
                Err(e) => failed(e, 2 + third.taken),
                Ok(b3) => done(EventView::Mouse(spec_x10_event(b1, b2, b3)), 3),
            },
        },
    }
}

/// Reads an X10 report after its lead byte.
pub fn x10_mouse<I>(iter: &mut I, seen: &mut Vec<u8>) -> (r: Result<Event, ParseError>) where
    I: Iterator<Item = Result<u8, Error>>,

    requires
        lawful(old(iter)),
    ensures
        lawful(final(iter)),
        well_behaved(old(iter)) ==> well_behaved(final(iter)),
        outcome_view(r) == spec_x10_mouse((*old(iter)).remaining()).outcome,
        advanced(
            (*old(iter)).remaining(),
            (*final(iter)).remaining(),
            old(seen)@,
            final(seen)@,
            spec_x10_mouse((*old(iter)).remaining()).taken,
        ),
{
    let ghost src = (*iter).remaining();
    let ghost seen0 = seen@;
    let b1 = match pop(iter, seen) {
        Ok(b) => b,
        Err(e) => {
            return Err(e);
        },
    };
    let ghost src1 = (*iter).remaining();
    let ghost seen1 = seen@;
    let b2 = match pop(iter, seen) {
        Ok(b) => b,
        Err(e) => {
            proof {
                lemma_advanced_chain(
                    src,
                    src1,
                    (*iter).remaining(),
                    seen0,
                    seen1,
                    seen@,
                    1,
                    spec_pop(src1).taken,
                );
            }
            return Err(e);
        },
    };
    proof {
        lemma_advanced_chain(src, src1, (*iter).remaining(), seen0, seen1, seen@, 1, 1);
    }
    let ghost src2 = (*iter).remaining();
    let ghost seen2 = seen@;
    let popped = pop(iter, seen);
    proof {
        lemma_advanced_chain(
            src,
            src2,
            (*iter).remaining(),
            seen0,
            seen2,
            seen@,
            2,
            spec_pop(src2).taken,
        );
    }
    match popped {
        Ok(b3) => Ok(Event::Mouse(x10_event(b1, b2, b3))),
        Err(e) => Err(e),
    }
}

/// An xterm report: three numbers up to a final `M` or `m`.
pub open spec fn spec_xterm_mouse(src: Seq<Result<u8, Error>>) -> Parsed<EventView> {
    let body = spec_read_body(true, src);
    match body.outcome {
        Err(e) => failed(e, body.taken),
        Ok((text, fin)) => match spec_three_numbers(text) {
            None => failed(ParseError::InvalidInput, body.taken),
            Some((cb, cx, cy)) => match spec_xterm_event(cb, cx, cy, fin) {
                None => failed(ParseError::InvalidInput, body.taken),
                Some(mouse) => done(EventView::Mouse(mouse), body.taken),
            },
        },
    }
}

/// Reads an xterm report after its lead byte.
pub fn xterm_mouse<I>(iter: &mut I, seen: &mut Vec<u8>) -> (r: Result<Event, ParseError>) where
    I: Iterator<Item = Result<u8, Error>>,

    requires
        well_behaved(old(iter)),
    ensures
        well_behaved(final(iter)),
        outcome_view(r) == spec_xterm_mouse((*old(iter)).remaining()).outcome,
        advanced(
            (*old(iter)).remaining(),
            (*final(iter)).remaining(),
            old(seen)@,
            final(seen)@,
            spec_xterm_mouse((*old(iter)).remaining()).taken,
        ),
{
    let mut text: Vec<u8> = Vec::new();
    let fin = match read_body(true, iter, seen, &mut text) {
        Ok(fin) => fin,
        Err(e) => {
            return Err(e);
        },
    };
    let (cb, cx, cy) = match three_numbers(text.as_slice()) {
        Some(numbers) => numbers,
        None => {
            return Err(ParseError::InvalidInput);
        },
    };
    match xterm_event(cb, cx, cy, fin) {
        Some(mouse) => Ok(Event::Mouse(mouse)),
        None => Err(ParseError::InvalidInput),
    }
}

/// A numbered sequence, whose first digit `lead` has been read: the text
/// of parameters runs up to a final byte. With `M` it is an rxvt mouse
/// report of three numbers, with `~` the code of a key; no other final byte
/// is known.
pub open spec fn spec_numbered(lead: u8, src: Seq<Result<u8, Error>>) -> Parsed<EventView> {
    let body = spec_read_body(false, src);
    match body.outcome {
        Err(e) => failed(e, body.taken),
        Ok((rest, fin)) => {
            let text = seq![lead] + rest;
            if fin == UPPER_M {
                match spec_three_numbers(text) {
                    None => failed(ParseError::InvalidInput, body.taken),
                    Some((cb, cx, cy)) => match spec_rxvt_event(cb, cx, cy) {
                        None => failed(ParseError::InvalidInput, body.taken),
                        Some(mouse) => done(EventView::Mouse(mouse), body.taken),
                    },
                }
            } else if fin == TILDE {
                match spec_one_number(text) {
                    None => failed(ParseError::InvalidInput, body.taken),
                    Some(code) => match spec_special_key(code) {
                        None => failed(ParseError::InvalidInput, body.taken),
                        Some(key) => done(EventView::Key(key), body.taken),
                    },
                }
            } else {
                failed(ParseError::InvalidInput, body.taken)
            }
        },
    }
}

/// Reads a numbered sequence after its first digit.
pub fn numbered<I>(lead: u8, iter: &mut I, seen: &mut Vec<u8>) -> (r: Result<
    Event,
    ParseError,
>) where I: Iterator<Item = Result<u8, Error>>
    requires
        well_behaved(old(iter)),
    ensures
        well_behaved(final(iter)),
        outcome_view(r) == spec_numbered(lead, (*old(iter)).remaining()).outcome,
        advanced(
            (*old(iter)).remaining(),
            (*final(iter)).remaining(),
            old(seen)@,
            final(seen)@,
            spec_numbered(lead, (*old(iter)).remaining()).taken,
        ),
{
    let mut text: Vec<u8> = Vec::new();
    text.push(lead);
    let fin = match read_body(false, iter, seen, &mut text) {
        Ok(fin) => fin,
        Err(e) => {
            return Err(e);
        },
    };
    if fin == UPPER_M {
        let (cb, cx, cy) = match three_numbers(text.as_slice()) {
            Some(numbers) => numbers,
            None => {
                return Err(ParseError::InvalidInput);
            },
        };
        match rxvt_event(cb, cx, cy) {
            Some(mouse) => Ok(Event::Mouse(mouse)),
            None => Err(ParseError::InvalidInput),
        }
    } else if fin == TILDE {
        let code = match one_number(text.as_slice()) {
            Some(code) => code,
            None => {
                return Err(ParseError::InvalidInput);
            },
        };
        match special_key(code) {
            Some(key) => Ok(Event::Key(key)),
            None => Err(ParseError::InvalidInput),
        }
    } else {
        Err(ParseError::InvalidInput)
    }
}

/// The key that a lead byte names by itself: `D`, `C`, `A` and `B` are the
/// arrows to the left, to the right, up and down, `H` and `F` are Home and
/// End.
pub open spec fn spec_cursor_key(lead: u8) -> Option<Key> {
    if lead == 0x44 {
        Some(Key::Left)
    } else if lead == 0x43 {
        Some(Key::Right)
    } else if lead == 0x41 {
        Some(Key::Up)
    } else if lead == 0x42 {
        Some(Key::Down)
    } else if lead == 0x48 {
        Some(Key::Home)
    } else if lead == 0x46 {
        Some(Key::End)
    } else {
        None
    }
}

/// Looks up the key that a lead byte names by itself.
pub fn cursor_key(lead: u8) -> (r: Option<Key>)
    ensures
        r == spec_cursor_key(lead),
{
    if lead == 0x44 {
        Some(Key::Left)
    } else if lead == 0x43 {
        Some(Key::Right)
    } else if lead == 0x41 {
        Some(Key::Up)
    } else if lead == 0x42 {
        Some(Key::Down)
    } else if lead == 0x48 {
        Some(Key::Home)
    } else if lead == 0x46 {
        Some(Key::End)
    } else {
        None
    }
}

/// The older function keys, after a second `[`: one byte from `A` to `E`
/// for F1 to F5.
pub open spec fn spec_legacy_function_key(src: Seq<Result<u8, Error>>) -> Parsed<EventView> {
    let next = spec_pop(src);
    match next.outcome {
        Err(e) => failed(e, next.taken),
        Ok(b) => if 0x41 <= b <= 0x45 {
            done(EventView::Key(Key::F((1 + b - 0x41) as u8)), 1)
        } else {
            failed(ParseError::InvalidInput, 1)
        },
    }
}

/// What a control sequence with the lead byte `lead` is, given the items
/// that follow the lead byte.
pub open spec fn spec_csi_body(lead: u8, src: Seq<Result<u8, Error>>) -> Parsed<EventView> {
    if lead == BRACKET {
        spec_legacy_function_key(src)
    } else if spec_cursor_key(lead) is Some {
        done(EventView::Key(spec_cursor_key(lead)->0), 0)
    } else if lead == UPPER_M {
        spec_x10_mouse(src)
    } else if lead == LESS_THAN {
        spec_xterm_mouse(src)
    } else if is_digit(lead) {
        spec_numbered(lead, src)
    } else {
        failed(ParseError::InvalidInput, 0)
    }
}

/// The event of a control sequence, given the items that follow `ESC [`.
pub open spec fn spec_parse_csi(src: Seq<Result<u8, Error>>) -> Parsed<EventView> {
    let lead = spec_pop(src);
    match lead.outcome {
        Err(e) => failed(e, lead.taken),
        Ok(b) => spec_csi_body(b, src.skip(1)).after(1),
    }
}

/// Parses a control sequence, just after `ESC [` has been read.
///
/// The event is a key or a mouse event; a sequence that is not recognised
/// is an error.
pub fn parse_csi<I>(iter: &mut I, seen: &mut Vec<u8>) -> (r: Result<Event, ParseError>) where
    I: Iterator<Item = Result<u8, Error>>,

    requires
        well_behaved(old(iter)),
    ensures
        well_behaved(final(iter)),
        outcome_view(r) == spec_parse_csi((*old(iter)).remaining()).outcome,
        advanced(
            (*old(iter)).remaining(),
            (*final(iter)).remaining(),
            old(seen)@,
            final(seen)@,
            spec_parse_csi((*old(iter)).remaining()).taken,
        ),
{
    let ghost src = (*iter).remaining();
    let ghost seen0 = seen@;
    let lead = match pop(iter, seen) {
        Ok(b) => b,
        Err(e) => {
            return Err(e);
        },
    };
    let ghost src1 = (*iter).remaining();
    let ghost seen1 = seen@;
    proof {
        lemma_ok_bytes_first(src1);
        lemma_advanced_chain(src, src1, src1, seen0, seen1, seen1, 1, 0);
    }
    let r = if lead == BRACKET {
        match pop(iter, seen) {
            Ok(b) => {
                if 0x41 <= b && b <= 0x45 {
                    Ok(Event::Key(Key::F(1 + b - 0x41)))
                } else {
                    Err(ParseError::InvalidInput)
                }
            },
            Err(e) => Err(e),
        }
    } else if let Some(key) = cursor_key(lead) {
        Ok(Event::Key(key))
    } else if lead == UPPER_M {
        x10_mouse(iter, seen)
    } else if lead == LESS_THAN {
        xterm_mouse(iter, seen)
    } else if 0x30 <= lead && lead <= 0x39 {
        numbered(lead, iter, seen)
    } else {
        Err(ParseError::InvalidInput)
    };
    proof {
        lemma_advanced_chain(
            src,
            src1,
            (*iter).remaining(),
            seen0,
            seen1,
            seen@,
            1,
            spec_csi_body(lead, src1).taken,
        );
    }
    r
}

} // verus!
