//! From bytes to events.
//!
//! The first byte of an event decides what it is: an escape sequence, a
//! control byte or a character. [`try_parse_event`] follows that byte as far
//! as the input demands and may fail; [`parse_event`] never fails: what
//! cannot be decoded is handed back as the bytes that were read.

use vstd::prelude::*;
use vstd::std_specs::iter::IteratorSpec;
use std::io::Error;
use crate::csi::{parse_csi, spec_parse_csi, BRACKET};
use crate::error::ParseError;
use crate::event::{outcome_view, Event, EventView, Key};
use crate::source::{
    advanced, done, failed, lawful, lemma_advanced_chain, lemma_ok_bytes_first, ok_bytes, pop,
    well_behaved, Parsed,
};
use crate::utf8::{read_utf8_char, spec_parse_utf8_char};

verus! {

/// The escape byte, which opens every sequence.
pub const ESC: u8 = 0x1b;

/// `O`: after the escape byte, the lead of the function keys F1 to F4.
pub const UPPER_O: u8 = 0x4f;

/// What follows `ESC O`: a byte from `P` to `S` for F1 to F4. Any other
/// byte, and the end of the source, leave the bytes read so far
/// unsupported.
pub open spec fn spec_function_key(src: Seq<Result<u8, Error>>) -> Parsed<EventView> {
    if src.len() == 0 {
        done(EventView::Unsupported(seq![ESC, UPPER_O]), 0)
    } else {
        match src[0] {
            Err(e) => failed(ParseError::Source(e), 1),
            Ok(b) => if 0x50 <= b <= 0x53 {
                done(EventView::Key(Key::F((1 + b - 0x50) as u8)), 1)
            } else {
                done(EventView::Unsupported(seq![ESC, UPPER_O, b]), 1)
            },
        }
    }
}

/// The character that a decoder found, as the key `Alt` with it or as the
/// plain key.
pub open spec fn as_key(alt: bool, found: Parsed<char>) -> Parsed<EventView> {
    match found.outcome {
        Ok(ch) => done(
            EventView::Key(
                if alt {
                    Key::Alt(ch)
                } else {
                    Key::Char(ch)
                },
            ),
            found.taken,
        ),
        Err(e) => failed(e, found.taken),
    }
}

/// What follows the escape byte: `O` and a function key, `[` and a control
/// sequence, or a character that was typed with Alt. An escape byte at the
/// end of the source is unsupported.
pub open spec fn spec_escape(src: Seq<Result<u8, Error>>) -> Parsed<EventView> {
    if src.len() == 0 {
        done(EventView::Unsupported(seq![ESC]), 0)
    } else {
        match src[0] {
            Err(e) => failed(ParseError::Source(e), 1),
            Ok(b) => if b == UPPER_O {
                spec_function_key(src.skip(1)).after(1)
            } else if b == BRACKET {
                spec_parse_csi(src.skip(1)).after(1)
            } else {
                as_key(true, spec_parse_utf8_char(b, src.skip(1))).after(1)
            },
        }
    }
}

/// The event that starts with the byte `item`, given the items that the
/// source holds after it.
pub open spec fn spec_try_parse_event(item: u8, src: Seq<Result<u8, Error>>) -> Parsed<
    EventView,
> {
    if item == ESC {
        spec_escape(src)
    } else if item == 0x0a || item == 0x0d {
        done(EventView::Key(Key::Char('\n')), 0)
    } else if item == 0x09 {
        done(EventView::Key(Key::Char('\t')), 0)
    } else if item == 0x7f {
        done(EventView::Key(Key::Backspace), 0)
    } else if 0x01 <= item <= 0x1a {
        done(EventView::Key(Key::Ctrl((item - 0x01 + 0x61) as char)), 0)
    } else if 0x1c <= item <= 0x1f {
        done(EventView::Key(Key::Ctrl((item - 0x1c + 0x34) as char)), 0)
    } else if item == 0 {
        done(EventView::Key(Key::Null), 0)
    } else {
        as_key(false, spec_parse_utf8_char(item, src))
    }
}

/// The bytes read for the event that starts with `item`: `item` and the
/// bytes among the items taken from the source.
pub open spec fn spec_consumed(item: u8, src: Seq<Result<u8, Error>>) -> Seq<u8> {
    seq![item] + ok_bytes(src.take(spec_try_parse_event(item, src).taken as int))
}

/// The event that starts with `item`, where failure is no option: an
/// attempt that fails gives the bytes read as an unsupported event.
pub open spec fn spec_parse_event(item: u8, src: Seq<Result<u8, Error>>) -> EventView {
    match spec_try_parse_event(item, src).outcome {
        Ok(event) => event,
        Err(_) => EventView::Unsupported(spec_consumed(item, src)),
    }
}

/// Reads what follows `ESC O`.
pub fn function_key<I>(iter: &mut I, seen: &mut Vec<u8>) -> (r: Result<Event, ParseError>) where
    I: Iterator<Item = Result<u8, Error>>,

    requires
        lawful(old(iter)),
    ensures
        lawful(final(iter)),
        well_behaved(old(iter)) ==> well_behaved(final(iter)),
        outcome_view(r) == spec_function_key((*old(iter)).remaining()).outcome,
        advanced(
            (*old(iter)).remaining(),
            (*final(iter)).remaining(),
            old(seen)@,
            final(seen)@,
            spec_function_key((*old(iter)).remaining()).taken,
        ),
{
    match pop(iter, seen) {
        Ok(b) => {
            if 0x50 <= b && b <= 0x53 {
                Ok(Event::Key(Key::F(1 + b - 0x50)))
            } else {
                let mut raw: Vec<u8> = Vec::new();
                raw.push(ESC);
                raw.push(UPPER_O);
                raw.push(b);
                assert(raw@ =~= seq![ESC, UPPER_O, b]);
                Ok(Event::Unsupported(raw))
            }
        },
        Err(ParseError::UnexpectedEof) => {
            let mut raw: Vec<u8> = Vec::new();
            raw.push(ESC);
            raw.push(UPPER_O);
            assert(raw@ =~= seq![ESC, UPPER_O]);
            Ok(Event::Unsupported(raw))
        },
        Err(e) => Err(e),
    }
}

/// Reads what follows the escape byte.
pub fn escape<I>(iter: &mut I, seen: &mut Vec<u8>) -> (r: Result<Event, ParseError>) where
    I: Iterator<Item = Result<u8, Error>>,

    requires
        well_behaved(old(iter)),
    ensures
        well_behaved(final(iter)),
        outcome_view(r) == spec_escape((*old(iter)).remaining()).outcome,
        advanced(
            (*old(iter)).remaining(),
            (*final(iter)).remaining(),
            old(seen)@,
            final(seen)@,
            spec_escape((*old(iter)).remaining()).taken,
        ),
{
    let ghost src = (*iter).remaining();
    let ghost seen0 = seen@;
    let b = match pop(iter, seen) {
        Ok(b) => b,
        Err(ParseError::UnexpectedEof) => {
            let mut raw: Vec<u8> = Vec::new();
            raw.push(ESC);
            return Ok(Event::Unsupported(raw));
        },
        Err(e) => {
            return Err(e);
        },
    };
    let ghost src1 = (*iter).remaining();
    let ghost seen1 = seen@;
    let r = if b == UPPER_O {
        function_key(iter, seen)
    } else if b == BRACKET {
        parse_csi(iter, seen)
    } else {
        match read_utf8_char(b, iter, seen) {
            Ok(ch) => Ok(Event::Key(Key::Alt(ch))),
            Err(e) => Err(e),
        }
    };
    proof {
        lemma_advanced_chain(
            src,
            src1,
            (*iter).remaining(),
            seen0,
            seen1,
            seen@,
            1,
            (spec_escape(src).taken - 1) as nat,
        );
    }
    r
}

/// Parses one event from `item` and, where `item` does not settle it, from
/// the bytes that `iter` yields after it. Each byte taken from `iter` is
/// added to `seen`.
pub fn try_parse_event<I>(item: u8, iter: &mut I, seen: &mut Vec<u8>) -> (r: Result<
    Event,
    ParseError,
>) where I: Iterator<Item = Result<u8, Error>>
    requires
        well_behaved(old(iter)),
    ensures
        well_behaved(final(iter)),
        outcome_view(r) == spec_try_parse_event(item, (*old(iter)).remaining()).outcome,
        advanced(
            (*old(iter)).remaining(),
            (*final(iter)).remaining(),
            old(seen)@,
            final(seen)@,
            spec_try_parse_event(item, (*old(iter)).remaining()).taken,
        ),
{
    proof {
        lemma_ok_bytes_first((*iter).remaining());
    }
    if item == ESC {
        escape(iter, seen)
    } else if item == 0x0a || item == 0x0d {
        Ok(Event::Key(Key::Char('\n')))
    } else if item == 0x09 {
        Ok(Event::Key(Key::Char('\t')))
    } else if item == 0x7f {
        Ok(Event::Key(Key::Backspace))
    } else if 0x01 <= item && item <= 0x1a {
        Ok(Event::Key(Key::Ctrl((item - 0x01 + 0x61) as char)))
    } else if 0x1c <= item && item <= 0x1f {
        Ok(Event::Key(Key::Ctrl((item - 0x1c + 0x34) as char)))
    } else if item == 0 {
        Ok(Event::Key(Key::Null))
    } else {
        match read_utf8_char(item, iter, seen) {
            Ok(ch) => Ok(Event::Key(Key::Char(ch))),
            Err(e) => Err(e),
        }
    }
}

/// Settles an attempt to decode: its event where it gave one, and where it
/// failed the bytes `seen` as an unsupported event. The bytes come back
/// beside the event in either case.
pub fn or_unsupported(attempt: Result<Event, ParseError>, seen: Vec<u8>) -> (r: (Event, Vec<u8>))
    ensures
        r.1@ == seen@,
        r.0@ == (match attempt {
            Ok(event) => event@,
            Err(_) => EventView::Unsupported(seen@),
        }),
{
    match attempt {
        Ok(event) => (event, seen),
        Err(_) => {
            let raw = seen.clone();
            (Event::Unsupported(raw), seen)
        },
    }
}

/// Decodes the event that starts with the byte `item`, reading from `iter`
/// the bytes that follow it as far as the event needs them.
///
/// The result is always `Ok`, of one event and the bytes that were read
/// for it, `item` first. Input that is no event that is known, input that
/// ends too early and input for which the source reports an error give
/// [`Event::Unsupported`] with those same bytes.
pub fn parse_event<I>(item: u8, iter: &mut I) -> (r: Result<(Event, Vec<u8>), Error>) where
    I: Iterator<Item = Result<u8, Error>>,

    requires
        well_behaved(old(iter)),
    ensures
        well_behaved(final(iter)),
        r is Ok,
        r->Ok_0.0@ == spec_parse_event(item, (*old(iter)).remaining()),
        r->Ok_0.1@ == spec_consumed(item, (*old(iter)).remaining()),
        r->Ok_0.1@.len() >= 1 && r->Ok_0.1@[0] == item,
        r->Ok_0.0@ matches EventView::Unsupported(raw) ==> raw == r->Ok_0.1@,
        spec_try_parse_event(item, (*old(iter)).remaining()).taken <= (*old(
            iter,
        )).remaining().len(),
        (*final(iter)).remaining() == (*old(iter)).remaining().skip(
            spec_try_parse_event(item, (*old(iter)).remaining()).taken as int,
        ),
{
    proof {
        crate::laws::lemma_unsupported_is_consumed(item, (*iter).remaining());
    }
    let mut seen: Vec<u8> = Vec::new();
    seen.push(item);
    let attempt = try_parse_event(item, iter, &mut seen);
    Ok(or_unsupported(attempt, seen))
}

} // verus!
