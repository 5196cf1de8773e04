//! What holds of the decoder on every input.
//!
//! The laws speak of [`spec_parse_event`], [`spec_consumed`] and
//! [`spec_try_parse_event`], in which the contract of
//! [`crate::parser::parse_event`] says what it returns, what it read and how
//! far it went in the source. A source is given as the sequence of its
//! items; [`items_of`] makes one of bytes.

use vstd::prelude::*;
use vstd::utf8::{
    encode_scalar, encode_utf8, encode_utf8_first_scalar, encode_utf8_valid_utf8,
    valid_first_scalar,
};
use std::io::Error;
use crate::csi::{
    body_len, is_final, spec_parse_csi, spec_read_body, spec_rxvt_event, spec_special_key,
    spec_xterm_event, x10_button_bits, x10_coordinate, BRACKET, LESS_THAN, TILDE, UPPER_M,
};
use crate::error::ParseError;
use crate::event::{EventView, Key, MouseButton, MouseEvent};
use crate::parser::{spec_consumed, spec_parse_event, spec_try_parse_event, ESC, UPPER_O};
use crate::interruption::lemma_event_stops;
use crate::params::{is_digit, spec_one_number, spec_three_numbers, split_fields};
use crate::source::{
    done, failed, items_of, lemma_ok_bytes_before_error, lemma_ok_bytes_first,
    lemma_ok_bytes_of_items, ok_bytes,
};
use crate::truncation::{lemma_escape_cut, lemma_utf8_char_cut};
use crate::utf8::{spec_first_char, spec_parse_utf8_char, spec_utf8_tail};

verus! {

/// A printable ASCII byte, from the space to the tilde, is the key of its
/// own character, whatever the source holds, and nothing is read for it.
pub proof fn lemma_printable_ascii(c: u8, src: Seq<Result<u8, Error>>)
    requires
        0x20 <= c <= 0x7e,
    ensures
        spec_parse_event(c, src) == EventView::Key(Key::Char(c as char)),
        spec_try_parse_event(c, src).taken == 0,
        spec_consumed(c, src) == seq![c],
{
    lemma_ok_bytes_first(src);
}

/// The encoding of one character is well-formed, decodes to that
/// character, and no shorter run of its bytes is well-formed.
pub proof fn lemma_encoding_of_char(c: char)
    ensures
        1 <= encode_scalar(c as u32).len() <= 4,
        (c as u32) <= 0x7f <==> encode_scalar(c as u32).len() == 1,
        (c as u32) <= 0x7f <==> encode_scalar(c as u32)[0] <= 0x7f,
        spec_first_char(encode_scalar(c as u32)) == Some(c),
        forall|k: int|
            1 <= k < encode_scalar(c as u32).len() ==> spec_first_char(
                #[trigger] encode_scalar(c as u32).take(k),
            ) is None,
{
    let chars = seq![c];
    let enc = encode_scalar(c as u32);
    assert(encode_utf8(chars) =~= enc) by {
        reveal_with_fuel(encode_utf8, 2);
    }
    encode_utf8_first_scalar(chars);
    encode_utf8_valid_utf8(chars);
    vstd::utf8::encode_utf8_decode_utf8(chars);
    assert forall|k: int| 1 <= k < enc.len() implies spec_first_char(
        #[trigger] enc.take(k),
    ) is None by {
        assert(!valid_first_scalar(enc.take(k)));
    }
}

/// With the first `k` bytes of a character's encoding in hand, the decoder
/// finds the character at the end of the encoding.
proof fn lemma_tail_along_encoding(c: char, rest: Seq<Result<u8, Error>>, k: int)
    requires
        1 <= k < encode_scalar(c as u32).len(),
    ensures
        spec_utf8_tail(
            encode_scalar(c as u32).take(k),
            (items_of(encode_scalar(c as u32).skip(1)) + rest).skip(k - 1),
        ) == done(c, (encode_scalar(c as u32).len() - k) as nat),
    decreases encode_scalar(c as u32).len() - k,
{
    let enc = encode_scalar(c as u32);
    let src = items_of(enc.skip(1)) + rest;
    let tail = src.skip(k - 1);
    lemma_encoding_of_char(c);
    assert(enc.take(k).push(enc[k]) =~= enc.take(k + 1));
    assert(tail.drop_first() =~= src.skip(k));
    if k + 1 == enc.len() {
        assert(enc.take(k + 1) =~= enc);
    } else {
        lemma_tail_along_encoding(c, rest, k + 1);
    }
}

/// Round trip: fed the bytes that encode a character, the first as the
/// lead byte and the others one by one from the source, the UTF-8 decoder
/// gives that character back and takes those bytes and no more.
pub proof fn lemma_utf8_round_trip(c: char, rest: Seq<Result<u8, Error>>)
    ensures
        spec_parse_utf8_char(
            encode_scalar(c as u32)[0],
            items_of(encode_scalar(c as u32).skip(1)) + rest,
        ) == done(c, (encode_scalar(c as u32).len() - 1) as nat),
{
    let enc = encode_scalar(c as u32);
    let src = items_of(enc.skip(1)) + rest;
    lemma_encoding_of_char(c);
    if enc.len() == 1 {
        let v = c as u32;
        assert(((v & 0x7f) as u8) as u32 == v) by (bit_vector)
            requires
                v <= 0x7f,
        ;
        vstd::utf8::char_u32_cast(c, v);
    } else {
        assert(enc.take(1) =~= seq![enc[0]]);
        assert(src.skip(0) =~= src);
        lemma_tail_along_encoding(c, rest, 1);
    }
}

/// Round trip, for the decoder as a whole: the bytes that encode a
/// character outside ASCII decode to the key of that character, and they
/// are the bytes read.
pub proof fn lemma_char_round_trip(c: char, rest: Seq<Result<u8, Error>>)
    requires
        c as u32 > 0x7f,
    ensures
        spec_parse_event(
            encode_scalar(c as u32)[0],
            items_of(encode_scalar(c as u32).skip(1)) + rest,
        ) == EventView::Key(Key::Char(c)),
        spec_try_parse_event(
            encode_scalar(c as u32)[0],
            items_of(encode_scalar(c as u32).skip(1)) + rest,
        ).taken == encode_scalar(c as u32).len() - 1,
        spec_consumed(
            encode_scalar(c as u32)[0],
            items_of(encode_scalar(c as u32).skip(1)) + rest,
        ) == encode_scalar(c as u32),
{
    let enc = encode_scalar(c as u32);
    let more = items_of(enc.skip(1));
    let src = more + rest;
    lemma_encoding_of_char(c);
    lemma_utf8_round_trip(c, rest);
    assert(src.take(enc.len() - 1) =~= more);
    lemma_ok_bytes_of_items(enc.skip(1));
}

/// An X10 report whose button byte, less 32, has its two low bits and bit
/// `0x40` clear is a press of the left button, at the coordinates that the
/// two bytes after it give: each less 32, and 0 where the byte is smaller.
/// The report is six bytes long, the escape byte counted.
pub proof fn lemma_x10_left_press(b1: u8, b2: u8, b3: u8, rest: Seq<Result<u8, Error>>)
    requires
        x10_button_bits(b1) & 0b11 == 0,
        x10_button_bits(b1) & 0x40 == 0,
    ensures
        spec_parse_event(ESC, items_of(seq![BRACKET, UPPER_M, b1, b2, b3]) + rest)
            == EventView::Mouse(
            MouseEvent::Press(MouseButton::Left, x10_coordinate(b2), x10_coordinate(b3)),
        ),
        spec_try_parse_event(ESC, items_of(seq![BRACKET, UPPER_M, b1, b2, b3]) + rest).taken == 5,
        spec_consumed(ESC, items_of(seq![BRACKET, UPPER_M, b1, b2, b3]) + rest) == seq![
            ESC,
            BRACKET,
            UPPER_M,
            b1,
            b2,
            b3,
        ],
{
    let bytes = seq![BRACKET, UPPER_M, b1, b2, b3];
    let src = items_of(bytes) + rest;
    assert(src.take(5) =~= items_of(bytes));
    lemma_ok_bytes_of_items(bytes);
    assert(seq![ESC] + bytes =~= seq![ESC, BRACKET, UPPER_M, b1, b2, b3]);
}

/// Failure is contained: where the attempt to decode fails, for whatever
/// reason, the event is the unsupported one that holds the bytes read.
pub proof fn lemma_failure_is_unsupported(item: u8, src: Seq<Result<u8, Error>>)
    requires
        spec_try_parse_event(item, src).outcome is Err,
    ensures
        spec_parse_event(item, src) == EventView::Unsupported(spec_consumed(item, src)),
{
}

/// Progress: the bytes read for an event start with its first byte, so
/// each event uses up at least one byte of input.
pub proof fn lemma_progress(item: u8, src: Seq<Result<u8, Error>>)
    ensures
        spec_consumed(item, src).len() >= 1,
        spec_consumed(item, src)[0] == item,
{
}

/// A control sequence is a key or a mouse event, and a function key among
/// them is one of F1 to F12.
pub proof fn lemma_csi_events(src: Seq<Result<u8, Error>>)
    ensures
        spec_parse_csi(src).outcome matches Ok(event) ==> event is Key || event is Mouse,
        spec_parse_csi(src).outcome matches Ok(EventView::Key(Key::F(n))) ==> 1 <= n <= 12,
{
}

/// An unsupported event holds exactly the bytes that were read for it.
pub proof fn lemma_unsupported_is_consumed(item: u8, src: Seq<Result<u8, Error>>)
    ensures
        spec_parse_event(item, src) matches EventView::Unsupported(raw) ==> raw == spec_consumed(
            item,
            src,
        ),
{
    if item == ESC && src.len() > 0 && src[0] is Ok {
        let b = src[0]->Ok_0;
        let after = src.skip(1);
        lemma_ok_bytes_first(src);
        if b == UPPER_O {
            if after.len() > 0 && after[0] is Ok {
                let v = after[0]->Ok_0;
                assert(src.take(2) =~= items_of(seq![UPPER_O, v]));
                lemma_ok_bytes_of_items(seq![UPPER_O, v]);
            }
        } else if b == BRACKET {
            lemma_csi_events(after);
        }
    } else {
        lemma_ok_bytes_first(src);
    }
}

/// A function key is one of F1 to F12.
pub proof fn lemma_function_keys(item: u8, src: Seq<Result<u8, Error>>)
    ensures
        spec_parse_event(item, src) matches EventView::Key(Key::F(n)) ==> 1 <= n <= 12,
{
    if item == ESC && src.len() > 0 && src[0] is Ok {
        lemma_csi_events(src.skip(1));
    }
}

/// A text of parameters that holds no final byte runs to the end of the
/// source, and reading it fails there.
pub proof fn lemma_body_without_final(xterm: bool, body: Seq<u8>)
    requires
        forall|i: int| 0 <= i < body.len() ==> !is_final(xterm, #[trigger] body[i]),
    ensures
        body_len(xterm, items_of(body)) == body.len(),
        spec_read_body(xterm, items_of(body)) == failed::<(Seq<u8>, u8)>(
            ParseError::UnexpectedEof,
            body.len(),
        ),
    decreases body.len(),
{
    let src = items_of(body);
    if body.len() > 0 {
        lemma_body_without_final(xterm, body.drop_first());
        assert(src.drop_first() =~= items_of(body.drop_first()));
    }
}

/// An xterm mouse report that is not terminated, the source ending before
/// an `M` or `m` came, is unsupported, and holds all the bytes up to the
/// end of the source.
pub proof fn lemma_unterminated_report(body: Seq<u8>)
    requires
        forall|i: int| 0 <= i < body.len() ==> !is_final(true, #[trigger] body[i]),
    ensures
        spec_parse_event(ESC, items_of(seq![BRACKET, LESS_THAN] + body)) == EventView::Unsupported(
            seq![ESC, BRACKET, LESS_THAN] + body,
        ),
        spec_try_parse_event(ESC, items_of(seq![BRACKET, LESS_THAN] + body)).taken == 2
            + body.len(),
{
    let bytes = seq![BRACKET, LESS_THAN] + body;
    let src = items_of(bytes);
    lemma_body_without_final(true, body);
    assert(src.skip(1).skip(1) =~= items_of(body));
    assert(src.take(2 + body.len() as int) =~= src);
    lemma_ok_bytes_of_items(bytes);
    assert(seq![ESC] + bytes =~= seq![ESC, BRACKET, LESS_THAN] + body);
}

/// A text of parameters with its final byte after it is read as that text
/// and that byte, whatever follows in the source.
pub proof fn lemma_body_with_final(
    xterm: bool,
    body: Seq<u8>,
    fin: u8,
    rest: Seq<Result<u8, Error>>,
)
    requires
        forall|i: int| 0 <= i < body.len() ==> !is_final(xterm, #[trigger] body[i]),
        is_final(xterm, fin),
    ensures
        body_len(xterm, items_of(body + seq![fin]) + rest) == body.len(),
        spec_read_body(xterm, items_of(body + seq![fin]) + rest) == done(
            (body, fin),
            body.len() + 1,
        ),
    decreases body.len(),
{
    let src = items_of(body + seq![fin]) + rest;
    if body.len() > 0 {
        lemma_body_with_final(xterm, body.drop_first(), fin, rest);
        assert(src.drop_first() =~= items_of(body.drop_first() + seq![fin]) + rest);
        assert(src[0] == Ok::<u8, Error>(body[0]));
    } else {
        assert(src[0] == Ok::<u8, Error>(fin));
    }
    assert(src.take(body.len() as int) =~= items_of(body));
    lemma_ok_bytes_of_items(body);
    assert(src.skip(body.len() as int)[0] == Ok::<u8, Error>(fin));
}

/// The xterm dialect, from end to end: `ESC [ <`, a text of parameters and
/// a final `M` or `m`. The report is a mouse event where the text has
/// three numbers, no fewer and no more, and the first is a code that is
/// known; any other report is unsupported. Either way the report is read to
/// its final byte and no further.
pub proof fn lemma_xterm_report(body: Seq<u8>, fin: u8, rest: Seq<Result<u8, Error>>)
    requires
        forall|i: int| 0 <= i < body.len() ==> !is_final(true, #[trigger] body[i]),
        is_final(true, fin),
    ensures
        spec_try_parse_event(
            ESC,
            items_of(seq![BRACKET, LESS_THAN] + body + seq![fin]) + rest,
        ).taken == body.len() + 3,
        spec_consumed(ESC, items_of(seq![BRACKET, LESS_THAN] + body + seq![fin]) + rest) == seq![
            ESC,
            BRACKET,
            LESS_THAN,
        ] + body + seq![fin],
        spec_parse_event(ESC, items_of(seq![BRACKET, LESS_THAN] + body + seq![fin]) + rest) == (
        match spec_three_numbers(body) {
            Some((cb, cx, cy)) => match spec_xterm_event(cb, cx, cy, fin) {
                Some(mouse) => EventView::Mouse(mouse),
                None => EventView::Unsupported(
                    seq![ESC, BRACKET, LESS_THAN] + body + seq![fin],
                ),
            },
            None => EventView::Unsupported(seq![ESC, BRACKET, LESS_THAN] + body + seq![fin]),
        }),
{
    let bytes = seq![BRACKET, LESS_THAN] + body + seq![fin];
    let src = items_of(bytes) + rest;
    lemma_body_with_final(true, body, fin, rest);
    assert(src[0] == Ok::<u8, Error>(BRACKET));
    assert(src.skip(1)[0] == Ok::<u8, Error>(LESS_THAN));
    assert(src.skip(1).skip(1) =~= items_of(body + seq![fin]) + rest);
    assert(src.take(body.len() as int + 3) =~= items_of(bytes));
    lemma_ok_bytes_of_items(bytes);
    assert(seq![ESC] + bytes =~= seq![ESC, BRACKET, LESS_THAN] + body + seq![fin]);
}

/// A mouse report in the xterm dialect with a wrong count of parameters,
/// fewer than three or more, is unsupported.
pub proof fn lemma_xterm_wrong_count(body: Seq<u8>, fin: u8, rest: Seq<Result<u8, Error>>)
    requires
        forall|i: int| 0 <= i < body.len() ==> !is_final(true, #[trigger] body[i]),
        is_final(true, fin),
        split_fields(body).len() != 3,
    ensures
        spec_parse_event(ESC, items_of(seq![BRACKET, LESS_THAN] + body + seq![fin]) + rest)
            == EventView::Unsupported(seq![ESC, BRACKET, LESS_THAN] + body + seq![fin]),
{
    lemma_xterm_report(body, fin, rest);
}

/// What a numbered sequence with the text `text` and the final byte `fin`
/// means: with `M` a mouse report in the rxvt dialect, of three numbers;
/// with `~` the key that the one number names; nothing otherwise, nor
/// where the numbers are too few, too many or without a meaning.
pub open spec fn numbered_meaning(text: Seq<u8>, fin: u8) -> Option<EventView> {
    if fin == UPPER_M {
        match spec_three_numbers(text) {
            Some((cb, cx, cy)) => match spec_rxvt_event(cb, cx, cy) {
                Some(mouse) => Some(EventView::Mouse(mouse)),
                None => None,
            },
            None => None,
        }
    } else if fin == TILDE {
        match spec_one_number(text) {
            Some(code) => match spec_special_key(code) {
                Some(key) => Some(EventView::Key(key)),
                None => None,
            },
            None => None,
        }
    } else {
        None
    }
}

/// Numbered sequences, from end to end: `ESC [`, a digit, the rest of the
/// text of parameters and a final byte from 64 to 126. The sequence is the
/// event that it means, and is unsupported where it means none. Either way
/// it is read to its final byte and no further.
pub proof fn lemma_numbered_sequence(
    lead: u8,
    body: Seq<u8>,
    fin: u8,
    rest: Seq<Result<u8, Error>>,
)
    requires
        is_digit(lead),
        forall|i: int| 0 <= i < body.len() ==> !is_final(false, #[trigger] body[i]),
        is_final(false, fin),
    ensures
        spec_try_parse_event(ESC, items_of(seq![BRACKET, lead] + body + seq![fin]) + rest).taken
            == body.len() + 3,
        spec_consumed(ESC, items_of(seq![BRACKET, lead] + body + seq![fin]) + rest) == seq![
            ESC,
            BRACKET,
            lead,
        ] + body + seq![fin],
        spec_parse_event(ESC, items_of(seq![BRACKET, lead] + body + seq![fin]) + rest) == (
        match numbered_meaning(seq![lead] + body, fin) {
            Some(event) => event,
            None => EventView::Unsupported(seq![ESC, BRACKET, lead] + body + seq![fin]),
        }),
{
    let bytes = seq![BRACKET, lead] + body + seq![fin];
    let src = items_of(bytes) + rest;
    lemma_body_with_final(false, body, fin, rest);
    assert(src[0] == Ok::<u8, Error>(BRACKET));
    assert(src.skip(1)[0] == Ok::<u8, Error>(lead));
    assert(src.skip(1).skip(1) =~= items_of(body + seq![fin]) + rest);
    assert(src.take(body.len() as int + 3) =~= items_of(bytes));
    lemma_ok_bytes_of_items(bytes);
    assert(seq![ESC] + bytes =~= seq![ESC, BRACKET, lead] + body + seq![fin]);
}

/// Truncation: where the decoder takes `n` items from the source for an
/// event, a source that ends after fewer of them gives an unsupported event
/// which holds the first byte and every byte that the source did yield.
pub proof fn lemma_truncated(item: u8, src: Seq<Result<u8, Error>>, k: int)
    requires
        0 <= k < spec_try_parse_event(item, src).taken,
    ensures
        k < src.len(),
        spec_try_parse_event(item, src.take(k)).taken == k,
        spec_parse_event(item, src.take(k)) == EventView::Unsupported(
            seq![item] + ok_bytes(src.take(k)),
        ),
{
    if item == ESC {
        lemma_escape_cut(src, k);
    } else {
        lemma_utf8_char_cut(item, src, k);
    }
    assert(src.take(k).take(k) =~= src.take(k));
}

/// Errors of the source: the decoder takes bytes only, until it is done or
/// the source reports an error. The item with the error is the last one
/// taken, and the event is then the unsupported one that holds the first
/// byte and the bytes that came before the error.
pub proof fn lemma_source_error(item: u8, src: Seq<Result<u8, Error>>)
    ensures
        spec_try_parse_event(item, src).taken <= src.len(),
        forall|i: int|
            0 <= i < spec_try_parse_event(item, src).taken - 1 ==> (#[trigger] src[i]) is Ok,
        spec_try_parse_event(item, src).taken >= 1 && src[spec_try_parse_event(item, src).taken
            - 1] is Err ==> spec_parse_event(item, src) == EventView::Unsupported(
            seq![item] + ok_bytes(src.take(spec_try_parse_event(item, src).taken - 1)),
        ),
{
    lemma_event_stops(item, src);
    let n = spec_try_parse_event(item, src).taken as int;
    if n >= 1 && src[n - 1] is Err {
        let taken = src.take(n);
        assert(taken.drop_last() =~= src.take(n - 1));
        lemma_ok_bytes_before_error(taken);
    }
}

} // verus!
