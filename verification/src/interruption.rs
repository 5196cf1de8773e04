//! A source that reports an error.
//!
//! No decoder goes on after the source has reported an error: the item that
//! holds the error is the last one taken, and the attempt fails. The lemmas
//! here show it of each decoder; the law for the decoder as a whole is
//! [`crate::laws::lemma_source_error`].

use vstd::prelude::*;
use std::io::Error;
use crate::csi::{
    lemma_body_len, spec_csi_body, spec_parse_csi, spec_read_body, BRACKET, LESS_THAN, UPPER_M,
};
use crate::params::is_digit;
use crate::parser::{spec_try_parse_event, ESC, UPPER_O};
use crate::source::Parsed;
use crate::utf8::{spec_parse_utf8_char, spec_utf8_tail};

verus! {

/// What holds of a decoder's way through the items `src`: it takes no more
/// than there are; all that it takes are bytes, but for the last, which may
/// be an error of the source; and after such an error the decoder fails.
pub open spec fn stops_at_error<T>(found: Parsed<T>, src: Seq<Result<u8, Error>>) -> bool {
    &&& found.taken <= src.len()
    &&& forall|i: int| 0 <= i < found.taken - 1 ==> (#[trigger] src[i]) is Ok
    &&& found.taken >= 1 && src[found.taken - 1] is Err ==> found.outcome is Err
}

/// A decoder that ran on the items after the first, which was a byte, is
/// one that took that byte and went on.
pub proof fn lemma_stops_after_byte<T>(found: Parsed<T>, src: Seq<Result<u8, Error>>)
    requires
        src.len() > 0,
        src[0] is Ok,
        stops_at_error(found, src.skip(1)),
    ensures
        stops_at_error(found.after(1), src),
{
    assert forall|i: int| 0 <= i < found.after(1).taken - 1 implies (#[trigger] src[i]) is Ok by {
        if i > 0 {
            assert(src[i] == src.skip(1)[i - 1]);
        }
    }
}

/// The UTF-8 decoder stops at an error of the source.
pub proof fn lemma_utf8_tail_stops(buf: Seq<u8>, src: Seq<Result<u8, Error>>)
    ensures
        stops_at_error(spec_utf8_tail(buf, src), src),
    decreases 4 - buf.len(),
{
    if src.len() > 0 && src[0] is Ok {
        let grown = buf.push(src[0]->Ok_0);
        if crate::utf8::spec_first_char(grown) is None && grown.len() < 4 {
            lemma_utf8_tail_stops(grown, src.drop_first());
            lemma_stops_after_byte(spec_utf8_tail(grown, src.drop_first()), src);
        }
    }
}

/// The reader of the text of parameters stops at an error of the source.
pub proof fn lemma_read_body_stops(xterm: bool, src: Seq<Result<u8, Error>>)
    ensures
        stops_at_error(spec_read_body(xterm, src), src),
{
    lemma_body_len(xterm, src);
}

/// The decoder of control sequences stops at an error of the source,
/// whatever the lead byte was.
pub proof fn lemma_csi_body_stops(lead: u8, src: Seq<Result<u8, Error>>)
    ensures
        stops_at_error(spec_csi_body(lead, src), src),
{
    if lead == LESS_THAN {
        lemma_read_body_stops(true, src);
    } else if is_digit(lead) && lead != BRACKET && lead != UPPER_M {
        lemma_read_body_stops(false, src);
    }
}

/// The decoder of control sequences stops at an error of the source.
pub proof fn lemma_csi_stops(src: Seq<Result<u8, Error>>)
    ensures
        stops_at_error(spec_parse_csi(src), src),
{
    if src.len() > 0 && src[0] is Ok {
        lemma_csi_body_stops(src[0]->Ok_0, src.skip(1));
        lemma_stops_after_byte(spec_csi_body(src[0]->Ok_0, src.skip(1)), src);
    }
}

/// The decoder as a whole stops at an error of the source.
pub proof fn lemma_event_stops(item: u8, src: Seq<Result<u8, Error>>)
    ensures
        stops_at_error(spec_try_parse_event(item, src), src),
{
    if item == ESC {
        if src.len() > 0 && src[0] is Ok {
            let b = src[0]->Ok_0;
            let after = src.skip(1);
            if b == UPPER_O {
                lemma_stops_after_byte(crate::parser::spec_function_key(after), src);
            } else if b == BRACKET {
                lemma_csi_stops(after);
                lemma_stops_after_byte(spec_parse_csi(after), src);
            } else {
                lemma_utf8_tail_stops(seq![b], after);
                lemma_stops_after_byte(
                    crate::parser::as_key(true, spec_parse_utf8_char(b, after)),
                    src,
                );
            }
        }
    } else {
        lemma_utf8_tail_stops(seq![item], src);
    }
}

} // verus!
