//! Input that stops too early.
//!
//! A decoder asks for one item at a time and decides on each what to do
//! next, so a source that ends before the decoder is done leaves it at the
//! end of the source with an event unfinished. The lemmas here follow each
//! decoder to that point; the law for the decoder as a whole is
//! [`crate::laws::lemma_truncated`].

use vstd::prelude::*;
use std::io::Error;
use crate::csi::{
    body_len, spec_csi_body, spec_parse_csi, spec_read_body, BRACKET, LESS_THAN, UPPER_M,
};
use crate::event::EventView;
use crate::params::is_digit;
use crate::parser::{spec_escape, ESC, UPPER_O};
use crate::source::{lemma_ok_bytes_first, ok_bytes, Parsed};
use crate::utf8::{spec_parse_utf8_char, spec_utf8_tail};

verus! {

/// A decoder that was cut short: it failed, having taken all `k` items
/// that there were.
pub open spec fn cut_short<T>(found: Parsed<T>, k: int) -> bool {
    found.outcome is Err && found.taken == k
}

/// The first `k` items of the text of parameters are all there is of it in
/// a source that ends after them.
pub proof fn lemma_body_len_cut(xterm: bool, src: Seq<Result<u8, Error>>, k: int)
    requires
        0 <= k <= body_len(xterm, src),
    ensures
        k <= src.len(),
        body_len(xterm, src.take(k)) == k,
    decreases k,
{
    if k > 0 {
        lemma_body_len_cut(xterm, src.drop_first(), k - 1);
        assert(src.take(k).drop_first() =~= src.drop_first().take(k - 1));
    }
}

/// Cut short while it reads the bytes of a character, the UTF-8 decoder
/// fails.
pub proof fn lemma_utf8_tail_cut(buf: Seq<u8>, src: Seq<Result<u8, Error>>, k: int)
    requires
        0 <= k < spec_utf8_tail(buf, src).taken,
    ensures
        k < src.len(),
        cut_short(spec_utf8_tail(buf, src.take(k)), k),
    decreases k,
{
    if k > 0 {
        let grown = buf.push(src[0]->Ok_0);
        lemma_utf8_tail_cut(grown, src.drop_first(), k - 1);
        assert(src.take(k).drop_first() =~= src.drop_first().take(k - 1));
    }
}

/// Cut short, the decoder of one character fails.
pub proof fn lemma_utf8_char_cut(c: u8, src: Seq<Result<u8, Error>>, k: int)
    requires
        0 <= k < spec_parse_utf8_char(c, src).taken,
    ensures
        k < src.len(),
        cut_short(spec_parse_utf8_char(c, src.take(k)), k),
{
    lemma_utf8_tail_cut(seq![c], src, k);
}

/// Cut short, the reader of the text of parameters fails.
pub proof fn lemma_read_body_cut(xterm: bool, src: Seq<Result<u8, Error>>, k: int)
    requires
        0 <= k < spec_read_body(xterm, src).taken,
    ensures
        k < src.len(),
        cut_short(spec_read_body(xterm, src.take(k)), k),
{
    crate::csi::lemma_body_len(xterm, src);
    lemma_body_len_cut(xterm, src, k);
}

/// Cut short, the decoder of control sequences fails, whatever the lead
/// byte was.
pub proof fn lemma_csi_body_cut(lead: u8, src: Seq<Result<u8, Error>>, k: int)
    requires
        0 <= k < spec_csi_body(lead, src).taken,
    ensures
        k < src.len(),
        cut_short(spec_csi_body(lead, src.take(k)), k),
{
    if lead == LESS_THAN {
        lemma_read_body_cut(true, src, k);
    } else if is_digit(lead) && lead != BRACKET && lead != UPPER_M {
        lemma_read_body_cut(false, src, k);
    }
}

/// Cut short, the decoder of control sequences fails.
pub proof fn lemma_csi_cut(src: Seq<Result<u8, Error>>, k: int)
    requires
        0 <= k < spec_parse_csi(src).taken,
    ensures
        k < src.len(),
        cut_short(spec_parse_csi(src.take(k)), k),
{
    if k >= 1 {
        let lead = src[0]->Ok_0;
        lemma_csi_body_cut(lead, src.skip(1), k - 1);
        assert(src.take(k).skip(1) =~= src.skip(1).take(k - 1));
    }
}

/// An event that is cut short is unsupported, or the attempt at it fails:
/// either way all the items that there were have been taken.
pub open spec fn left_unfinished(found: Parsed<EventView>, k: int) -> bool {
    &&& found.taken == k
    &&& found.outcome is Err || found.outcome matches Ok(EventView::Unsupported(_))
}

/// Cut short, what follows the escape byte is left unfinished.
pub proof fn lemma_escape_cut(src: Seq<Result<u8, Error>>, k: int)
    requires
        0 <= k < spec_escape(src).taken,
    ensures
        k < src.len(),
        left_unfinished(spec_escape(src.take(k)), k),
        spec_escape(src.take(k)).outcome matches Ok(EventView::Unsupported(raw)) ==> raw == seq![
            ESC,
        ] + ok_bytes(src.take(k)),
{
    lemma_ok_bytes_first(src);
    if k >= 1 {
        let b = src[0]->Ok_0;
        if b == BRACKET {
            lemma_csi_cut(src.skip(1), k - 1);
        } else if b != UPPER_O {
            lemma_utf8_char_cut(b, src.skip(1), k - 1);
        }
        assert(src.take(k).skip(1) =~= src.skip(1).take(k - 1));
    }
}

} // verus!
