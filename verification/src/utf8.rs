//! One character from its UTF-8 encoding.
//!
//! What well-formed UTF-8 is, and which characters it encodes, is taken from
//! `vstd::utf8`; the functions here compute those definitions on bytes.

use vstd::prelude::*;
use vstd::std_specs::iter::IteratorSpec;
use vstd::utf8::*;
use std::io::Error;
use crate::error::ParseError;
use crate::source::{
    advanced, done, failed, lawful, lemma_advanced_chain, pop, well_behaved, Parsed,
};

verus! {

/// `char::from_u32` of the standard library: the character with the given
/// scalar value, and `None` for a number that is no Unicode scalar value (a
/// surrogate, or anything above `0x10FFFF`).
pub assume_specification[ char::from_u32 ](i: u32) -> (r: Option<char>)
    ensures
        r == (if is_scalar(i) { Some(i as char) } else { None::<char> }),
;

/// The scalar whose encoding starts at `bytes[at]`, with the number of bytes
/// that encode it, or `None` where no well-formed encoding starts there.
pub fn scalar_at(bytes: &[u8], at: usize) -> (r: Option<(u32, usize)>)
    requires
        at <= bytes@.len(),
    ensures
        r is Some <==> valid_first_scalar(bytes@.skip(at as int)),
        r matches Some((scalar, width)) ==> {
            &&& scalar == decode_first_scalar(bytes@.skip(at as int))
            &&& width == length_of_first_scalar(bytes@.skip(at as int))
            &&& at + width <= bytes@.len()
            &&& is_scalar(scalar)
        },
{
    let len = bytes.len();
    if at >= len {
        return None;
    }
    let b0 = bytes[at];
    let avail = len - at;
    if b0 <= 0x7f {
        let scalar = (b0 & 0x7f) as u32;
        assert(scalar <= 0x7f) by (bit_vector)
            requires
                scalar == (b0 & 0x7f) as u32,
        ;
        Some((scalar, 1))
    } else if 0xc0 <= b0 && b0 <= 0xdf {
        if avail < 2 {
            return None;
        }
        let b1 = bytes[at + 1];
        if !is_continuation(b1) {
            return None;
        }
        let scalar = (((b0 & 0x1f) as u32) << 6) | ((b1 & 0x3f) as u32);
        assert(scalar <= 0x7ff) by (bit_vector)
            requires
                scalar == (((b0 & 0x1f) as u32) << 6) | ((b1 & 0x3f) as u32),
        ;
        if scalar < 0x80 {
            return None;
        }
        Some((scalar, 2))
    } else if 0xe0 <= b0 && b0 <= 0xef {
        if avail < 3 {
            return None;
        }
        let b1 = bytes[at + 1];
        let b2 = bytes[at + 2];
        if !is_continuation(b1) || !is_continuation(b2) {
            return None;
        }
        let scalar = (((b0 & 0x0f) as u32) << 12) | (((b1 & 0x3f) as u32) << 6) | ((b2
            & 0x3f) as u32);
        assert(scalar <= 0xffff) by (bit_vector)
            requires
                scalar == (((b0 & 0x0f) as u32) << 12) | (((b1 & 0x3f) as u32) << 6) | ((b2
                    & 0x3f) as u32),
        ;
        if scalar < 0x800 || (0xd800 <= scalar && scalar <= 0xdfff) {
            return None;
        }
        Some((scalar, 3))
    } else if 0xf0 <= b0 && b0 <= 0xf7 {
        if avail < 4 {
            return None;
        }
        let b1 = bytes[at + 1];
        let b2 = bytes[at + 2];
        let b3 = bytes[at + 3];
        if !is_continuation(b1) || !is_continuation(b2) || !is_continuation(b3) {
            return None;
        }
        let scalar = (((b0 & 0x07) as u32) << 18) | (((b1 & 0x3f) as u32) << 12) | (((b2
            & 0x3f) as u32) << 6) | ((b3 & 0x3f) as u32);
        if scalar < 0x10000 || scalar > 0x10ffff {
            return None;
        }
        Some((scalar, 4))
    } else {
        None
    }
}

/// Whether `b` has the form of a continuation byte, `10xxxxxx`.
pub fn is_continuation(b: u8) -> (r: bool)
    ensures
        r == is_continuation_byte(b),
{
    0x80 <= b && b <= 0xbf
}

/// Whether `bytes` is well-formed UTF-8 from end to end.
pub fn is_utf8(bytes: &[u8]) -> (ok: bool)
    ensures
        ok == valid_utf8(bytes@),
{
    let mut at: usize = 0;
    assert(bytes@.skip(0) =~= bytes@);
    while at < bytes.len()
        invariant
            at <= bytes@.len(),
            valid_utf8(bytes@) == valid_utf8(bytes@.skip(at as int)),
        decreases bytes@.len() - at,
    {
        let ghost tail = bytes@.skip(at as int);
        match scalar_at(bytes, at) {
            None => {
                return false;
            },
            Some((_, width)) => {
                assert(pop_first_scalar(tail) =~= bytes@.skip(at + width));
                at = at + width;
            },
        }
    }
    true
}

/// The first character of the text that `bytes` encodes, where `bytes` is
/// well-formed UTF-8 and not empty.
pub open spec fn spec_first_char(bytes: Seq<u8>) -> Option<char> {
    if bytes.len() > 0 && valid_utf8(bytes) {
        Some(decode_utf8(bytes)[0])
    } else {
        None
    }
}

/// Validates `bytes` as UTF-8 and returns the first character of the text.
pub fn first_char(bytes: &[u8]) -> (r: Option<char>)
    ensures
        r == spec_first_char(bytes@),
{
    if bytes.len() == 0 || !is_utf8(bytes) {
        return None;
    }
    assert(bytes@.skip(0) =~= bytes@);
    match scalar_at(bytes, 0) {
        Some((scalar, _)) => char::from_u32(scalar),
        None => None,
    }
}

/// Growing `buf`, which holds the bytes of an unfinished character, by one
/// byte at a time: the character is there as soon as the bytes are
/// well-formed; four bytes that are not, the end of the source or an error
/// from it make the encoding invalid.
pub open spec fn spec_utf8_tail(buf: Seq<u8>, src: Seq<Result<u8, Error>>) -> Parsed<char>
    decreases 4 - buf.len(),
{
    if src.len() == 0 {
        failed(ParseError::InvalidEncoding, 0)
    } else {
        match src[0] {
            Err(_) => failed(ParseError::InvalidEncoding, 1),
            Ok(b) => {
                let grown = buf.push(b);
                if spec_first_char(grown) is Some {
                    done(spec_first_char(grown)->0, 1)
                } else if grown.len() >= 4 {
                    failed(ParseError::InvalidEncoding, 1)
                } else {
                    spec_utf8_tail(grown, src.drop_first()).after(1)
                }
            },
        }
    }
}

/// The character that starts with the byte `c`: `c` itself where it is
/// ASCII, else the one that `c` and the next one to three bytes of the
/// source encode.
pub open spec fn spec_parse_utf8_char(c: u8, src: Seq<Result<u8, Error>>) -> Parsed<char> {
    if c <= 0x7f {
        done(c as char, 0)
    } else {
        spec_utf8_tail(seq![c], src)
    }
}

/// Parses `c` as either a single byte ASCII char or a variable size UTF-8
/// char, reading the bytes that follow `c` from `iter` as they are needed
/// and adding each to `seen`.
pub fn read_utf8_char<I>(c: u8, iter: &mut I, seen: &mut Vec<u8>) -> (r: Result<char, ParseError>)
    where I: Iterator<Item = Result<u8, Error>>
    requires
        lawful(old(iter)),
    ensures
        lawful(final(iter)),
        well_behaved(old(iter)) ==> well_behaved(final(iter)),
        r == spec_parse_utf8_char(c, (*old(iter)).remaining()).outcome,
        advanced(
            (*old(iter)).remaining(),
            (*final(iter)).remaining(),
            old(seen)@,
            final(seen)@,
            spec_parse_utf8_char(c, (*old(iter)).remaining()).taken,
        ),
{
    let ghost src = (*iter).remaining();
    let ghost seen0 = seen@;
    proof {
        crate::source::lemma_ok_bytes_first(src);
    }
    if c <= 0x7f {
        return Ok(c as char);
    }
    let mut bytes: Vec<u8> = Vec::new();
    bytes.push(c);
    assert(bytes@ =~= seq![c]);
    loop
        invariant
            lawful(iter),
            well_behaved(old(iter)) ==> well_behaved(iter),
            c > 0x7f,
            src == (*old(iter)).remaining(),
            seen0 == old(seen)@,
            1 <= bytes@.len() < 4,
            advanced(src, (*iter).remaining(), seen0, seen@, (bytes@.len() - 1) as nat),
            spec_utf8_tail(seq![c], src) == spec_utf8_tail(bytes@, (*iter).remaining()).after(
                (bytes@.len() - 1) as nat,
            ),
        decreases 4 - bytes@.len(),
    {
        let ghost mid = (*iter).remaining();
        let ghost seen1 = seen@;
        let ghost held = bytes@;
        let next = pop(iter, seen);
        proof {
            lemma_advanced_chain(
                src,
                mid,
                (*iter).remaining(),
                seen0,
                seen1,
                seen@,
                (held.len() - 1) as nat,
                crate::source::spec_pop(mid).taken,
            );
        }
        match next {
            Ok(b) => {
                bytes.push(b);
                assert(bytes@ =~= held.push(b));
                match first_char(bytes.as_slice()) {
                    Some(ch) => {
                        return Ok(ch);
                    },
                    None => {},
                }
                if bytes.len() >= 4 {
                    return Err(ParseError::InvalidEncoding);
                }
            },
            Err(_) => {
                return Err(ParseError::InvalidEncoding);
            },
        }
    }
}

/// Parses `c` as either a single byte ASCII char or a variable size UTF-8
/// char, reading the bytes that follow `c` from `iter` as they are needed.
pub fn parse_utf8_char<I>(c: u8, iter: &mut I) -> (r: Result<char, ParseError>) where
    I: Iterator<Item = Result<u8, Error>>,

    requires
        lawful(old(iter)),
    ensures
        lawful(final(iter)),
        well_behaved(old(iter)) ==> well_behaved(final(iter)),
        r == spec_parse_utf8_char(c, (*old(iter)).remaining()).outcome,
        spec_parse_utf8_char(c, (*old(iter)).remaining()).taken <= (*old(iter)).remaining().len(),
        (*final(iter)).remaining() == (*old(iter)).remaining().skip(
            spec_parse_utf8_char(c, (*old(iter)).remaining()).taken as int,
        ),
{
    let mut seen: Vec<u8> = Vec::new();
    read_utf8_char(c, iter, &mut seen)
}

} // verus!
