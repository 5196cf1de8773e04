//! The byte source, and what is known of it.
//!
//! A source is any iterator over `Result<u8, std::io::Error>`. In contracts
//! it is the sequence of items that it has yet to yield; a decoder is then a
//! function of that sequence which says what comes out and how many items
//! were taken from the front.

use vstd::prelude::*;
use vstd::std_specs::iter::IteratorSpec;
use std::io::Error;
use crate::error::ParseError;

verus! {

/// The source yields a finite run of items and then reports its end. This
/// is all that a decoder which reads a bounded number of items asks of it.
pub open spec fn lawful<I: Iterator<Item = Result<u8, Error>>>(iter: &I) -> bool {
    iter.obeys_prophetic_iter_laws()
}

/// The source is lawful, and each item taken brings its end closer by a
/// measure that is known beforehand. A decoder that reads until some byte
/// comes asks this, to be sure of coming to an end.
pub open spec fn well_behaved<I: Iterator<Item = Result<u8, Error>>>(iter: &I) -> bool {
    lawful(iter) && iter.decrease() is Some
}

/// What a decoder made of the items ahead of it: its result, and how many
/// items it took from the front of the sequence to reach it.
pub struct Parsed<T> {
    pub outcome: Result<T, ParseError>,
    pub taken: nat,
}

impl<T> Parsed<T> {
    /// The same outcome, reached after `n` items had been taken before.
    pub open spec fn after(self, n: nat) -> Parsed<T> {
        Parsed { outcome: self.outcome, taken: self.taken + n }
    }
}

/// Success on `value` after `taken` items.
pub open spec fn done<T>(value: T, taken: nat) -> Parsed<T> {
    Parsed { outcome: Ok(value), taken }
}

/// Failure with `error` after `taken` items.
pub open spec fn failed<T>(error: ParseError, taken: nat) -> Parsed<T> {
    Parsed { outcome: Err(error), taken }
}

/// The bytes among `items`, in order; items that are errors hold none.
pub open spec fn ok_bytes(items: Seq<Result<u8, Error>>) -> Seq<u8>
    decreases items.len(),
{
    if items.len() == 0 {
        Seq::empty()
    } else {
        match items.last() {
            Ok(b) => ok_bytes(items.drop_last()).push(b),
            Err(_) => ok_bytes(items.drop_last()),
        }
    }
}

/// The bytes of no items and of a single item.
pub proof fn lemma_ok_bytes_first(items: Seq<Result<u8, Error>>)
    ensures
        ok_bytes(items.take(0)) == Seq::<u8>::empty(),
        items.skip(0) == items,
        items.len() > 0 ==> ok_bytes(items.take(1)) == match items[0] {
            Ok(b) => seq![b],
            Err(_) => Seq::<u8>::empty(),
        },
{
    if items.len() > 0 {
        let one = items.take(1);
        assert(ok_bytes(one.drop_last()) =~= Seq::empty());
    }
}

/// The bytes among items that are all bytes but for the last, which is an
/// error, are the bytes among those before the last.
pub proof fn lemma_ok_bytes_before_error(items: Seq<Result<u8, Error>>)
    requires
        items.len() > 0,
        items.last() is Err,
    ensures
        ok_bytes(items) == ok_bytes(items.drop_last()),
{
}

/// The items of a source that yields the bytes `bytes` without error.
pub open spec fn items_of(bytes: Seq<u8>) -> Seq<Result<u8, Error>> {
    Seq::new(bytes.len(), |i: int| Ok(bytes[i]))
}

/// The bytes among the items of `bytes` are `bytes`.
pub proof fn lemma_ok_bytes_of_items(bytes: Seq<u8>)
    ensures
        ok_bytes(items_of(bytes)) == bytes,
    decreases bytes.len(),
{
    if bytes.len() == 0 {
        assert(ok_bytes(items_of(bytes)) =~= bytes);
    } else {
        lemma_ok_bytes_of_items(bytes.drop_last());
        assert(items_of(bytes).drop_last() =~= items_of(bytes.drop_last()));
        assert(ok_bytes(items_of(bytes)) =~= bytes);
    }
}

/// The relation between a source and a record of bytes before and after a
/// decoder took `taken` items: the source has lost exactly these, and the
/// record has gained their bytes.
pub open spec fn advanced(
    src: Seq<Result<u8, Error>>,
    rest: Seq<Result<u8, Error>>,
    seen_before: Seq<u8>,
    seen_after: Seq<u8>,
    taken: nat,
) -> bool {
    &&& taken <= src.len()
    &&& rest =~= src.skip(taken as int)
    &&& seen_after =~= seen_before + ok_bytes(src.take(taken as int))
}

/// The bytes of two runs of items, one after the other.
pub proof fn lemma_ok_bytes_concat(a: Seq<Result<u8, Error>>, b: Seq<Result<u8, Error>>)
    ensures
        ok_bytes(a + b) == ok_bytes(a) + ok_bytes(b),
    decreases b.len(),
{
    if b.len() == 0 {
        assert(ok_bytes(a) + ok_bytes(b) =~= ok_bytes(a));
    } else {
        lemma_ok_bytes_concat(a, b.drop_last());
        assert((a + b).drop_last() =~= a + b.drop_last());
        match b.last() {
            Ok(x) => {
                assert(ok_bytes(a + b) =~= ok_bytes(a) + ok_bytes(b));
            },
            Err(_) => {},
        }
    }
}

/// Two decoders in a row take the sum of what each takes.
pub proof fn lemma_advanced_chain(
    src: Seq<Result<u8, Error>>,
    mid: Seq<Result<u8, Error>>,
    rest: Seq<Result<u8, Error>>,
    seen0: Seq<u8>,
    seen1: Seq<u8>,
    seen2: Seq<u8>,
    n: nat,
    m: nat,
)
    requires
        advanced(src, mid, seen0, seen1, n),
        advanced(mid, rest, seen1, seen2, m),
    ensures
        advanced(src, rest, seen0, seen2, n + m),
{
    let first = src.take(n as int);
    let second = mid.take(m as int);
    assert(src.take((n + m) as int) =~= first + second);
    lemma_ok_bytes_concat(first, second);
}

/// Reading one byte: the next item where it is a byte, the source's error
/// where it is one, and `UnexpectedEof` at the end of the source.
pub open spec fn spec_pop(src: Seq<Result<u8, Error>>) -> Parsed<u8> {
    if src.len() == 0 {
        failed(ParseError::UnexpectedEof, 0)
    } else {
        match src[0] {
            Ok(b) => done(b, 1),
            Err(e) => failed(ParseError::Source(e), 1),
        }
    }
}

/// Takes the next item from the source and records it in `seen` if it is a
/// byte.
pub fn pop<I>(iter: &mut I, seen: &mut Vec<u8>) -> (r: Result<u8, ParseError>)
    where I: Iterator<Item = Result<u8, Error>>
    requires
        lawful(old(iter)),
    ensures
        lawful(final(iter)),
        well_behaved(old(iter)) ==> well_behaved(final(iter)),
        r == spec_pop((*old(iter)).remaining()).outcome,
        advanced(
            (*old(iter)).remaining(),
            (*final(iter)).remaining(),
            old(seen)@,
            final(seen)@,
            spec_pop((*old(iter)).remaining()).taken,
        ),
        well_behaved(old(iter)) && (*old(iter)).remaining().len() > 0 ==> decreases_to!(
            (*old(iter)).decrease()->0 => (*final(iter)).decrease()->0
        ),
{
    let ghost src = (*iter).remaining();
    proof {
        lemma_ok_bytes_first(src);
    }
    match iter.next() {
        None => Err(ParseError::UnexpectedEof),
        Some(Ok(b)) => {
            seen.push(b);
            Ok(b)
        },
        Some(Err(e)) => Err(ParseError::Source(e)),
    }
}

} // verus!
