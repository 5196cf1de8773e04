//! The parameters of a control sequence.
//!
//! Between the introducer of a sequence and its final byte stands a text of
//! numbers in decimal, parted by `;`. A number is an optional `+` and one or
//! more ASCII digits, and must fit 16 bits. A mouse report has three numbers
//! and a key code has one: a text with fewer or with more parameters, or
//! with a parameter that is no number, is refused. A text that is accepted
//! is therefore ASCII throughout.

use vstd::prelude::*;

verus! {

/// The byte that parts two parameters.
pub const SEPARATOR: u8 = 0x3b;

/// The sign that a number may carry.
pub const PLUS: u8 = 0x2b;

/// The number of bytes of `text` that stand before its first separator.
pub open spec fn field_len(text: Seq<u8>) -> nat
    decreases text.len(),
{
    if text.len() == 0 || text[0] == SEPARATOR {
        0
    } else {
        1 + field_len(text.drop_first())
    }
}

/// The fields of `text`: the runs of bytes between its separators. A text
/// with `n` separators has `n + 1` fields, some of which may be empty.
pub open spec fn split_fields(text: Seq<u8>) -> Seq<Seq<u8>>
    decreases text.len(),
{
    let n = field_len(text) as int;
    if n >= text.len() {
        seq![text]
    } else {
        seq![text.take(n)] + split_fields(text.skip(n + 1))
    }
}

/// Whether `b` is an ASCII digit.
pub open spec fn is_digit(b: u8) -> bool {
    0x30 <= b <= 0x39
}

/// Whether `s` holds ASCII digits only.
pub open spec fn all_digits(s: Seq<u8>) -> bool {
    forall|i: int| 0 <= i < s.len() ==> is_digit(#[trigger] s[i])
}

/// The number that the digits `s` write in decimal.
pub open spec fn digits_value(s: Seq<u8>) -> nat
    decreases s.len(),
{
    if s.len() == 0 {
        0
    } else {
        10 * digits_value(s.drop_last()) + (s.last() - 0x30) as nat
    }
}

/// The digits of a field: the field without its sign, if it has one.
pub open spec fn digits_of(field: Seq<u8>) -> Seq<u8> {
    if field.len() > 0 && field[0] == PLUS {
        field.drop_first()
    } else {
        field
    }
}

/// The number that a field writes, if it writes one that fits 16 bits.
pub open spec fn spec_number(field: Seq<u8>) -> Option<u16> {
    let digits = digits_of(field);
    if digits.len() > 0 && all_digits(digits) && digits_value(digits) <= u16::MAX {
        Some(digits_value(digits) as u16)
    } else {
        None
    }
}

/// The three parameters of `text`, if it has three parameters, no fewer and
/// no more, and each is a number.
pub open spec fn spec_three_numbers(text: Seq<u8>) -> Option<(u16, u16, u16)> {
    let fields = split_fields(text);
    if fields.len() == 3 && spec_number(fields[0]) is Some && spec_number(fields[1]) is Some
        && spec_number(fields[2]) is Some {
        Some((spec_number(fields[0])->0, spec_number(fields[1])->0, spec_number(fields[2])->0))
    } else {
        None
    }
}

/// The only parameter of `text`, if it has one parameter and no more, and
/// that one is a number.
pub open spec fn spec_one_number(text: Seq<u8>) -> Option<u16> {
    let fields = split_fields(text);
    if fields.len() == 1 {
        spec_number(fields[0])
    } else {
        None
    }
}

/// A field ends within its text, at a separator or at the end, and holds
/// no separator.
pub proof fn lemma_field_len(text: Seq<u8>)
    ensures
        field_len(text) <= text.len(),
        field_len(text) < text.len() ==> text[field_len(text) as int] == SEPARATOR,
        forall|i: int| 0 <= i < field_len(text) ==> #[trigger] text[i] != SEPARATOR,
    decreases text.len(),
{
    if text.len() == 0 || text[0] == SEPARATOR {
    } else {
        let rest = text.drop_first();
        lemma_field_len(rest);
        assert forall|i: int| 0 <= i < field_len(text) implies #[trigger] text[i] != SEPARATOR by {
            if i > 0 {
                assert(text[i] == rest[i - 1]);
            }
        }
    }
}

/// The first field of a text, and where the others come from.
pub proof fn lemma_split_fields(text: Seq<u8>)
    ensures
        split_fields(text).len() >= 1,
        split_fields(text)[0] == text.take(field_len(text) as int),
        field_len(text) >= text.len() ==> split_fields(text).len() == 1,
        field_len(text) < text.len() ==> split_fields(text) == seq![
            text.take(field_len(text) as int),
        ] + split_fields(text.skip(field_len(text) as int + 1)),
{
    lemma_field_len(text);
}

/// A field that writes a number is ASCII.
pub proof fn lemma_number_is_ascii(field: Seq<u8>)
    requires
        spec_number(field) is Some,
    ensures
        forall|i: int| 0 <= i < field.len() ==> #[trigger] field[i] <= 0x7f,
{
    let digits = digits_of(field);
    assert forall|i: int| 0 <= i < field.len() implies #[trigger] field[i] <= 0x7f by {
        if field[0] == PLUS {
            if i > 0 {
                assert(is_digit(digits[i - 1]));
            }
        } else {
            assert(is_digit(digits[i]));
        }
    }
}

/// A text that is accepted, as one number or as three, is ASCII from end
/// to end.
pub proof fn lemma_accepted_text_is_ascii(text: Seq<u8>)
    requires
        spec_one_number(text) is Some || spec_three_numbers(text) is Some,
    ensures
        forall|i: int| 0 <= i < text.len() ==> #[trigger] text[i] <= 0x7f,
{
    let fields = split_fields(text);
    let n0 = field_len(text) as int;
    lemma_split_fields(text);
    lemma_field_len(text);
    lemma_number_is_ascii(fields[0]);
    if n0 < text.len() {
        let t1 = text.skip(n0 + 1);
        let n1 = field_len(t1) as int;
        lemma_split_fields(t1);
        lemma_field_len(t1);
        assert(fields.len() == 1 + split_fields(t1).len());
        assert(fields[1] == split_fields(t1)[0]);
        lemma_number_is_ascii(fields[1]);
        let t2 = t1.skip(n1 + 1);
        lemma_split_fields(t2);
        if field_len(t2) < t2.len() {
            lemma_split_fields(t2.skip(field_len(t2) as int + 1));
        }
        assert(split_fields(t1).len() == 1 + split_fields(t2).len());
        assert(fields[2] == split_fields(t1)[1]);
        assert(fields[2] =~= t2);
        lemma_number_is_ascii(fields[2]);
        assert forall|i: int| 0 <= i < text.len() implies #[trigger] text[i] <= 0x7f by {
            if i < n0 {
                assert(text[i] == fields[0][i]);
            } else if i > n0 {
                let j = i - n0 - 1;
                assert(text[i] == t1[j]);
                if j < n1 {
                    assert(t1[j] == fields[1][j]);
                } else if j > n1 {
                    assert(t1[j] == t2[j - n1 - 1]);
                }
            }
        }
    } else {
        assert(fields[0] =~= text);
    }
}

/// The value of the first digits of a number is at most the value of all.
pub proof fn lemma_digits_value_grows(s: Seq<u8>, k: int)
    requires
        0 <= k <= s.len(),
    ensures
        digits_value(s.take(k)) <= digits_value(s),
    decreases s.len(),
{
    if k == s.len() {
        assert(s.take(k) =~= s);
    } else {
        lemma_digits_value_grows(s.drop_last(), k);
        assert(s.drop_last().take(k) =~= s.take(k));
    }
}

/// The place where the field that starts at `from` ends: that of the next
/// separator, or the end of `text`.
pub fn field_end(text: &[u8], from: usize) -> (end: usize)
    requires
        from <= text@.len(),
    ensures
        end == from + field_len(text@.skip(from as int)),
        end <= text@.len(),
{
    let mut at: usize = from;
    proof {
        lemma_field_len(text@.skip(from as int));
    }
    while at < text.len() && text[at] != SEPARATOR
        invariant
            from <= at <= text@.len(),
            from + field_len(text@.skip(from as int)) == at + field_len(text@.skip(at as int)),
        decreases text@.len() - at,
    {
        assert(text@.skip(at as int).drop_first() =~= text@.skip(at + 1));
        at = at + 1;
    }
    at
}

/// Reads the bytes of `text` from `from` up to `to` as one number.
pub fn parse_number(text: &[u8], from: usize, to: usize) -> (r: Option<u16>)
    requires
        from <= to <= text@.len(),
    ensures
        r == spec_number(text@.subrange(from as int, to as int)),
{
    let ghost field = text@.subrange(from as int, to as int);
    let mut at: usize = from;
    if at < to && text[at] == PLUS {
        at = at + 1;
    }
    let first: usize = at;
    let ghost digits = digits_of(field);
    if first == to {
        return None;
    }
    let mut value: u32 = 0;
    while at < to
        invariant
            from <= first <= at <= to <= text@.len(),
            digits == text@.subrange(first as int, to as int),
            digits == digits_of(text@.subrange(from as int, to as int)),
            all_digits(digits.take(at - first)),
            value == digits_value(digits.take(at - first)),
            value <= u16::MAX,
        decreases to - at,
    {
        let b = text[at];
        let ghost read = digits.take(at - first + 1);
        assert(read.drop_last() =~= digits.take(at - first));
        if b < 0x30 || b > 0x39 {
            assert(!is_digit(digits[at - first]));
            return None;
        }
        value = value * 10 + (b - 0x30) as u32;
        if value > 0xffff {
            proof {
                lemma_digits_value_grows(digits, at - first + 1);
            }
            return None;
        }
        assert forall|i: int| 0 <= i < read.len() implies is_digit(#[trigger] read[i]) by {
            if i < read.len() - 1 {
                assert(read[i] == digits.take(at - first)[i]);
            }
        }
        at = at + 1;
    }
    assert(digits.take(at - first) =~= digits);
    Some(value as u16)
}

/// Reads the three parameters of `text`.
pub fn three_numbers(text: &[u8]) -> (r: Option<(u16, u16, u16)>)
    ensures
        r == spec_three_numbers(text@),
{
    let len = text.len();
    let ghost t0 = text@;
    proof {
        lemma_split_fields(t0);
        assert(t0.skip(0) =~= t0);
    }
    let e0 = field_end(text, 0);
    let a = match parse_number(text, 0, e0) {
        Some(a) => a,
        None => {
            return None;
        },
    };
    if e0 >= len {
        return None;
    }
    let s1 = e0 + 1;
    let ghost t1 = t0.skip(s1 as int);
    proof {
        lemma_split_fields(t1);
    }
    let e1 = field_end(text, s1);
    assert(t1.take(e1 - s1) =~= t0.subrange(s1 as int, e1 as int));
    let b = match parse_number(text, s1, e1) {
        Some(b) => b,
        None => {
            return None;
        },
    };
    if e1 >= len {
        return None;
    }
    let s2 = e1 + 1;
    let ghost t2 = t0.skip(s2 as int);
    proof {
        assert(t1.skip(field_len(t1) as int + 1) =~= t2);
        lemma_split_fields(t2);
    }
    let e2 = field_end(text, s2);
    assert(t2.take(e2 - s2) =~= t0.subrange(s2 as int, e2 as int));
    if e2 < len {
        proof {
            lemma_split_fields(t2.skip(field_len(t2) as int + 1));
        }
        return None;
    }
    match parse_number(text, s2, e2) {
        Some(c) => Some((a, b, c)),
        None => None,
    }
}

/// Reads the one parameter of `text`.
pub fn one_number(text: &[u8]) -> (r: Option<u16>)
    ensures
        r == spec_one_number(text@),
{
    proof {
        lemma_split_fields(text@);
        assert(text@.skip(0) =~= text@);
    }
    let end = field_end(text, 0);
    if end < text.len() {
        return None;
    }
    parse_number(text, 0, end)
}

} // verus!
