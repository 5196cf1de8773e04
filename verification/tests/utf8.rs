use std::io::{Error, ErrorKind};
use term_events::utf8::{first_char, is_utf8, scalar_at};
use term_events::{parse_event, parse_utf8_char, read_utf8_char, Event, Key, ParseError};

fn read_char(bytes: &[u8]) -> (Result<char, ParseError>, Vec<u8>, usize) {
    let mut seen = Vec::new();
    let mut iter = bytes[1..].iter().map(|b| Ok::<u8, Error>(*b));
    let r = read_utf8_char(bytes[0], &mut iter, &mut seen);
    (r, seen, iter.count())
}

#[test]
fn character_without_a_record() {
    let mut iter = "€uro".as_bytes()[1..].iter().map(|b| Ok::<u8, Error>(*b));
    assert_eq!(parse_utf8_char(0xe2, &mut iter).unwrap(), '€');
    assert_eq!(iter.count(), 3);
    let mut iter = [0x28u8, 0x29].iter().map(|b| Ok::<u8, Error>(*b));
    assert!(matches!(parse_utf8_char(0xe2, &mut iter), Err(ParseError::InvalidEncoding)));
    assert_eq!(iter.count(), 0);
}

#[test]
fn ascii_lead_byte_reads_nothing() {
    let (r, seen, left) = read_char(b"abc");
    assert_eq!(r.unwrap(), 'a');
    assert!(seen.is_empty());
    assert_eq!(left, 2);
}

#[test]
fn characters_of_each_width() {
    for (text, width) in [("$", 1), ("é", 2), ("€", 3), ("😀", 4)] {
        let mut bytes = text.as_bytes().to_vec();
        assert_eq!(bytes.len(), width);
        bytes.extend_from_slice(b"xy");
        let (r, seen, left) = read_char(&bytes);
        assert_eq!(r.unwrap(), text.chars().next().unwrap());
        assert_eq!(seen, text.as_bytes()[1..].to_vec());
        assert_eq!(left, 2);
    }
}

#[test]
fn round_trip_of_characters() {
    let samples = [
        '\u{80}', '\u{ff}', '\u{7ff}', '\u{800}', '\u{d7ff}', '\u{e000}', '\u{fffd}', '\u{ffff}',
        '\u{10000}', '\u{1f600}', '\u{10ffff}', 'ŷ', '¤', '£', 'ù',
    ];
    for c in samples {
        let mut buf = [0u8; 4];
        let encoded = c.encode_utf8(&mut buf).as_bytes().to_vec();
        let mut iter = encoded[1..].iter().map(|b| Ok::<u8, Error>(*b));
        let (event, seen) = parse_event(encoded[0], &mut iter).unwrap();
        assert_eq!(event, Event::Key(Key::Char(c)));
        assert_eq!(seen, encoded);
        assert!(iter.next().is_none());
    }
}

#[test]
fn round_trip_of_every_character_of_two_bytes() {
    for v in 0x80u32..0x800 {
        let c = char::from_u32(v).unwrap();
        let mut buf = [0u8; 4];
        let encoded = c.encode_utf8(&mut buf).as_bytes().to_vec();
        let (r, seen, left) = read_char(&encoded);
        assert_eq!(r.unwrap(), c);
        assert_eq!(seen, encoded[1..].to_vec());
        assert_eq!(left, 0);
    }
}

#[test]
fn invalid_encoding_stops_at_four_bytes() {
    let (r, seen, left) = read_char(&[0x80, b'a', b'b', b'c', b'd', b'e']);
    assert!(matches!(r, Err(ParseError::InvalidEncoding)));
    assert_eq!(seen, vec![b'a', b'b', b'c']);
    assert_eq!(left, 2);
}

#[test]
fn invalid_encoding_at_the_end_of_the_source() {
    let (r, seen, left) = read_char(&[0xe2, 0x82]);
    assert!(matches!(r, Err(ParseError::InvalidEncoding)));
    assert_eq!(seen, vec![0x82]);
    assert_eq!(left, 0);
    let (r, seen, _) = read_char(&[0xff]);
    assert!(matches!(r, Err(ParseError::InvalidEncoding)));
    assert!(seen.is_empty());
}

#[test]
fn invalid_encoding_on_a_source_error() {
    let mut items: Vec<Result<u8, Error>> = vec![Ok(0x82)];
    items.push(Err(Error::new(ErrorKind::Other, "gone")));
    items.push(Ok(0xac));
    let mut iter = items.into_iter();
    let mut seen = Vec::new();
    let r = read_utf8_char(0xe2, &mut iter, &mut seen);
    assert!(matches!(r, Err(ParseError::InvalidEncoding)));
    assert_eq!(seen, vec![0x82]);
    assert_eq!(iter.next().unwrap().unwrap(), 0xac);
}

#[test]
fn malformed_bytes_are_unsupported() {
    for bytes in [
        &[0xc3u8, 0x28, 0x41, 0x42][..],
        &[0xc0, 0x80, 0x80, 0x80][..],
        &[0xed, 0xa0, 0x80, 0x80][..],
        &[0xf4, 0x90, 0x80, 0x80][..],
        &[0xf8, 0x88, 0x80, 0x80][..],
        &[0xe0, 0x80, 0xaf, 0x80][..],
    ] {
        let mut iter = bytes[1..].iter().map(|b| Ok::<u8, Error>(*b));
        let (event, seen) = parse_event(bytes[0], &mut iter).unwrap();
        assert_eq!(event, Event::Unsupported(bytes.to_vec()));
        assert_eq!(seen, bytes.to_vec());
    }
}

#[test]
fn validation_agrees_with_the_standard_library() {
    let samples: [&[u8]; 16] = [
        b"",
        b"plain",
        "é€😀".as_bytes(),
        &[0x80],
        &[0xc2],
        &[0xc2, 0x80],
        &[0xc1, 0xbf],
        &[0xe0, 0xa0, 0x80],
        &[0xe0, 0x9f, 0xbf],
        &[0xed, 0x9f, 0xbf],
        &[0xed, 0xa0, 0x80],
        &[0xef, 0xbf, 0xbf],
        &[0xf0, 0x90, 0x80, 0x80],
        &[0xf0, 0x8f, 0xbf, 0xbf],
        &[0xf4, 0x8f, 0xbf, 0xbf],
        &[0xf4, 0x90, 0x80, 0x80],
    ];
    for bytes in samples {
        assert_eq!(is_utf8(bytes), std::str::from_utf8(bytes).is_ok(), "{:?}", bytes);
        assert_eq!(
            first_char(bytes),
            std::str::from_utf8(bytes).ok().and_then(|s| s.chars().next()),
            "{:?}",
            bytes
        );
    }
}

#[test]
fn validation_of_all_pairs_of_bytes() {
    for a in 0u8..=255 {
        for b in 0u8..=255 {
            let bytes = [a, b];
            assert_eq!(is_utf8(&bytes), std::str::from_utf8(&bytes).is_ok());
        }
    }
}

#[test]
fn scalar_in_the_middle_of_text() {
    let text = "a€b".as_bytes();
    assert_eq!(scalar_at(text, 0), Some((0x61, 1)));
    assert_eq!(scalar_at(text, 1), Some((0x20ac, 3)));
    assert_eq!(scalar_at(text, 2), None);
    assert_eq!(scalar_at(text, 4), Some((0x62, 1)));
    assert_eq!(scalar_at(text, 5), None);
    assert_eq!(scalar_at("😀".as_bytes(), 0), Some((0x1f600, 4)));
    assert_eq!(scalar_at("é".as_bytes(), 0), Some((0xe9, 2)));
}

#[test]
fn first_character_of_text() {
    assert_eq!(first_char("€uro".as_bytes()), Some('€'));
    assert_eq!(first_char(b""), None);
    assert_eq!(first_char(&[b'a', 0xff]), None);
}
