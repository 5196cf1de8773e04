use term_events::{parse_event, parse_utf8_char, Event};

#[test]
fn test_parse_utf8() {
    let st = "abcéŷ¤£€ù%323";
    let ref mut bytes = st.bytes().map(|x| Ok(x));
    let chars = st.chars();
    for c in chars {
        let b = bytes.next().unwrap().unwrap();
        assert!(c == parse_utf8_char(b, bytes).unwrap());
    }
}

#[test]
fn test_parse_invalid_mouse() {
    let item = b'\x1B';
    let mut iter = "[x".bytes().map(|x| Ok(x));
    assert_eq!(
        parse_event(item, &mut iter).unwrap(),
        (
            Event::Unsupported(vec![b'\x1B', b'[', b'x']),
            vec![b'\x1B', b'[', b'x']
        )
    )
}

#[test]
fn entry_point_by_its_module() {
    let mut iter = "[A".bytes().map(|x| Ok(x));
    assert_eq!(
        term_events::event::parse_event(0x1b, &mut iter).unwrap(),
        (
            Event::Key(term_events::event::Key::Up),
            vec![0x1b, b'[', b'A']
        )
    )
}

#[test]
fn events_can_be_copied_and_compared() {
    let raw = Event::Unsupported(vec![0x1b, b'[', b'x']);
    assert_eq!(raw.clone(), raw);
    assert_ne!(raw, Event::Unsupported(vec![0x1b, b'[']));
    let key = Event::Key(term_events::Key::F(5));
    assert_eq!(key.clone(), key);
    let mouse = Event::Mouse(term_events::MouseEvent::Hold(3, 4));
    assert_eq!(mouse.clone(), mouse);
    assert_ne!(key, mouse);
}
