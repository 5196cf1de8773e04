use std::io::Error;
use term_events::csi::{cursor_key, rxvt_event, special_key, x10_event, xterm_event};
use term_events::{parse_event, Event, Key, MouseButton, MouseEvent};

fn decode(bytes: &[u8]) -> (Event, Vec<u8>, Vec<u8>) {
    let mut iter = bytes[1..].iter().map(|b| Ok::<u8, Error>(*b));
    let (event, seen) = parse_event(bytes[0], &mut iter).unwrap();
    let rest: Vec<u8> = iter.map(|r| r.unwrap()).collect();
    (event, seen, rest)
}

fn mouse(bytes: &[u8]) -> MouseEvent {
    match decode(bytes) {
        (Event::Mouse(m), seen, rest) => {
            assert_eq!(seen, bytes.to_vec());
            assert!(rest.is_empty());
            m
        }
        (other, _, _) => panic!("not a mouse event: {:?}", other),
    }
}

fn unsupported(bytes: &[u8]) {
    let (event, seen, rest) = decode(bytes);
    assert_eq!(event, Event::Unsupported(bytes.to_vec()));
    assert_eq!(seen, bytes.to_vec());
    assert!(rest.is_empty());
}

#[test]
fn x10_left_press() {
    assert_eq!(
        mouse(&[0x1b, b'[', b'M', 32, 33, 34]),
        MouseEvent::Press(MouseButton::Left, 1, 2)
    );
    assert_eq!(
        mouse(&[0x1b, b'[', b'M', 32, 32 + 80, 32 + 24]),
        MouseEvent::Press(MouseButton::Left, 80, 24)
    );
}

#[test]
fn x10_left_press_for_every_button_byte_with_clear_bits() {
    for b1 in 0u8..=255 {
        let bits = b1.wrapping_sub(32);
        if bits & 0b11 != 0 || bits & 0x40 != 0 {
            continue;
        }
        for (b2, b3) in [(0u8, 255u8), (31, 32), (33, 100), (255, 0)] {
            assert_eq!(
                mouse(&[0x1b, b'[', b'M', b1, b2, b3]),
                MouseEvent::Press(
                    MouseButton::Left,
                    b2.saturating_sub(32) as u16,
                    b3.saturating_sub(32) as u16
                )
            );
        }
    }
}

#[test]
fn x10_buttons() {
    assert_eq!(x10_event(32, 33, 33), MouseEvent::Press(MouseButton::Left, 1, 1));
    assert_eq!(x10_event(33, 33, 33), MouseEvent::Press(MouseButton::Middle, 1, 1));
    assert_eq!(x10_event(34, 33, 33), MouseEvent::Press(MouseButton::Right, 1, 1));
    assert_eq!(x10_event(35, 33, 33), MouseEvent::Release(1, 1));
    assert_eq!(x10_event(32 + 64, 33, 33), MouseEvent::Press(MouseButton::WheelUp, 1, 1));
    assert_eq!(x10_event(33 + 64, 33, 33), MouseEvent::Press(MouseButton::WheelDown, 1, 1));
    assert_eq!(x10_event(34 + 64, 33, 33), MouseEvent::Press(MouseButton::Right, 1, 1));
    assert_eq!(x10_event(35 + 64, 33, 33), MouseEvent::Release(1, 1));
}

#[test]
fn x10_button_byte_below_the_offset_wraps() {
    // 0 - 32 is 0xe0 in eight bits: low bits clear, bit 0x40 set.
    assert_eq!(x10_event(0, 40, 50), MouseEvent::Press(MouseButton::WheelUp, 8, 18));
    // 1 - 32 is 0xe1.
    assert_eq!(x10_event(1, 40, 50), MouseEvent::Press(MouseButton::WheelDown, 8, 18));
    // 31 - 32 is 0xff.
    assert_eq!(x10_event(31, 40, 50), MouseEvent::Release(8, 18));
    // 0x80 - 32 is 0x60.
    assert_eq!(x10_event(0x80, 40, 50), MouseEvent::Press(MouseButton::WheelUp, 8, 18));
    // 0xff - 32 is 0xdf.
    assert_eq!(x10_event(0xff, 40, 50), MouseEvent::Release(8, 18));
}

#[test]
fn x10_coordinates_are_clamped_at_zero() {
    assert_eq!(x10_event(32, 0, 31), MouseEvent::Press(MouseButton::Left, 0, 0));
    assert_eq!(x10_event(32, 32, 33), MouseEvent::Press(MouseButton::Left, 0, 1));
    assert_eq!(x10_event(32, 255, 254), MouseEvent::Press(MouseButton::Left, 223, 222));
}

#[test]
fn x10_reads_three_bytes_and_no_more() {
    let (event, seen, rest) = decode(&[0x1b, b'[', b'M', 35, 42, 52, b'M', b'x']);
    assert_eq!(event, Event::Mouse(MouseEvent::Release(10, 20)));
    assert_eq!(seen, vec![0x1b, b'[', b'M', 35, 42, 52]);
    assert_eq!(rest, vec![b'M', b'x']);
}

#[test]
fn x10_cut_short_is_unsupported() {
    unsupported(&[0x1b, b'[', b'M']);
    unsupported(&[0x1b, b'[', b'M', 32]);
    unsupported(&[0x1b, b'[', b'M', 32, 33]);
}

#[test]
fn xterm_press_and_release() {
    assert_eq!(mouse(b"\x1b[<0;5;10M"), MouseEvent::Press(MouseButton::Left, 5, 10));
    assert_eq!(mouse(b"\x1b[<0;5;10m"), MouseEvent::Release(5, 10));
}

#[test]
fn xterm_buttons() {
    assert_eq!(mouse(b"\x1b[<1;5;10M"), MouseEvent::Press(MouseButton::Middle, 5, 10));
    assert_eq!(mouse(b"\x1b[<2;5;10M"), MouseEvent::Press(MouseButton::Right, 5, 10));
    assert_eq!(mouse(b"\x1b[<64;5;10M"), MouseEvent::Press(MouseButton::WheelUp, 5, 10));
    assert_eq!(mouse(b"\x1b[<65;5;10M"), MouseEvent::Press(MouseButton::WheelDown, 5, 10));
    assert_eq!(mouse(b"\x1b[<1;5;10m"), MouseEvent::Release(5, 10));
    assert_eq!(mouse(b"\x1b[<65;5;10m"), MouseEvent::Release(5, 10));
}

#[test]
fn xterm_hold_and_release_whatever_the_final_byte() {
    assert_eq!(mouse(b"\x1b[<32;7;9M"), MouseEvent::Hold(7, 9));
    assert_eq!(mouse(b"\x1b[<32;7;9m"), MouseEvent::Hold(7, 9));
    assert_eq!(mouse(b"\x1b[<3;7;9M"), MouseEvent::Release(7, 9));
    assert_eq!(mouse(b"\x1b[<3;7;9m"), MouseEvent::Release(7, 9));
}

#[test]
fn xterm_event_table() {
    assert_eq!(xterm_event(0, 1, 2, b'M'), Some(MouseEvent::Press(MouseButton::Left, 1, 2)));
    assert_eq!(xterm_event(0, 1, 2, b'm'), Some(MouseEvent::Release(1, 2)));
    assert_eq!(xterm_event(0, 1, 2, b'~'), None);
    assert_eq!(xterm_event(32, 1, 2, b'~'), Some(MouseEvent::Hold(1, 2)));
    assert_eq!(xterm_event(3, 1, 2, b'~'), Some(MouseEvent::Release(1, 2)));
    assert_eq!(xterm_event(4, 1, 2, b'M'), None);
    assert_eq!(xterm_event(63, 1, 2, b'M'), None);
    assert_eq!(xterm_event(66, 1, 2, b'M'), None);
    assert_eq!(xterm_event(33, 1, 2, b'M'), None);
}

#[test]
fn xterm_large_coordinates() {
    assert_eq!(
        mouse(b"\x1b[<0;65535;1000M"),
        MouseEvent::Press(MouseButton::Left, 65535, 1000)
    );
    assert_eq!(mouse(b"\x1b[<0;0;0M"), MouseEvent::Press(MouseButton::Left, 0, 0));
}

#[test]
fn xterm_numbers_may_carry_a_sign_and_zeros() {
    assert_eq!(mouse(b"\x1b[<+0;+5;010M"), MouseEvent::Press(MouseButton::Left, 5, 10));
}

#[test]
fn xterm_report_with_a_fourth_parameter_is_unsupported() {
    let (event, seen, rest) = decode(b"\x1b[<0;5;10;7M");
    assert_eq!(seen.len(), 12);
    assert_eq!(event, Event::Unsupported(b"\x1b[<0;5;10;7M".to_vec()));
    assert_eq!(seen, b"\x1b[<0;5;10;7M".to_vec());
    assert!(rest.is_empty());
    unsupported(b"\x1b[<0;5;10;7m");
    unsupported(b"\x1b[<0;5;10;M");
    unsupported(b"\x1b[<0;5;10;junk;M");
    unsupported(b"\x1b[<0;5;10;7;8M");
    unsupported(b"\x1b[<32;5;10;7M");
}

#[test]
fn xterm_malformed_is_unsupported() {
    unsupported(b"\x1b[<M");
    unsupported(b"\x1b[<0M");
    unsupported(b"\x1b[<0;5M");
    unsupported(b"\x1b[<0;;10M");
    unsupported(b"\x1b[<a;5;10M");
    unsupported(b"\x1b[<0;5;10xM");
    unsupported(b"\x1b[<0;-5;10M");
    unsupported(b"\x1b[<0; 5;10M");
    unsupported(b"\x1b[<0;5;65536M");
    unsupported(b"\x1b[<0;5;99999999999999999999M");
    unsupported(b"\x1b[<4;5;10M");
    unsupported(b"\x1b[<0;+;10M");
    unsupported(b"\x1b[<0;5;10;\xffM");
}

#[test]
fn xterm_unterminated_is_unsupported() {
    unsupported(b"\x1b[<");
    unsupported(b"\x1b[<0");
    unsupported(b"\x1b[<0;5;10");
    unsupported(b"\x1b[<0;5;10;~~~ABC");
}

#[test]
fn rxvt_reports() {
    assert_eq!(mouse(b"\x1b[32;5;10M"), MouseEvent::Press(MouseButton::Left, 5, 10));
    assert_eq!(mouse(b"\x1b[33;5;10M"), MouseEvent::Press(MouseButton::Middle, 5, 10));
    assert_eq!(mouse(b"\x1b[34;5;10M"), MouseEvent::Press(MouseButton::Right, 5, 10));
    assert_eq!(mouse(b"\x1b[35;5;10M"), MouseEvent::Release(5, 10));
    assert_eq!(mouse(b"\x1b[64;5;10M"), MouseEvent::Hold(5, 10));
    assert_eq!(mouse(b"\x1b[96;5;10M"), MouseEvent::Press(MouseButton::WheelUp, 5, 10));
    assert_eq!(mouse(b"\x1b[97;5;10M"), MouseEvent::Press(MouseButton::WheelUp, 5, 10));
}

#[test]
fn rxvt_report_with_a_fourth_parameter_is_unsupported() {
    unsupported(b"\x1b[32;5;10;M");
    unsupported(b"\x1b[32;5;10;7M");
    unsupported(b"\x1b[35;5;10;7;8M");
}

#[test]
fn rxvt_event_table() {
    assert_eq!(rxvt_event(32, 3, 4), Some(MouseEvent::Press(MouseButton::Left, 3, 4)));
    assert_eq!(rxvt_event(35, 3, 4), Some(MouseEvent::Release(3, 4)));
    assert_eq!(rxvt_event(64, 3, 4), Some(MouseEvent::Hold(3, 4)));
    assert_eq!(rxvt_event(0, 3, 4), None);
    assert_eq!(rxvt_event(31, 3, 4), None);
    assert_eq!(rxvt_event(36, 3, 4), None);
    assert_eq!(rxvt_event(65, 3, 4), None);
    assert_eq!(rxvt_event(98, 3, 4), None);
}

#[test]
fn rxvt_malformed_is_unsupported() {
    unsupported(b"\x1b[0;5;10M");
    unsupported(b"\x1b[32M");
    unsupported(b"\x1b[32;5M");
    unsupported(b"\x1b[32;5;M");
    unsupported(b"\x1b[32;5;1 0M");
    unsupported(b"\x1b[98;5;10M");
}

#[test]
fn numbered_sequence_with_unknown_final_byte_is_unsupported() {
    unsupported(b"\x1b[3m");
    unsupported(b"\x1b[3;5R");
    unsupported(b"\x1b[1@");
    unsupported(b"\x1b[1A");
}

#[test]
fn key_code_with_a_second_parameter_is_unsupported() {
    unsupported(b"\x1b[3;2~");
    unsupported(b"\x1b[3;~");
}

#[test]
fn unknown_key_code_is_unsupported() {
    unsupported(b"\x1b[0~");
    unsupported(b"\x1b[9~");
    unsupported(b"\x1b[10~");
    unsupported(b"\x1b[16~");
    unsupported(b"\x1b[22~");
    unsupported(b"\x1b[25~");
    unsupported(b"\x1b[256~");
    unsupported(b"\x1b[65539~");
}

#[test]
fn cursor_key_table() {
    assert_eq!(cursor_key(b'D'), Some(Key::Left));
    assert_eq!(cursor_key(b'C'), Some(Key::Right));
    assert_eq!(cursor_key(b'A'), Some(Key::Up));
    assert_eq!(cursor_key(b'B'), Some(Key::Down));
    assert_eq!(cursor_key(b'H'), Some(Key::Home));
    assert_eq!(cursor_key(b'F'), Some(Key::End));
    assert_eq!(cursor_key(b'E'), None);
    assert_eq!(cursor_key(b'G'), None);
    assert_eq!(cursor_key(b'd'), None);
    assert_eq!(cursor_key(b'M'), None);
}

#[test]
fn special_key_table() {
    assert_eq!(special_key(1), Some(Key::Home));
    assert_eq!(special_key(3), Some(Key::Delete));
    assert_eq!(special_key(11), Some(Key::F(1)));
    assert_eq!(special_key(15), Some(Key::F(5)));
    assert_eq!(special_key(17), Some(Key::F(6)));
    assert_eq!(special_key(21), Some(Key::F(10)));
    assert_eq!(special_key(23), Some(Key::F(11)));
    assert_eq!(special_key(24), Some(Key::F(12)));
    assert_eq!(special_key(0), None);
    assert_eq!(special_key(16), None);
    assert_eq!(special_key(22), None);
    assert_eq!(special_key(25), None);
    assert_eq!(special_key(259), None);
}

#[test]
fn numbered_sequence_keeps_bytes_outside_the_final_range_in_its_text() {
    // Bytes above 126 and below 64 do not end the text; the text is then no
    // list of numbers.
    unsupported(&[0x1b, b'[', b'3', 0x7f, 0x80, b' ', b'~']);
    let (event, seen, rest) = decode(&[0x1b, b'[', b'3', b'!', b'@', b'~']);
    assert_eq!(event, Event::Unsupported(vec![0x1b, b'[', b'3', b'!', b'@']));
    assert_eq!(seen, vec![0x1b, b'[', b'3', b'!', b'@']);
    assert_eq!(rest, vec![b'~']);
}
