use puccinia::input::{parse_input, read_key, MouseButton, MouseKind, SessionEvent};

fn events(bytes: &[u8]) -> Vec<SessionEvent> {
    let (events, taken) = parse_input(bytes);
    assert_eq!(bytes.len(), taken);
    events
}

fn press(button: MouseButton, x: u16, y: u16) -> SessionEvent {
    SessionEvent::Mouse { kind: MouseKind::Press(button), x, y }
}

#[test]
fn every_ascii_byte_is_a_key() {
    assert_eq!(
        vec![SessionEvent::Char('q'), SessionEvent::Char(' '), SessionEvent::Char('\r'), SessionEvent::Char('\u{7f}')],
        events(b"q \r\x7f")
    );
    assert_eq!(Some(SessionEvent::Char('h')), read_key(b'h'));
    assert_eq!(Some(SessionEvent::Char('\0')), read_key(0));
    assert_eq!(Some(SessionEvent::Char('\u{7f}')), read_key(127));
}

#[test]
fn bytes_beyond_ascii_are_no_keys() {
    assert_eq!(None, read_key(128));
    assert_eq!(None, read_key(255));
    assert_eq!(vec![SessionEvent::Char('a'), SessionEvent::Char('b')], events(&[b'a', 0xc3, 0xa9, b'b']));
}

#[test]
fn no_bytes_are_no_events() {
    assert_eq!(Vec::<SessionEvent>::new(), events(b""));
}

#[test]
fn a_press_report_names_the_cell_from_zero() {
    assert_eq!(vec![press(MouseButton::Left, 3, 5)], events(b"\x1b[<0;4;6M"));
    assert_eq!(vec![press(MouseButton::Middle, 0, 0)], events(b"\x1b[<1;1;1M"));
    assert_eq!(vec![press(MouseButton::Right, 79, 23)], events(b"\x1b[<2;80;24M"));
    assert_eq!(vec![press(MouseButton::WheelUp, 9, 0)], events(b"\x1b[<64;10;1M"));
    assert_eq!(vec![press(MouseButton::WheelDown, 9, 0)], events(b"\x1b[<65;10;1M"));
}

#[test]
fn a_report_in_small_m_is_a_release() {
    assert_eq!(vec![SessionEvent::Mouse { kind: MouseKind::Release, x: 3, y: 5 }], events(b"\x1b[<0;4;6m"));
    assert_eq!(vec![SessionEvent::Mouse { kind: MouseKind::Release, x: 3, y: 5 }], events(b"\x1b[<3;4;6M"));
    assert_eq!(vec![SessionEvent::Mouse { kind: MouseKind::Release, x: 3, y: 5 }], events(b"\x1b[<3;4;6m"));
}

#[test]
fn a_report_of_motion_is_a_hold() {
    assert_eq!(vec![SessionEvent::Mouse { kind: MouseKind::Hold, x: 11, y: 1 }], events(b"\x1b[<32;12;2M"));
}

#[test]
fn a_report_with_an_unknown_button_or_no_cell_is_swallowed() {
    assert_eq!(Vec::<SessionEvent>::new(), events(b"\x1b[<7;4;6M"));
    assert_eq!(Vec::<SessionEvent>::new(), events(b"\x1b[<0;0;6M"));
    assert_eq!(Vec::<SessionEvent>::new(), events(b"\x1b[<0;4;0M"));
    assert_eq!(vec![SessionEvent::Char('x')], events(b"\x1b[<99;1;1mx"));
}

#[test]
fn numbers_may_have_leading_zeros_and_reach_the_largest() {
    assert_eq!(vec![press(MouseButton::Left, 3, 5)], events(b"\x1b[<000;0004;06M"));
    assert_eq!(vec![press(MouseButton::Left, 65534, 65534)], events(b"\x1b[<0;65535;65535M"));
}

#[test]
fn what_is_no_report_is_keys() {
    let keys = |text: &[u8]| -> Vec<SessionEvent> { text.iter().map(|b| SessionEvent::Char(*b as char)).collect() };
    for text in [
        &b"\x1bx"[..],
        &b"\x1b[A"[..],
        &b"\x1b[<x"[..],
        &b"\x1b[<0;4;6X"[..],
        &b"\x1b[<;4;6M"[..],
        &b"\x1b[<0;;6M"[..],
        &b"\x1b[<0;4M"[..],
        &b"\x1b[<0;65536;6M"[..],
        &b"\x1b[<0;4;99999999999999999999M"[..],
        &b"\x1b[<0;4;65536"[..],
        &b"\x1b[<70000"[..],
    ] {
        assert_eq!(keys(text), events(text));
    }
}

#[test]
fn a_report_cut_short_is_held_back_whole() {
    for text in [
        &b"\x1b"[..],
        &b"\x1b["[..],
        &b"\x1b[<"[..],
        &b"\x1b[<0"[..],
        &b"\x1b[<0;"[..],
        &b"\x1b[<0;4"[..],
        &b"\x1b[<0;4;"[..],
        &b"\x1b[<0;4;6"[..],
        &b"\x1b[<000;65535;0"[..],
    ] {
        assert_eq!((vec![], 0), parse_input(text));
        let mut after_keys: Vec<u8> = b"ab".to_vec();
        after_keys.extend_from_slice(text);
        assert_eq!((vec![SessionEvent::Char('a'), SessionEvent::Char('b')], 2), parse_input(&after_keys));
    }
}

#[test]
fn an_escape_that_starts_no_report_is_a_key_at_once() {
    assert_eq!((vec![SessionEvent::Char('\u{1b}'), SessionEvent::Char('q')], 2), parse_input(b"\x1bq"));
    assert_eq!(
        (vec![SessionEvent::Char('\u{1b}'), SessionEvent::Char('[')], 2),
        parse_input(b"\x1b[\x1b[<")
    );
}

#[test]
fn keys_and_reports_come_in_their_order() {
    assert_eq!(
        (
            vec![
                SessionEvent::Char('a'),
                press(MouseButton::Left, 0, 1),
                SessionEvent::Char('b'),
                SessionEvent::Mouse { kind: MouseKind::Release, x: 0, y: 1 },
            ],
            20
        ),
        parse_input(b"a\x1b[<0;1;2Mb\x1b[<0;1;2m\x1b")
    );
}
