use puccinia::codec::{
    decode, encode, encode_all, Direction, OutboundCommand, ProtocolEvent, DO, DONT, IAC, OPTION_ECHO,
    OPTION_LINE_MODE, OPTION_WINDOW_SIZE, SB, SE, WILL, WONT,
};
use puccinia::negotiation::{minimal_batch, negotiation_batch, negotiation_bytes};
use puccinia::resume::Decoder;

fn handshake_bytes() -> Vec<u8> {
    let mut bytes: Vec<u8> = vec![255, 253, 31, 255, 251, 1, 255, 253, 34];
    bytes.extend_from_slice(b"\x1b[?1000h\x1b[?1002h\x1b[?1015h\x1b[?1006h");
    bytes
}

fn feed_all(chunks: &[&[u8]]) -> (Vec<ProtocolEvent>, usize) {
    let mut decoder = Decoder::new();
    let mut events: Vec<ProtocolEvent> = Vec::new();
    for chunk in chunks {
        events.extend(decoder.feed(chunk));
    }
    (events, decoder.pending_len())
}

#[test]
fn the_constants_are_those_of_telnet() {
    assert_eq!((255, 254, 253, 252, 251, 250, 240), (IAC, DONT, DO, WONT, WILL, SB, SE));
    assert_eq!((1, 31, 34), (OPTION_ECHO, OPTION_WINDOW_SIZE, OPTION_LINE_MODE));
}

#[test]
fn direction_bytes_go_both_ways() {
    for direction in [Direction::Do, Direction::Dont, Direction::Will, Direction::Wont] {
        assert_eq!(Some(direction), Direction::from_byte(direction.to_byte()));
    }
    assert_eq!(253, Direction::Do.to_byte());
    assert_eq!(254, Direction::Dont.to_byte());
    assert_eq!(251, Direction::Will.to_byte());
    assert_eq!(252, Direction::Wont.to_byte());
    assert_eq!(None, Direction::from_byte(250));
    assert_eq!(None, Direction::from_byte(0));
}

#[test]
fn an_empty_buffer_decodes_to_nothing() {
    assert_eq!((vec![], 0), decode(&[]));
}

#[test]
fn a_negotiation_is_three_bytes() {
    assert_eq!(
        (vec![ProtocolEvent::Negotiate { direction: Direction::Will, option: 31 }], 3),
        decode(&[255, 251, 31])
    );
    assert_eq!(
        (vec![ProtocolEvent::Negotiate { direction: Direction::Dont, option: 200 }], 3),
        decode(&[255, 254, 200])
    );
}

#[test]
fn a_negotiation_may_carry_the_byte_of_a_command() {
    assert_eq!(
        (vec![ProtocolEvent::Negotiate { direction: Direction::Do, option: 255 }], 3),
        decode(&[255, 253, 255])
    );
}

#[test]
fn data_is_one_run_up_to_the_next_command() {
    assert_eq!(
        (
            vec![
                ProtocolEvent::RawInput { bytes: b"abc".to_vec() },
                ProtocolEvent::Negotiate { direction: Direction::Wont, option: 1 },
                ProtocolEvent::RawInput { bytes: b"d".to_vec() },
            ],
            7
        ),
        decode(&[b'a', b'b', b'c', 255, 252, 1, b'd'])
    );
}

#[test]
fn a_doubled_command_byte_is_one_data_byte() {
    assert_eq!(
        (
            vec![
                ProtocolEvent::RawInput { bytes: vec![1] },
                ProtocolEvent::RawInput { bytes: vec![255] },
                ProtocolEvent::RawInput { bytes: vec![2] },
            ],
            4
        ),
        decode(&[1, 255, 255, 2])
    );
}

#[test]
fn a_command_without_an_event_is_dropped() {
    assert_eq!(
        (vec![ProtocolEvent::RawInput { bytes: vec![b'x'] }, ProtocolEvent::RawInput { bytes: vec![b'y'] }], 4),
        decode(&[b'x', 255, 241, b'y'])
    );
    assert_eq!((vec![], 2), decode(&[255, 249]));
    assert_eq!((vec![], 2), decode(&[255, 0]));
    assert_eq!((vec![], 2), decode(&[255, 240]));
}

#[test]
fn a_window_size_report_is_a_resize() {
    assert_eq!(
        (vec![ProtocolEvent::Resize { width: 80, height: 24 }], 9),
        decode(&[255, 250, 31, 0, 80, 0, 24, 255, 240])
    );
    assert_eq!(
        (vec![ProtocolEvent::Resize { width: 0x1234, height: 0xfe01 }], 9),
        decode(&[255, 250, 31, 0x12, 0x34, 0xfe, 0x01, 255, 240])
    );
}

#[test]
fn a_window_255_wide_comes_with_a_doubled_byte() {
    assert_eq!(
        (vec![ProtocolEvent::Resize { width: 255, height: 24 }], 10),
        decode(&[255, 250, 31, 0, 255, 255, 0, 24, 255, 240])
    );
    assert_eq!(
        (vec![ProtocolEvent::Resize { width: 65535, height: 65535 }], 13),
        decode(&[255, 250, 31, 255, 255, 255, 255, 255, 255, 255, 255, 255, 240])
    );
}

#[test]
fn a_window_size_report_of_another_length_stays_a_subnegotiation() {
    assert_eq!(
        (vec![ProtocolEvent::Subnegotiation { option: 31, payload: vec![0, 80, 0] }], 8),
        decode(&[255, 250, 31, 0, 80, 0, 255, 240])
    );
    assert_eq!(
        (vec![ProtocolEvent::Subnegotiation { option: 31, payload: vec![0, 80, 0, 24, 9] }], 10),
        decode(&[255, 250, 31, 0, 80, 0, 24, 9, 255, 240])
    );
    assert_eq!(
        (vec![ProtocolEvent::Subnegotiation { option: 24, payload: vec![0, 80, 0, 24] }], 9),
        decode(&[255, 250, 24, 0, 80, 0, 24, 255, 240])
    );
}

#[test]
fn only_the_exact_marker_closes_a_subnegotiation() {
    assert_eq!(
        (vec![ProtocolEvent::Subnegotiation { option: 24, payload: vec![240, 1, 240] }], 8),
        decode(&[255, 250, 24, 240, 1, 240, 255, 240])
    );
    assert_eq!(
        (vec![ProtocolEvent::Subnegotiation { option: 24, payload: vec![255, 240] }], 8),
        decode(&[255, 250, 24, 255, 255, 240, 255, 240])
    );
    assert_eq!(
        (vec![ProtocolEvent::Subnegotiation { option: 24, payload: vec![255, 7, 8] }], 8),
        decode(&[255, 250, 24, 255, 7, 8, 255, 240])
    );
    assert_eq!(
        (vec![ProtocolEvent::Subnegotiation { option: 240, payload: vec![] }], 5),
        decode(&[255, 250, 240, 255, 240])
    );
}

#[test]
fn a_sequence_cut_short_is_left_for_later() {
    assert_eq!((vec![], 0), decode(&[255]));
    assert_eq!((vec![], 0), decode(&[255, 253]));
    assert_eq!((vec![], 0), decode(&[255, 250]));
    assert_eq!((vec![], 0), decode(&[255, 250, 31]));
    assert_eq!((vec![], 0), decode(&[255, 250, 31, 0, 80, 0, 24]));
    assert_eq!((vec![], 0), decode(&[255, 250, 31, 0, 80, 0, 24, 255]));
    assert_eq!((vec![], 0), decode(&[255, 250, 31, 0, 80, 0, 24, 255, 255]));
    assert_eq!(
        (vec![ProtocolEvent::RawInput { bytes: b"ok".to_vec() }], 2),
        decode(&[b'o', b'k', 255, 250, 31, 0])
    );
}

#[test]
fn every_truncation_of_a_sequence_is_silent_and_the_whole_is_one_event() {
    let sequences: Vec<(Vec<u8>, ProtocolEvent)> = vec![
        (vec![255, 253, 31], ProtocolEvent::Negotiate { direction: Direction::Do, option: 31 }),
        (vec![255, 250, 31, 0, 80, 0, 24, 255, 240], ProtocolEvent::Resize { width: 80, height: 24 }),
        (
            vec![255, 250, 5, 255, 255, 240, 255, 9, 255, 240],
            ProtocolEvent::Subnegotiation { option: 5, payload: vec![255, 240, 255, 9] },
        ),
    ];
    for (bytes, event) in sequences {
        for cut in 0..bytes.len() {
            assert_eq!((vec![], 0), decode(&bytes[..cut]));
        }
        assert_eq!((vec![event], bytes.len()), decode(&bytes));
    }
}

#[test]
fn a_sequence_that_comes_byte_by_byte_gives_one_event_at_its_last_byte() {
    let bytes: [u8; 9] = [255, 250, 31, 0, 80, 0, 24, 255, 240];
    let mut decoder = Decoder::new();
    for (at, byte) in bytes.iter().enumerate() {
        let events = decoder.feed(&[*byte]);
        if at + 1 < bytes.len() {
            assert_eq!(Vec::<ProtocolEvent>::new(), events);
            assert_eq!(at + 1, decoder.pending_len());
        } else {
            assert_eq!(vec![ProtocolEvent::Resize { width: 80, height: 24 }], events);
            assert_eq!(0, decoder.pending_len());
        }
    }
}

#[test]
fn every_split_of_a_negotiation_stream_decodes_as_the_whole() {
    let stream: Vec<u8> = vec![
        255, 251, 31, 255, 250, 31, 0, 255, 255, 0, 24, 255, 240, 255, 253, 1, 255, 241, 255, 250, 24, 1, 240, 255,
        255, 255, 240, 255, 252, 34,
    ];
    let whole = decode(&stream);
    assert_eq!(
        vec![
            ProtocolEvent::Negotiate { direction: Direction::Will, option: 31 },
            ProtocolEvent::Resize { width: 255, height: 24 },
            ProtocolEvent::Negotiate { direction: Direction::Do, option: 1 },
            ProtocolEvent::Subnegotiation { option: 24, payload: vec![1, 240, 255] },
            ProtocolEvent::Negotiate { direction: Direction::Wont, option: 34 },
        ],
        whole.0
    );
    assert_eq!(stream.len(), whole.1);
    for first in 0..=stream.len() {
        for second in first..=stream.len() {
            let (events, pending) = feed_all(&[&stream[..first], &stream[first..second], &stream[second..]]);
            assert_eq!(whole.0, events);
            assert_eq!(0, pending);
        }
    }
}

#[test]
fn the_decoder_holds_back_the_tail_and_nothing_else() {
    let mut decoder = Decoder::new();
    assert_eq!(0, decoder.pending_len());
    assert_eq!(
        vec![ProtocolEvent::RawInput { bytes: b"hi".to_vec() }],
        decoder.feed(&[b'h', b'i', 255, 250, 31, 0, 80])
    );
    assert_eq!(5, decoder.pending_len());
    assert_eq!(Vec::<ProtocolEvent>::new(), decoder.feed(&[]));
    assert_eq!(5, decoder.pending_len());
    assert_eq!(
        vec![ProtocolEvent::Resize { width: 80, height: 24 }, ProtocolEvent::RawInput { bytes: b"q".to_vec() }],
        decoder.feed(&[0, 24, 255, 240, b'q'])
    );
    assert_eq!(0, decoder.pending_len());
}

#[test]
fn data_cut_in_two_reads_is_two_runs_of_the_same_bytes() {
    let (events, pending) = feed_all(&[b"ab", b"cd"]);
    assert_eq!(
        vec![ProtocolEvent::RawInput { bytes: b"ab".to_vec() }, ProtocolEvent::RawInput { bytes: b"cd".to_vec() }],
        events
    );
    assert_eq!(0, pending);
    assert_eq!((vec![ProtocolEvent::RawInput { bytes: b"abcd".to_vec() }], 4), decode(b"abcd"));
}

#[test]
fn commands_encode_to_their_bytes() {
    assert_eq!(
        vec![255, 253, 31],
        encode(&OutboundCommand::Negotiate { direction: Direction::Do, option: OPTION_WINDOW_SIZE })
    );
    assert_eq!(vec![255, 252, 1], encode(&OutboundCommand::Negotiate { direction: Direction::Wont, option: 1 }));
    assert_eq!(
        vec![255, 250, 24, 1, 255, 255, 2, 255, 240],
        encode(&OutboundCommand::Subnegotiation { option: 24, payload: vec![1, 255, 2] })
    );
    assert_eq!(vec![255, 250, 24, 255, 240], encode(&OutboundCommand::Subnegotiation { option: 24, payload: vec![] }));
    assert_eq!(vec![b'a', 255, 255, b'b'], encode(&OutboundCommand::Raw { bytes: vec![b'a', 255, b'b'] }));
    assert_eq!(Vec::<u8>::new(), encode(&OutboundCommand::Raw { bytes: vec![] }));
    assert_eq!(b"\x1b[?1000h\x1b[?1002h\x1b[?1015h\x1b[?1006h".to_vec(), encode(&OutboundCommand::EnableMouse));
}

#[test]
fn what_is_encoded_decodes_to_itself() {
    let payload: Vec<u8> = vec![0, 255, 240, 255, 255, 7];
    let bytes = encode(&OutboundCommand::Subnegotiation { option: 77, payload: payload.clone() });
    assert_eq!((vec![ProtocolEvent::Subnegotiation { option: 77, payload }], bytes.len()), decode(&bytes));
    let bytes = encode(&OutboundCommand::Subnegotiation { option: 31, payload: vec![1, 255, 0, 240] });
    assert_eq!((vec![ProtocolEvent::Resize { width: 511, height: 240 }], bytes.len()), decode(&bytes));
    let bytes = encode(&OutboundCommand::Negotiate { direction: Direction::Will, option: 3 });
    assert_eq!((vec![ProtocolEvent::Negotiate { direction: Direction::Will, option: 3 }], 3), decode(&bytes));
}

#[test]
fn a_list_encodes_in_its_order() {
    let list = vec![
        OutboundCommand::Raw { bytes: b"x".to_vec() },
        OutboundCommand::Negotiate { direction: Direction::Dont, option: 9 },
        OutboundCommand::Raw { bytes: b"yz".to_vec() },
    ];
    assert_eq!(vec![b'x', 255, 254, 9, b'y', b'z'], encode_all(&list));
    assert_eq!(Vec::<u8>::new(), encode_all(&vec![]));
}

#[test]
fn the_handshake_is_fixed() {
    assert_eq!(
        vec![
            OutboundCommand::Negotiate { direction: Direction::Do, option: OPTION_WINDOW_SIZE },
            OutboundCommand::Negotiate { direction: Direction::Will, option: OPTION_ECHO },
            OutboundCommand::Negotiate { direction: Direction::Do, option: OPTION_LINE_MODE },
            OutboundCommand::EnableMouse,
        ],
        negotiation_batch()
    );
    assert_eq!(handshake_bytes(), negotiation_bytes());
    assert_eq!(encode_all(&negotiation_batch()), negotiation_bytes());
}

#[test]
fn the_minimal_handshake_is_one_request() {
    assert_eq!(
        vec![OutboundCommand::Negotiate { direction: Direction::Do, option: OPTION_WINDOW_SIZE }],
        minimal_batch()
    );
    assert_eq!(vec![255, 253, 31], encode_all(&minimal_batch()));
}
