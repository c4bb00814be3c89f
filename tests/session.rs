use bite::codec::{decode, encode, Inbound, Message, Opcode};
use bite::session::{io_error, Command, Ending, ErrorKind, Event, Session};

#[test]
fn text_frame_ping_goes_upstream_as_bytes() {
    let mut s = Session::new();
    match s.step(Event::ClientFrame(Opcode::Text, b"ping".to_vec())) {
        Command::ToUpstream(b) => assert_eq!(b, vec![0x70, 0x69, 0x6e, 0x67]),
        _ => panic!("expected bytes for the upstream"),
    }
    assert!(s.open);
}

#[test]
fn upstream_burst_of_nine_thousand_bytes_reaches_client_in_order() {
    let burst: Vec<u8> = (0..9000u32).map(|i| (i % 256) as u8).collect();
    let mut s = Session::new();
    let mut received = Vec::new();
    for chunk in burst.chunks(4096) {
        match s.step(Event::UpstreamRead(chunk.to_vec())) {
            Command::ToClient(m) => received.extend_from_slice(&m.payload()),
            _ => panic!("expected a frame for the client"),
        }
    }
    assert_eq!(received, burst);
}

#[test]
fn close_frame_finishes_and_nothing_follows() {
    let mut s = Session::new();
    assert!(matches!(s.step(Event::ClientFrame(Opcode::Close, Vec::new())), Command::Finish(Ending::ClientClosed)));
    assert!(!s.open);
    assert!(matches!(s.step(Event::UpstreamRead(b"x".to_vec())), Command::Idle));
}

#[test]
fn upstream_end_of_stream_finishes_the_pair() {
    let mut s = Session::new();
    assert!(matches!(s.step(Event::UpstreamRead(Vec::new())), Command::Finish(Ending::UpstreamEnded)));
    assert!(!s.open);
}

#[test]
fn failures_finish_the_pair() {
    let mut s = Session::new();
    assert!(matches!(s.step(Event::ClientFailed), Command::Finish(Ending::ClientFailed)));
    let mut s = Session::new();
    assert!(matches!(s.step(Event::UpstreamFailed), Command::Finish(Ending::UpstreamFailed)));
}

#[test]
fn ping_and_pong_payloads_are_forwarded() {
    let mut s = Session::new();
    assert!(matches!(s.step(Event::ClientFrame(Opcode::Ping, b"p".to_vec())), Command::ToUpstream(ref b) if b == b"p"));
    assert!(matches!(s.step(Event::ClientFrame(Opcode::Pong, Vec::new())), Command::Idle));
}

#[test]
fn utf8_bytes_become_text_and_others_binary() {
    match encode("héllo".as_bytes().to_vec()) {
        Message::Text(t) => assert_eq!(t, "héllo"),
        _ => panic!("expected text"),
    }
    match encode(vec![0xff, 0x00, 0xfe]) {
        Message::Binary(b) => assert_eq!(b, vec![0xff, 0x00, 0xfe]),
        _ => panic!("expected binary"),
    }
    assert_eq!(encode(vec![0xc3]).opcode(), Opcode::Binary);
    assert_eq!(encode(b"ok".to_vec()).opcode(), Opcode::Text);
}

#[test]
fn close_message_payload_is_code_then_reason() {
    let m = Message::Close(1000, "bye".to_string());
    assert_eq!(m.opcode(), Opcode::Close);
    assert_eq!(m.payload(), vec![0x03, 0xe8, b'b', b'y', b'e']);
    assert_eq!(Message::Pong(vec![1, 2]).payload(), vec![1, 2]);
}

#[test]
fn decode_separates_close_from_data() {
    assert!(matches!(decode(Opcode::Close, b"x".to_vec()), Inbound::Close));
    assert!(matches!(decode(Opcode::Binary, b"x".to_vec()), Inbound::Data(ref d) if d == b"x"));
    assert!(matches!(decode(Opcode::Continuation, b"y".to_vec()), Inbound::Data(ref d) if d == b"y"));
}

#[test]
fn io_error_is_of_kind_other() {
    let e = io_error("End of file");
    assert_eq!(e.kind, ErrorKind::Other);
    assert_eq!(e.message, "End of file");
}

#[test]
fn endings_report_errors_except_a_client_close() {
    assert!(Ending::ClientClosed.error().is_none());
    let ended = Ending::UpstreamEnded.error().unwrap();
    assert_eq!(ended.message, "End of file");
    assert_eq!(ended.kind, ErrorKind::BrokenPipe);
    assert!(Ending::ClientFailed.error().is_some());
    assert!(Ending::UpstreamFailed.error().is_some());
}

#[test]
fn frames_then_close_reach_upstream_concatenated() {
    let frames: Vec<(Opcode, Vec<u8>)> = vec![
        (Opcode::Text, b"hello ".to_vec()),
        (Opcode::Binary, vec![0, 1, 2]),
        (Opcode::Text, b"world".to_vec()),
    ];
    let mut s = Session::new();
    let mut upstream = Vec::new();
    for (op, payload) in frames {
        if let Command::ToUpstream(b) = s.step(Event::ClientFrame(op, payload)) {
            upstream.extend_from_slice(&b);
        }
    }
    assert!(matches!(s.step(Event::ClientFrame(Opcode::Close, Vec::new())), Command::Finish(Ending::ClientClosed)));
    let mut expected = b"hello ".to_vec();
    expected.extend_from_slice(&[0, 1, 2]);
    expected.extend_from_slice(b"world");
    assert_eq!(upstream, expected);
}
