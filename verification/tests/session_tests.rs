use ws_server::ws::frame::apply_mask;
use ws_server::ws::{Error, Message, Websocket};

/// A frame as a client sends it: masked.
fn client_frame(fin: bool, opcode: u8, payload: &[u8]) -> Vec<u8> {
    let key = [0x12u8, 0x34, 0x56, 0x78];
    let mut bytes = vec![if fin { 0x80 | opcode } else { opcode }];
    if payload.len() < 126 {
        bytes.push(0x80 | payload.len() as u8);
    } else {
        bytes.push(0x80 | 126);
        bytes.extend_from_slice(&(payload.len() as u16).to_be_bytes());
    }
    bytes.extend_from_slice(&key);
    let mut masked = payload.to_vec();
    apply_mask(&mut masked, key);
    bytes.extend_from_slice(&masked);
    bytes
}

/// A frame that is not masked.
fn plain_frame(opcode: u8, payload: &[u8]) -> Vec<u8> {
    let mut bytes = vec![0x80 | opcode, payload.len() as u8];
    bytes.extend_from_slice(payload);
    bytes
}

#[test]
fn new_session_is_open() {
    let ws = Websocket::new();
    assert!(!ws.is_closed());
}

#[test]
fn close_frame_with_code() {
    let mut ws = Websocket::new();
    let mut out = Vec::new();
    let messages = ws.read(&plain_frame(0x8, &[0x03, 0xE8]), &mut out).unwrap();
    assert_eq!(messages, vec![Message::Close(Some(1000))]);
    assert!(ws.is_closed());
    assert!(out.is_empty());
}

#[test]
fn close_frame_without_code() {
    let mut ws = Websocket::new();
    let mut out = Vec::new();
    let messages = ws.read(&plain_frame(0x8, &[]), &mut out).unwrap();
    assert_eq!(messages, vec![Message::Close(None)]);
    assert!(ws.is_closed());
}

#[test]
fn close_frame_with_one_byte_has_no_code() {
    let mut ws = Websocket::new();
    let mut out = Vec::new();
    let messages = ws.read(&client_frame(true, 0x8, &[0x03]), &mut out).unwrap();
    assert_eq!(messages, vec![Message::Close(None)]);
}

#[test]
fn close_frame_with_reason_text() {
    let mut ws = Websocket::new();
    let mut out = Vec::new();
    let messages = ws.read(&client_frame(true, 0x8, b"\x03\xEAbye"), &mut out).unwrap();
    assert_eq!(messages, vec![Message::Close(Some(1002))]);
    let mut ws = Websocket::new();
    let messages = ws.read(&client_frame(true, 0x8, &[0xFF, 0xFF]), &mut out).unwrap();
    assert_eq!(messages, vec![Message::Close(Some(65535))]);
}

#[test]
fn ping_is_answered_by_pong() {
    let mut ws = Websocket::new();
    let mut out = Vec::new();
    let messages = ws.read(&plain_frame(0x9, b"hello"), &mut out).unwrap();
    assert!(messages.is_empty());
    assert_eq!(out, vec![0x8A, 0x05, b'h', b'e', b'l', b'l', b'o']);
    assert!(!ws.is_closed());
}

#[test]
fn masked_ping_is_answered_unmasked() {
    let mut ws = Websocket::new();
    let mut out = vec![0xEE];
    let messages = ws.read(&client_frame(true, 0x9, b"hello"), &mut out).unwrap();
    assert!(messages.is_empty());
    assert_eq!(out, vec![0xEE, 0x8A, 0x05, b'h', b'e', b'l', b'l', b'o']);
}

#[test]
fn pong_and_reserved_control_frames_are_passed_over() {
    for opcode in [0xAu8, 0xB, 0xC, 0xD, 0xE, 0xF] {
        let mut ws = Websocket::new();
        let mut out = Vec::new();
        let mut bytes = client_frame(true, opcode, b"x");
        bytes.extend_from_slice(&client_frame(true, 0x1, b"after"));
        let messages = ws.read(&bytes, &mut out).unwrap();
        assert_eq!(messages, vec![Message::Text("after".to_string())]);
        assert!(out.is_empty());
        assert!(!ws.is_closed());
    }
}

#[test]
fn text_and_binary_messages_are_delivered() {
    let mut ws = Websocket::new();
    let mut out = Vec::new();
    let mut bytes = client_frame(true, 0x1, b"Hello");
    bytes.extend_from_slice(&client_frame(true, 0x2, &[1, 2, 3]));
    let messages = ws.read(&bytes, &mut out).unwrap();
    assert_eq!(messages, vec![Message::Text("Hello".to_string()), Message::Binary(vec![1, 2, 3])]);
    assert!(out.is_empty());
}

#[test]
fn empty_read_gives_nothing() {
    let mut ws = Websocket::new();
    let mut out = Vec::new();
    assert_eq!(ws.read(&[], &mut out).unwrap(), vec![]);
    assert!(out.is_empty());
    assert!(!ws.is_closed());
}

#[test]
fn frames_over_several_reads() {
    let bytes = client_frame(true, 0x1, b"split over reads");
    for at in 0..bytes.len() {
        let mut ws = Websocket::new();
        let mut out = Vec::new();
        assert_eq!(ws.read(&bytes[..at], &mut out).unwrap(), vec![]);
        assert_eq!(
            ws.read(&bytes[at..], &mut out).unwrap(),
            vec![Message::Text("split over reads".to_string())]
        );
    }
}

#[test]
fn fragmented_message_with_ping_in_between() {
    let mut ws = Websocket::new();
    let mut out = Vec::new();
    let mut bytes = client_frame(false, 0x1, b"Hel");
    bytes.extend_from_slice(&client_frame(true, 0x9, b"p"));
    bytes.extend_from_slice(&client_frame(true, 0x0, b"lo"));
    let messages = ws.read(&bytes, &mut out).unwrap();
    assert_eq!(messages, vec![Message::Text("Hello".to_string())]);
    assert_eq!(out, vec![0x8A, 0x01, b'p']);
}

#[test]
fn fragmented_message_over_reads() {
    let mut ws = Websocket::new();
    let mut out = Vec::new();
    assert_eq!(ws.read(&client_frame(false, 0x2, &[1]), &mut out).unwrap(), vec![]);
    assert_eq!(ws.read(&client_frame(false, 0x0, &[2]), &mut out).unwrap(), vec![]);
    assert_eq!(
        ws.read(&client_frame(true, 0x0, &[3]), &mut out).unwrap(),
        vec![Message::Binary(vec![1, 2, 3])]
    );
}

#[test]
fn bytes_behind_a_close_frame_are_dropped() {
    let mut ws = Websocket::new();
    let mut out = Vec::new();
    let mut bytes = client_frame(true, 0x1, b"first");
    bytes.extend_from_slice(&client_frame(true, 0x8, &[0x03, 0xE9]));
    bytes.extend_from_slice(&client_frame(true, 0x9, b"late"));
    bytes.extend_from_slice(&client_frame(true, 0x1, b"later"));
    let messages = ws.read(&bytes, &mut out).unwrap();
    assert_eq!(messages, vec![Message::Text("first".to_string()), Message::Close(Some(1001))]);
    assert!(ws.is_closed());
    assert!(out.is_empty());
    // what was dropped does not come back
    assert_eq!(ws.read(&[], &mut out).unwrap(), vec![]);
}

#[test]
fn continuation_without_message_ends_the_read() {
    let mut ws = Websocket::new();
    let mut out = Vec::new();
    let mut bytes = client_frame(true, 0x9, b"a");
    bytes.extend_from_slice(&client_frame(true, 0x0, b"x"));
    bytes.extend_from_slice(&client_frame(true, 0x9, b"b"));
    assert_eq!(ws.read(&bytes, &mut out), Err(Error::UnexpectedOpcode));
    // the pong for the ping before the error was made, the one behind it was not
    assert_eq!(out, vec![0x8A, 0x01, b'a']);
    assert!(!ws.is_closed());
}

#[test]
fn text_inside_a_message_ends_the_read() {
    let mut ws = Websocket::new();
    let mut out = Vec::new();
    let mut bytes = client_frame(false, 0x1, b"ab");
    bytes.extend_from_slice(&client_frame(true, 0x1, b"cd"));
    assert_eq!(ws.read(&bytes, &mut out), Err(Error::UnexpectedOpcode));
}

#[test]
fn invalid_text_ends_the_read() {
    let mut ws = Websocket::new();
    let mut out = Vec::new();
    let mut bytes = client_frame(true, 0x1, b"fine");
    bytes.extend_from_slice(&client_frame(true, 0x1, &[0xC3, 0x28]));
    assert_eq!(ws.read(&bytes, &mut out), Err(Error::InvalidTextPayload));
}

#[test]
fn reserved_data_opcode_ends_the_read() {
    let mut ws = Websocket::new();
    let mut out = Vec::new();
    assert_eq!(ws.read(&client_frame(true, 0x3, b"x"), &mut out), Err(Error::UnexpectedOpcode));
}

#[test]
fn send_text_makes_a_text_frame() {
    let mut ws = Websocket::new();
    let mut out = Vec::new();
    ws.send_text("Hello", &mut out);
    assert_eq!(out, vec![0x81, 0x05, b'H', b'e', b'l', b'l', b'o']);
    assert!(!ws.is_closed());
    ws.send_text("ß", &mut out);
    assert_eq!(&out[7..], &[0x81, 0x02, 0xC3, 0x9F]);
}

#[test]
fn send_bytes_makes_a_binary_frame() {
    let mut ws = Websocket::new();
    let mut out = Vec::new();
    ws.send_bytes(&[0xDE, 0xAD], &mut out);
    assert_eq!(out, vec![0x82, 0x02, 0xDE, 0xAD]);
    assert!(!ws.is_closed());
}

#[test]
fn close_with_code() {
    let mut ws = Websocket::new();
    let mut out = Vec::new();
    ws.close(Some(1002), &mut out);
    assert_eq!(out, vec![0x88, 0x02, 0x03, 0xEA]);
    assert!(ws.is_closed());
}

#[test]
fn close_without_code() {
    let mut ws = Websocket::new();
    let mut out = Vec::new();
    ws.close(None, &mut out);
    assert_eq!(out, vec![0x88, 0x00]);
    assert!(ws.is_closed());
}

#[test]
fn what_is_sent_can_be_read_back() {
    let mut sender = Websocket::new();
    let mut wire = Vec::new();
    sender.send_text("over the wire", &mut wire);
    sender.send_bytes(&[7; 300], &mut wire);
    sender.close(Some(1000), &mut wire);
    let mut receiver = Websocket::new();
    let mut out = Vec::new();
    let messages = receiver.read(&wire, &mut out).unwrap();
    assert_eq!(
        messages,
        vec![
            Message::Text("over the wire".to_string()),
            Message::Binary(vec![7; 300]),
            Message::Close(Some(1000)),
        ]
    );
    assert!(receiver.is_closed());
}
