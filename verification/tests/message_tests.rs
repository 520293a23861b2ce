use ws_server::ws::frame::Fragment;
use ws_server::ws::message::IncompleteMessage;
use ws_server::ws::{Error, Message};

fn frame(fin: bool, opcode: u8, payload: &[u8]) -> Fragment {
    Fragment { fin, opcode, mask_key: None, payload: payload.to_vec() }
}

#[test]
fn single_text_frame_is_a_message() {
    let mut assembler = IncompleteMessage::new();
    let got = assembler.append_fragment(frame(true, 0x1, b"hello")).unwrap();
    assert_eq!(got, Some(Message::Text("hello".to_string())));
}

#[test]
fn single_binary_frame_is_a_message() {
    let mut assembler = IncompleteMessage::new();
    let got = assembler.append_fragment(frame(true, 0x2, &[0, 255, 128])).unwrap();
    assert_eq!(got, Some(Message::Binary(vec![0, 255, 128])));
}

#[test]
fn empty_messages() {
    let mut assembler = IncompleteMessage::new();
    assert_eq!(
        assembler.append_fragment(frame(true, 0x1, b"")).unwrap(),
        Some(Message::Text(String::new()))
    );
    assert_eq!(
        assembler.append_fragment(frame(true, 0x2, b"")).unwrap(),
        Some(Message::Binary(Vec::new()))
    );
}

#[test]
fn fragments_are_put_together() {
    let text = "the quick brown fox jumps over the lazy dog";
    for n in 1..=text.len() {
        let mut assembler = IncompleteMessage::new();
        let size = text.len().div_ceil(n);
        let pieces: Vec<&[u8]> = text.as_bytes().chunks(size).collect();
        for (i, piece) in pieces.iter().enumerate() {
            let last = i + 1 == pieces.len();
            let opcode = if i == 0 { 0x1 } else { 0x0 };
            let got = assembler.append_fragment(frame(last, opcode, piece)).unwrap();
            if last {
                assert_eq!(got, Some(Message::Text(text.to_string())));
            } else {
                assert_eq!(got, None, "message before the final fragment");
            }
        }
    }
}

#[test]
fn binary_fragments_are_put_together() {
    let mut assembler = IncompleteMessage::new();
    assert_eq!(assembler.append_fragment(frame(false, 0x2, &[1, 2])).unwrap(), None);
    assert_eq!(assembler.append_fragment(frame(false, 0x0, &[])).unwrap(), None);
    assert_eq!(assembler.append_fragment(frame(false, 0x0, &[3])).unwrap(), None);
    assert_eq!(
        assembler.append_fragment(frame(true, 0x0, &[4, 5])).unwrap(),
        Some(Message::Binary(vec![1, 2, 3, 4, 5]))
    );
    // the state is empty again: a new message starts
    assert_eq!(
        assembler.append_fragment(frame(true, 0x2, &[9])).unwrap(),
        Some(Message::Binary(vec![9]))
    );
}

#[test]
fn text_split_inside_a_character() {
    let text = "grüße";
    let bytes = text.as_bytes();
    let mut assembler = IncompleteMessage::new();
    assert_eq!(assembler.append_fragment(frame(false, 0x1, &bytes[..3])).unwrap(), None);
    assert_eq!(
        assembler.append_fragment(frame(true, 0x0, &bytes[3..])).unwrap(),
        Some(Message::Text(text.to_string()))
    );
}

#[test]
fn continuation_without_message_is_refused() {
    let mut assembler = IncompleteMessage::new();
    assert_eq!(assembler.append_fragment(frame(true, 0x0, b"x")), Err(Error::UnexpectedOpcode));
    assert_eq!(assembler.append_fragment(frame(false, 0x0, b"x")), Err(Error::UnexpectedOpcode));
    // nothing was taken: a message can still start
    assert_eq!(
        assembler.append_fragment(frame(true, 0x1, b"ok")).unwrap(),
        Some(Message::Text("ok".to_string()))
    );
}

#[test]
fn new_message_inside_a_message_is_refused() {
    for opcode in [0x1u8, 0x2, 0x3, 0x7] {
        let mut assembler = IncompleteMessage::new();
        assert_eq!(assembler.append_fragment(frame(false, 0x1, b"ab")).unwrap(), None);
        assert_eq!(
            assembler.append_fragment(frame(true, opcode, b"cd")),
            Err(Error::UnexpectedOpcode)
        );
        // the message under way is untouched
        assert_eq!(
            assembler.append_fragment(frame(true, 0x0, b"ef")).unwrap(),
            Some(Message::Text("abef".to_string()))
        );
    }
}

#[test]
fn other_opcodes_start_no_message() {
    for opcode in [0x3u8, 0x4, 0x5, 0x6, 0x7, 0x8, 0x9, 0xA, 0xB, 0xF] {
        let mut assembler = IncompleteMessage::new();
        assert_eq!(
            assembler.append_fragment(frame(true, opcode, b"x")),
            Err(Error::UnexpectedOpcode),
            "opcode {opcode}"
        );
    }
}

#[test]
fn accepts_opcode_follows_the_state() {
    let mut assembler = IncompleteMessage::new();
    assert!(assembler.accepts_opcode(0x1));
    assert!(assembler.accepts_opcode(0x2));
    assert!(!assembler.accepts_opcode(0x0));
    assert!(!assembler.accepts_opcode(0x8));
    assembler.append_fragment(frame(false, 0x2, b"x")).unwrap();
    assert!(assembler.accepts_opcode(0x0));
    assert!(!assembler.accepts_opcode(0x1));
    assert!(!assembler.accepts_opcode(0x2));
}

#[test]
fn fragments_without_payload_count() {
    let mut assembler = IncompleteMessage::new();
    assert_eq!(assembler.append_fragment(frame(false, 0x1, b"")).unwrap(), None);
    assert!(assembler.accepts_opcode(0x0));
    assert_eq!(assembler.append_fragment(frame(true, 0x1, b"x")), Err(Error::UnexpectedOpcode));
    assert_eq!(assembler.append_fragment(frame(false, 0x0, b"")).unwrap(), None);
    assert_eq!(
        assembler.append_fragment(frame(true, 0x0, b"x")).unwrap(),
        Some(Message::Text("x".to_string()))
    );
    assert_eq!(assembler.append_fragment(frame(false, 0x2, b"")).unwrap(), None);
    assert_eq!(
        assembler.append_fragment(frame(true, 0x0, b"")).unwrap(),
        Some(Message::Binary(Vec::new()))
    );
}

#[test]
fn message_split_in_two_at_every_place() {
    let text = "héllo wörld";
    let bytes = text.as_bytes();
    for at in 0..=bytes.len() {
        let mut assembler = IncompleteMessage::new();
        assert_eq!(assembler.append_fragment(frame(false, 0x1, &bytes[..at])).unwrap(), None);
        assert_eq!(
            assembler.append_fragment(frame(true, 0x0, &bytes[at..])).unwrap(),
            Some(Message::Text(text.to_string())),
            "split at {at}"
        );
        let mut assembler = IncompleteMessage::new();
        assert_eq!(assembler.append_fragment(frame(false, 0x2, &bytes[..at])).unwrap(), None);
        assert_eq!(
            assembler.append_fragment(frame(true, 0x0, &bytes[at..])).unwrap(),
            Some(Message::Binary(bytes.to_vec()))
        );
    }
}

#[test]
fn invalid_utf8_text_is_refused() {
    let mut assembler = IncompleteMessage::new();
    assert_eq!(
        assembler.append_fragment(frame(true, 0x1, &[b'a', 0xFF, b'b'])),
        Err(Error::InvalidTextPayload)
    );
    // the state was emptied
    assert_eq!(
        assembler.append_fragment(frame(true, 0x1, b"ok")).unwrap(),
        Some(Message::Text("ok".to_string()))
    );
}

#[test]
fn invalid_utf8_over_fragments_is_refused() {
    let mut assembler = IncompleteMessage::new();
    assert_eq!(assembler.append_fragment(frame(false, 0x1, &[0xC3])).unwrap(), None);
    assert_eq!(
        assembler.append_fragment(frame(true, 0x0, &[0x28])),
        Err(Error::InvalidTextPayload)
    );
}

#[test]
fn truncated_and_overlong_utf8_is_refused() {
    for bytes in [&[0xE2u8, 0x82][..], &[0xC0, 0x80][..], &[0xED, 0xA0, 0x80][..], &[0x80][..]] {
        assert_eq!(Message::from(bytes.to_vec(), 0x1), Err(Error::InvalidTextPayload));
    }
}

#[test]
fn same_bytes_are_fine_as_binary() {
    assert_eq!(Message::from(vec![0xFF, 0xFE], 0x2), Ok(Message::Binary(vec![0xFF, 0xFE])));
}

#[test]
fn message_from_text() {
    assert_eq!(
        Message::from("héllo €".as_bytes().to_vec(), 0x1),
        Ok(Message::Text("héllo €".to_string()))
    );
}

#[test]
fn message_from_other_opcode_is_unsupported() {
    for opcode in [0x0u8, 0x3, 0x8, 0x9, 0xA, 0xF, 0x10, 0xFF] {
        assert_eq!(Message::from(b"x".to_vec(), opcode), Err(Error::UnsupportedOpcode));
    }
}

#[test]
fn error_messages() {
    assert_eq!(Error::UnexpectedOpcode.message(), "unexpected opcode");
    assert_eq!(Error::InvalidTextPayload.message(), "expected payload to be ut8 encoded");
    assert_eq!(Error::UnsupportedOpcode.message(), "Unsupported opcode");
}
