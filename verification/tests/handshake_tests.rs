use ws_server::http::parse_request;
use ws_server::ws::base64::{base64_convert, hash_to_base64};
use ws_server::ws::handshake::{accept_token, GUID};
use ws_server::ws::upgrade;

#[test]
fn handshake_known_answer() {
    assert_eq!(accept_token("dGhlIHNhbXBsZSBub25jZQ=="), "s3pPLMBiTxaQ9kYGzzhZRbK+xOo=");
}

#[test]
fn handshake_other_keys() {
    assert_eq!(accept_token("x3JJHMbDL1EzLkh9GBhXDw=="), "HSmrc0sMlYUkAGmm5OPpG2HaGWk=");
    assert_ne!(accept_token("dGhlIHNhbXBsZSBub25jZQ=="), accept_token("dGhlIHNhbXBsZSBub25jZQ="));
}

#[test]
fn token_has_28_characters() {
    for key in ["", "a", "dGhlIHNhbXBsZSBub25jZQ==", "schlüssel", &"k".repeat(1000)] {
        let token = accept_token(key);
        assert_eq!(token.len(), 28, "key {key:?}");
        assert!(token.ends_with('='));
    }
}

#[test]
fn token_of_the_empty_key_is_the_hash_of_the_guid() {
    // SHA-1 of the identifier alone
    assert_eq!(accept_token(""), "Kfh9QIsMVZcl6xEPYxPHzW8SZ8w=");
}

#[test]
fn guid_is_the_fixed_identifier() {
    assert_eq!(GUID, "258EAFA5-E914-47DA-95CA-C5AB0DC85B11");
}

#[test]
fn base64_alphabet() {
    let alphabet = "ABCDEFGHIJKLMNOPQRSTUVWXYZabcdefghijklmnopqrstuvwxyz0123456789+/";
    for (i, c) in alphabet.chars().enumerate() {
        assert_eq!(base64_convert(i as u8), c);
    }
}

#[test]
fn base64_known_vectors() {
    assert_eq!(hash_to_base64(b""), "");
    assert_eq!(hash_to_base64(b"f"), "Zg==");
    assert_eq!(hash_to_base64(b"fo"), "Zm8=");
    assert_eq!(hash_to_base64(b"foo"), "Zm9v");
    assert_eq!(hash_to_base64(b"foob"), "Zm9vYg==");
    assert_eq!(hash_to_base64(b"fooba"), "Zm9vYmE=");
    assert_eq!(hash_to_base64(b"foobar"), "Zm9vYmFy");
}

#[test]
fn base64_of_high_bytes() {
    assert_eq!(hash_to_base64(&[0xFF, 0xFF, 0xFF]), "////");
    assert_eq!(hash_to_base64(&[0xFB, 0xEF, 0xBE]), "++++");
    assert_eq!(hash_to_base64(&[0x00, 0x00, 0x00]), "AAAA");
    assert_eq!(hash_to_base64(&[0xFF]), "/w==");
    assert_eq!(hash_to_base64(&[0xFF, 0xFF]), "//8=");
}

#[test]
fn base64_of_a_hash() {
    // the SHA-1 hash of the sample key and the identifier
    let hash = [
        0xb3u8, 0x7a, 0x4f, 0x2c, 0xc0, 0x62, 0x4f, 0x16, 0x90, 0xf6, 0x46, 0x06, 0xcf, 0x38, 0x59,
        0x45, 0xb2, 0xbe, 0xc4, 0xea,
    ];
    let text = hash_to_base64(&hash);
    assert_eq!(text, "s3pPLMBiTxaQ9kYGzzhZRbK+xOo=");
    assert_eq!(text.len(), 28);
}

#[test]
fn upgrade_answers_with_101() {
    let request = parse_request(
        b"GET /chat HTTP/1.1\r\nHost: example.com\r\nUpgrade: websocket\r\nConnection: Upgrade\r\nSec-WebSocket-Key: dGhlIHNhbXBsZSBub25jZQ==\r\nSec-WebSocket-Version: 13\r\n\r\n",
    )
    .unwrap();
    let (ws, response) = upgrade(&request);
    assert!(!ws.is_closed());
    assert_eq!(
        response.as_bytes(),
        &b"HTTP/1.1 101 Switching Protocols\r\nUpgrade: websocket\r\nConnection: Upgrade\r\nSec-WebSocket-Accept: s3pPLMBiTxaQ9kYGzzhZRbK+xOo=\r\n\r\n"[..]
    );
}

#[test]
fn upgrade_uses_the_trimmed_key_and_the_request_version() {
    let request =
        parse_request(b"GET / HTTP/1.0\r\nSec-WebSocket-Key:   dGhlIHNhbXBsZSBub25jZQ== \t\r\n\r\n")
            .unwrap();
    let (_, response) = upgrade(&request);
    assert_eq!(
        response.as_bytes(),
        &b"HTTP/1.0 101 Switching Protocols\r\nUpgrade: websocket\r\nConnection: Upgrade\r\nSec-WebSocket-Accept: s3pPLMBiTxaQ9kYGzzhZRbK+xOo=\r\n\r\n"[..]
    );
}
