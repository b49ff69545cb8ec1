//! Framing, utilities and the coordinator's directory.

use lobby_server::framing::{
    classify_frame_len, encode_frame, frame_error_reply, header_bytes, header_value, FrameError,
    MAX_MESSAGE_SIZE,
};
use lobby_server::lobby_coordinator::{generate_lobby_code, LobbyCoordinator};
use lobby_server::utils::{seeded_string, time_based_string};

#[test]
fn frame_length_policy() {
    // an empty frame is refused but the connection survives; an oversized
    // frame is refused fatally
    assert!(matches!(classify_frame_len(0), Err(FrameError::EmptyFrame)));
    assert!(matches!(classify_frame_len(1), Ok(1)));
    assert!(matches!(
        classify_frame_len(MAX_MESSAGE_SIZE as u32),
        Ok(n) if n == MAX_MESSAGE_SIZE
    ));
    assert!(matches!(
        classify_frame_len(MAX_MESSAGE_SIZE as u32 + 1),
        Err(FrameError::Oversized)
    ));
    assert!(matches!(classify_frame_len(10_000_000), Err(FrameError::Oversized)));
}

#[test]
fn frame_header_round_trip() {
    for len in [0u32, 1, 255, 256, 65536, 262144, u32::MAX] {
        let bytes = header_bytes(len);
        assert_eq!(header_value(&bytes), len);
    }
}

#[test]
fn frame_encoding_prefixes_payload() {
    let payload = vec![1u8, 2, 3, 4, 5];
    let framed = encode_frame(&payload);
    assert_eq!(framed.len(), payload.len() + 4);
    assert_eq!(header_value(&framed[0..4]), payload.len() as u32);
    assert_eq!(&framed[4..], &payload[..]);
}

#[test]
fn time_based_string_shape() {
    let s = time_based_string(8);
    assert_eq!(s.chars().count(), 9);
    let mut chars = s.chars();
    assert_eq!(chars.next(), Some('*'));
    for c in chars {
        assert!(c.is_ascii_uppercase() || c.is_ascii_digit(), "unexpected character {c}");
    }
}

#[test]
fn lobby_code_shape() {
    let code = generate_lobby_code();
    assert_eq!(code.chars().count(), 5);
    for c in code.chars() {
        assert!(c.is_ascii_uppercase() || c.is_ascii_digit());
    }
}

#[test]
fn coordinator_directory() {
    let mut dir = LobbyCoordinator::new();
    assert!(!dir.has_lobby("AAAAA"));
    dir.register_lobby("AAAAA".to_string());
    assert!(dir.has_lobby("AAAAA"));
    dir.record_client("c1".to_string(), "AAAAA".to_string());
    dir.record_client("c2".to_string(), "AAAAA".to_string());
    // a disconnect names the lobby the client sat in and forgets the client
    let code = dir.handle_client_disconnected("c1");
    assert_eq!(code.as_deref(), Some("AAAAA"));
    assert!(dir.handle_client_disconnected("c1").is_none());
    // a shutdown drops the code and the stale rows
    dir.handle_lobby_shutdown("AAAAA");
    assert!(!dir.has_lobby("AAAAA"));
    assert!(dir.handle_client_disconnected("c2").is_none());
}

#[test]
fn unknown_lobby_is_not_found() {
    let dir = LobbyCoordinator::new();
    assert!(!dir.has_lobby("ZZZZZ"));
}

#[test]
fn frame_error_replies() {
    let (msg, keep_open) = frame_error_reply(FrameError::EmptyFrame);
    assert_eq!(msg, "Empty message");
    assert!(keep_open);
    let (msg, keep_open) = frame_error_reply(FrameError::Oversized);
    assert_eq!(msg, "Message too large");
    assert!(!keep_open);
}

#[test]
fn seeded_string_is_deterministic() {
    let a = seeded_string(123456789, 8);
    let b = seeded_string(123456789, 8);
    assert_eq!(a, b);
    assert_eq!(a.len(), 9);
    assert!(a.starts_with('*'));
    for c in a.chars().skip(1) {
        assert!(c.is_ascii_uppercase() || c.is_ascii_digit());
    }
    let other = seeded_string(987654321, 8);
    assert_eq!(other.len(), 9);
}
