use game_sync::codec::{
    decode_line, encode_line, is_disconnect_signal, parse_id, verb_bytes, CodecError, Verb,
};

#[test]
fn encode_frames_verb_and_payload() {
    assert_eq!(encode_line(Verb::Motion, br#"{"x":1,"y":2}"#), b"motion {\"x\":1,\"y\":2}\n".to_vec());
    assert_eq!(encode_line(Verb::ClientLeft, b"7"), b"client_left 7\n".to_vec());
}

#[test]
fn verb_spellings() {
    assert_eq!(verb_bytes(Verb::Image), b"image".to_vec());
    assert_eq!(verb_bytes(Verb::Position), b"position".to_vec());
    assert_eq!(verb_bytes(Verb::AllClients), b"all_clients".to_vec());
}

#[test]
fn decode_round_trips_each_verb() {
    for v in [Verb::Motion, Verb::Image, Verb::Position, Verb::ClientLeft, Verb::AllClients] {
        let line = encode_line(v, b"[1,2]");
        assert_eq!(decode_line(&line), Ok((v, b"[1,2]".to_vec())));
    }
}

#[test]
fn decode_rejects_unknown_verb() {
    assert_eq!(decode_line(b"hello world\n"), Err(CodecError::UnknownVerb));
    assert_eq!(decode_line(b"motion"), Err(CodecError::UnknownVerb));
    assert_eq!(decode_line(b""), Err(CodecError::UnknownVerb));
}

#[test]
fn decode_without_newline_keeps_payload() {
    assert_eq!(decode_line(b"position [1]"), Ok((Verb::Position, b"[1]".to_vec())));
}

#[test]
fn parse_id_reads_trimmed_digits() {
    assert_eq!(parse_id(b" 42\n"), Ok(42));
    assert_eq!(parse_id(b"4294967295"), Ok(u32::MAX));
    assert_eq!(parse_id(b"4294967296"), Err(CodecError::MalformedPayload));
    assert_eq!(parse_id(b"4x"), Err(CodecError::MalformedPayload));
    assert_eq!(parse_id(b"  "), Err(CodecError::MalformedPayload));
}

#[test]
fn blank_line_is_disconnect() {
    assert!(is_disconnect_signal(b""));
    assert!(is_disconnect_signal(b" \r\n"));
    assert!(!is_disconnect_signal(b"x\n"));
}
