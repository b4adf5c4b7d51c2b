use file_archive::events::{classify_event, render, Event, EventKind};
use file_archive::wire::{
    ack_token, check_ack, command_byte, command_of_byte, decode_len, encode_frame, encode_len,
    is_valid_ack, take_frame, Command, ProtocolError,
};

#[test]
fn bad_ack_is_a_protocol_error() {
    assert!(check_ack(b"OK").is_ok());
    let err = check_ack(b"KO").unwrap_err();
    assert!(matches!(err, ProtocolError::InvalidAck));
    assert_eq!(err.text(), b"Invalid ack".to_vec());
    assert_eq!(ProtocolError::UnknownCommand.text(), b"Invalid command".to_vec());
}

#[test]
fn classification_reads_the_event_prefix() {
    let found = render(&Event::Found { path: b"a".to_vec(), offset: 1, snippet: b"s".to_vec() });
    assert_eq!(classify_event(&found), Some((EventKind::Found, 7)));
    let found_in = render(&Event::FoundIn { path: b"a".to_vec() });
    assert_eq!(classify_event(&found_in), Some((EventKind::FoundIn, 10)));
    let update = render(&Event::Update { scaled_percent: 0 });
    assert_eq!(classify_event(&update), Some((EventKind::Update, 8)));
    let done = render(&Event::Done { elapsed_ms: 3 });
    assert_eq!(classify_event(&done), Some((EventKind::Done, 5)));
    assert_eq!(classify_event(&render(&Event::ListDone)), Some((EventKind::Done, 5)));
    let entry = render(&Event::FileEntry { name: b"n".to_vec() });
    assert_eq!(classify_event(&entry), Some((EventKind::FileEntry, 6)));
    let err = render(&Event::ErrorMsg { text: b"t".to_vec() });
    assert_eq!(classify_event(&err), Some((EventKind::ErrorText, 7)));
    assert_eq!(classify_event(&b"noise".to_vec()), None);
    assert_eq!(classify_event(&b"done".to_vec()), None);
}

#[test]
fn length_prefix_round_trips() {
    for v in [0u64, 1, 255, 256, 65535, 1 << 32, u64::MAX] {
        let bytes = encode_len(v);
        assert_eq!(bytes.len(), 8);
        assert_eq!(decode_len(&bytes[..]), v);
    }
}

#[test]
fn length_prefix_is_big_endian() {
    let bytes = encode_len(0x0102030405060708);
    assert_eq!(bytes, vec![1, 2, 3, 4, 5, 6, 7, 8]);
    assert_eq!(encode_len(19), vec![0, 0, 0, 0, 0, 0, 0, 19]);
}

#[test]
fn frame_holds_prefix_then_payload() {
    let payload = b"hello".to_vec();
    let frame = encode_frame(&payload);
    assert_eq!(frame, vec![0, 0, 0, 0, 0, 0, 0, 5, b'h', b'e', b'l', b'l', b'o']);
}

#[test]
fn frame_round_trips_through_take_frame() {
    let payload = b"the quick brown fox".to_vec();
    let mut stream = encode_frame(&payload);
    stream.extend_from_slice(b"trailing");
    let (got, used) = take_frame(&stream).expect("complete frame");
    assert_eq!(got, payload);
    assert_eq!(used, 8 + payload.len());
}

#[test]
fn empty_payload_round_trips() {
    let payload: Vec<u8> = Vec::new();
    let frame = encode_frame(&payload);
    let (got, used) = take_frame(&frame).expect("complete frame");
    assert_eq!(got, payload);
    assert_eq!(used, 8);
}

#[test]
fn incomplete_frame_is_not_taken() {
    let payload = b"abc".to_vec();
    let frame = encode_frame(&payload);
    assert!(take_frame(&frame[..7].to_vec()).is_none());
    assert!(take_frame(&frame[..10].to_vec()).is_none());
}

#[test]
fn ack_token_is_ok_bytes() {
    assert_eq!(ack_token(), b"OK".to_vec());
    assert!(is_valid_ack(b"OK"));
    assert!(!is_valid_ack(b"NO"));
    assert!(!is_valid_ack(b"OKX"));
    assert!(!is_valid_ack(b""));
}

#[test]
fn command_bytes_round_trip() {
    for c in [Command::Upload, Command::Search, Command::Delete, Command::List] {
        assert_eq!(command_of_byte(command_byte(c)), Some(c));
    }
    assert_eq!(command_byte(Command::Upload), 1);
    assert_eq!(command_byte(Command::Search), 2);
    assert_eq!(command_byte(Command::Delete), 3);
    assert_eq!(command_byte(Command::List), 4);
    assert_eq!(command_of_byte(0), None);
    assert_eq!(command_of_byte(5), None);
    assert_eq!(command_of_byte(255), None);
}
