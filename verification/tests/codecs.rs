//! Tests of the command codec and the message frame codec.

use broker_core::command::Command;
use broker_core::messages::{encode_messages, handle_response, Message};

fn le64(v: u64) -> [u8; 8] {
    let mut b = [0u8; 8];
    let mut x = v;
    for i in 0..8 {
        b[i] = (x & 0xff) as u8;
        x >>= 8;
    }
    b
}

fn push_frame(buf: &mut Vec<u8>, offset: u64, timestamp: u64, payload: &[u8]) {
    buf.extend_from_slice(&le64(offset));
    buf.extend_from_slice(&le64(timestamp));
    buf.extend_from_slice(&le64(payload.len() as u64));
    buf.extend_from_slice(payload);
}

#[test]
fn command_round_trip_create_user() {
    let c = Command::CreateUser {
        user_id: 42,
        username: b"test".to_vec(),
        password: b"secret".to_vec(),
        status: 3,
    };
    let encoded = c.encode();
    let decoded = Command::decode(encoded.as_slice()).unwrap();
    match decoded {
        Command::CreateUser { user_id, username, password, status } => {
            assert_eq!(user_id, 42);
            assert_eq!(username, b"test".to_vec());
            assert_eq!(password, b"secret".to_vec());
            assert_eq!(status, 3);
        }
        _ => panic!("wrong variant"),
    }
}

#[test]
fn command_round_trip_create_stream() {
    let c = Command::CreateStream { stream_id: 7, name: b"orders".to_vec() };
    let encoded = c.encode();
    let decoded = Command::decode(encoded.as_slice()).unwrap();
    match decoded {
        Command::CreateStream { stream_id, name } => {
            assert_eq!(stream_id, 7);
            assert_eq!(name, b"orders".to_vec());
        }
        _ => panic!("wrong variant"),
    }
}

#[test]
fn command_encoding_is_exact() {
    // Discriminator 2, stream id 7, name length 2, then the name bytes.
    let c = Command::CreateStream { stream_id: 7, name: b"ab".to_vec() };
    let encoded = c.encode();
    assert_eq!(encoded, vec![2, 0, 0, 0, 7, 0, 0, 0, 2, 0, 0, 0, b'a', b'b']);
}

#[test]
fn command_decode_rejects_malformed_bytes() {
    // Too short to hold a discriminator.
    assert!(Command::decode(&[1, 0, 0]).is_err());
    // Unknown discriminator.
    assert!(Command::decode(&[9, 0, 0, 0, 0, 0, 0, 0, 0, 0, 0, 0]).is_err());
    // Declared name length runs past the end.
    assert!(Command::decode(&[2, 0, 0, 0, 7, 0, 0, 0, 5, 0, 0, 0, b'a']).is_err());
    // Trailing garbage after a complete create-stream payload.
    let mut encoded = Command::CreateStream { stream_id: 7, name: b"ab".to_vec() }.encode();
    encoded.push(0);
    assert!(Command::decode(encoded.as_slice()).is_err());
}

#[test]
fn empty_response_decodes_to_no_messages() {
    let messages = handle_response(&[]).unwrap();
    assert!(messages.is_empty());
}

#[test]
fn response_frames_are_decoded_and_sorted_by_offset() {
    let mut buf = vec![0u8; 4];
    push_frame(&mut buf, 3, 300, b"third");
    push_frame(&mut buf, 1, 100, b"first");
    push_frame(&mut buf, 2, 200, b"second");

    let messages = handle_response(buf.as_slice()).unwrap();
    assert_eq!(messages.len(), 3);
    let expected: [(u64, u64, &[u8]); 3] =
        [(1, 100, b"first"), (2, 200, b"second"), (3, 300, b"third")];
    for (m, (offset, timestamp, payload)) in messages.iter().zip(expected.iter()) {
        assert_eq!(m.offset, *offset);
        assert_eq!(m.timestamp, *timestamp);
        assert_eq!(m.length, payload.len() as u64);
        assert_eq!(m.payload.as_slice(), *payload);
    }
}

#[test]
fn truncated_trailing_frame_is_dropped_without_error() {
    let mut buf = vec![0u8; 4];
    push_frame(&mut buf, 1, 100, b"whole");
    // A final frame that declares more payload than the buffer holds.
    buf.extend_from_slice(&le64(2));
    buf.extend_from_slice(&le64(200));
    buf.extend_from_slice(&le64(1000));
    buf.extend_from_slice(b"short");

    let messages = handle_response(buf.as_slice()).unwrap();
    assert_eq!(messages.len(), 1);
    assert_eq!(messages[0].offset, 1);
    assert_eq!(messages[0].payload.as_slice(), b"whole");
}

#[test]
fn encoded_messages_decode_back_unchanged() {
    let input = vec![
        Message { offset: 5, timestamp: 50, length: 3, payload: b"bbb".to_vec() },
        Message { offset: 2, timestamp: 20, length: 0, payload: Vec::new() },
        Message { offset: 9, timestamp: 90, length: 4, payload: b"dddd".to_vec() },
    ];
    let wire = encode_messages(&input);
    let decoded = handle_response(wire.as_slice()).unwrap();
    assert_eq!(decoded.len(), 3);
    assert_eq!(decoded[0].offset, 2);
    assert_eq!(decoded[0].payload, Vec::<u8>::new());
    assert_eq!(decoded[1].offset, 5);
    assert_eq!(decoded[1].payload, b"bbb".to_vec());
    assert_eq!(decoded[2].offset, 9);
    assert_eq!(decoded[2].payload, b"dddd".to_vec());
}

#[test]
fn short_buffer_without_full_frame_decodes_to_no_messages() {
    // A header alone, and a header with only part of a property block.
    assert!(handle_response(&[0, 0, 0, 0]).unwrap().is_empty());
    let buf = vec![0u8; 20];
    assert!(handle_response(buf.as_slice()).unwrap().is_empty());
}
