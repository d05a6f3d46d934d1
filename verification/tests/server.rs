//! Tests of the request router and the connection decision logic.

use broker_core::command::Command;
use broker_core::encryptor::Encryptor;
use broker_core::messages::Message;
use broker_core::server::{connection_step, handle_request, ConnAction, ServerError,
    StreamEvent, MAX_REQUEST_SIZE};
use broker_core::state::State;

const VERSION: u32 = 1;

fn le32(v: u32) -> [u8; 4] {
    let mut b = [0u8; 4];
    let mut x = v;
    for i in 0..4 {
        b[i] = (x & 0xff) as u8;
        x >>= 8;
    }
    b
}

#[test]
fn mutating_request_is_applied_and_answered_with_its_index() {
    let mut state = State::new(VERSION, Encryptor::Identity);
    state.init().unwrap();
    let request = Command::CreateUser {
        user_id: 1,
        username: b"test".to_vec(),
        password: b"secret".to_vec(),
        status: 0,
    }
    .encode();

    let response = handle_request(&mut state, 1, &Vec::new(), &request).unwrap();
    assert_eq!(response, vec![0u8; 8]);
    assert_eq!(state.entries_count(), 1);
    assert_eq!(state.current_index(), 0);

    let response = handle_request(&mut state, 2, &Vec::new(), &request).unwrap();
    assert_eq!(response, vec![1, 0, 0, 0, 0, 0, 0, 0]);
    assert_eq!(state.entries_count(), 2);
}

#[test]
fn poll_request_is_answered_with_framed_messages() {
    let mut state = State::new(VERSION, Encryptor::Identity);
    state.init().unwrap();
    let messages = vec![Message { offset: 1, timestamp: 10, length: 2, payload: b"hi".to_vec() }];
    let request = le32(3).to_vec();

    let response = handle_request(&mut state, 1, &messages, &request).unwrap();
    // Reserved header, then one frame: offset 1, timestamp 10, length 2, "hi".
    let mut expected = vec![0u8; 4];
    expected.extend_from_slice(&[1, 0, 0, 0, 0, 0, 0, 0]);
    expected.extend_from_slice(&[10, 0, 0, 0, 0, 0, 0, 0]);
    expected.extend_from_slice(&[2, 0, 0, 0, 0, 0, 0, 0]);
    expected.extend_from_slice(b"hi");
    assert_eq!(response, expected);
    assert_eq!(state.entries_count(), 0);
}

#[test]
fn decode_failure_leaves_log_untouched_and_later_requests_succeed() {
    let mut state = State::new(VERSION, Encryptor::Identity);
    state.init().unwrap();

    let bad = vec![9u8, 0, 0, 0, 1, 2, 3];
    let err = handle_request(&mut state, 1, &Vec::new(), &bad).unwrap_err();
    assert_eq!(err, ServerError::InvalidRequest);
    assert_eq!(state.entries_count(), 0);

    let good = Command::CreateStream { stream_id: 7, name: b"orders".to_vec() }.encode();
    let response = handle_request(&mut state, 1, &Vec::new(), &good).unwrap();
    assert_eq!(response, vec![0u8; 8]);
    assert_eq!(state.entries_count(), 1);
}

#[test]
fn oversized_request_is_rejected_without_touching_the_log() {
    let mut state = State::new(VERSION, Encryptor::Identity);
    state.init().unwrap();
    let request = vec![0u8; MAX_REQUEST_SIZE + 1];
    let err = handle_request(&mut state, 1, &Vec::new(), &request).unwrap_err();
    assert_eq!(err, ServerError::RequestTooLarge);
    assert_eq!(state.entries_count(), 0);
}

#[test]
fn connection_events_map_to_their_actions() {
    assert_eq!(connection_step(&StreamEvent::Closed), ConnAction::FinishOk);
    assert_eq!(connection_step(&StreamEvent::TransportFailed), ConnAction::FinishError);
    assert_eq!(connection_step(&StreamEvent::RequestRead), ConnAction::HandleRequest);
    assert_eq!(connection_step(&StreamEvent::ReadFailed), ConnAction::AbandonStream);
}
