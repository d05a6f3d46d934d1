//! Tests of the state log: lifecycle, counters, recovery, and the shape of
//! every persisted entry.

use broker_core::command::Command;
use broker_core::encryptor::Encryptor;
use broker_core::state::{LogEntry, State, StateError};

const VERSION: u32 = 1;

fn create_user(user_id: u32) -> Command {
    Command::CreateUser {
        user_id,
        username: b"test".to_vec(),
        password: b"secret".to_vec(),
        status: 0,
    }
}

fn create_stream(stream_id: u32) -> Command {
    Command::CreateStream { stream_id, name: b"test".to_vec() }
}

fn assert_entry(entry: &LogEntry, index: u64, version: u32, user_id: u32, command: &[u8]) {
    assert_eq!(entry.index, index);
    assert_eq!(entry.term, 0);
    assert_eq!(entry.version, version);
    assert_eq!(entry.flags, 0);
    assert!(entry.checksum > 0);
    assert!(entry.timestamp > 0);
    assert_eq!(entry.user_id, user_id);
    assert_eq!(entry.command.as_slice(), command);
    assert!(entry.context.is_empty());
}

#[test]
fn should_be_empty_given_initialized_state() {
    let mut state = State::new(VERSION, Encryptor::Identity);
    state.init().unwrap();
    let entries = state.load_entries().unwrap();
    assert!(entries.is_empty());
}

#[test]
fn should_apply_single_entry() {
    let mut state = State::new(VERSION, Encryptor::Identity);
    state.init().unwrap();

    let user_id = 1;
    let command = create_user(user_id);
    let command_bytes = command.encode();

    state.apply(user_id, &command).unwrap();

    let mut entries = state.load_entries().unwrap();
    assert_eq!(entries.len(), 1);
    let entry = entries.remove(0);
    assert_entry(&entry, 0, VERSION, user_id, command_bytes.as_slice());
}

#[test]
fn should_apply_encrypted_entry() {
    let mut state = State::new(VERSION, Encryptor::Mask { key: 0x5a });
    state.init().unwrap();

    let user_id = 1;
    let command = create_user(user_id);
    let command_bytes = command.encode();

    state.apply(user_id, &command).unwrap();

    let mut entries = state.load_entries().unwrap();
    assert_eq!(entries.len(), 1);
    let entry = entries.remove(0);
    assert_entry(&entry, 0, VERSION, user_id, command_bytes.as_slice());
}

#[test]
fn should_apply_multiple_entries() {
    let mut state = State::new(VERSION, Encryptor::Identity);
    let entries = state.init().unwrap();

    assert!(entries.is_empty());
    assert_eq!(state.current_index(), 0);
    assert_eq!(state.entries_count(), 0);
    assert_eq!(state.term(), 0);

    let first_user_id = 1;
    let create_user_command = create_user(first_user_id);
    let create_user_bytes = create_user_command.encode();

    state.apply(first_user_id, &create_user_command).unwrap();

    assert_eq!(state.current_index(), 0);
    assert_eq!(state.entries_count(), 1);

    let second_user_id = 2;
    let stream_id = 1;
    let create_stream_command = create_stream(stream_id);
    let create_stream_bytes = create_stream_command.encode();

    state.apply(second_user_id, &create_stream_command).unwrap();

    assert_eq!(state.current_index(), 1);
    assert_eq!(state.entries_count(), 2);

    let mut entries = state.load_entries().unwrap();
    assert_eq!(entries.len(), 2);

    let create_user_entry = entries.remove(0);
    assert_entry(&create_user_entry, 0, VERSION, first_user_id, create_user_bytes.as_slice());

    let create_stream_entry = entries.remove(0);
    assert_entry(&create_stream_entry, 1, VERSION, second_user_id,
        create_stream_bytes.as_slice());
}

#[test]
fn sequential_applies_yield_contiguous_indices() {
    let mut state = State::new(VERSION, Encryptor::Identity);
    state.init().unwrap();
    for k in 0..10u32 {
        state.apply(k, &create_user(k)).unwrap();
        assert_eq!(state.entries_count(), (k + 1) as u64);
        assert_eq!(state.current_index(), k as u64);
    }
    let entries = state.load_entries().unwrap();
    assert_eq!(entries.len(), 10);
    for (i, entry) in entries.iter().enumerate() {
        assert_eq!(entry.index, i as u64);
        assert!(entry.checksum > 0);
        assert!(entry.timestamp > 0);
    }
}

#[test]
fn reopened_log_recovers_all_entries() {
    let mut state = State::new(VERSION, Encryptor::Identity);
    state.init().unwrap();
    state.apply(1, &create_user(1)).unwrap();
    state.apply(2, &create_stream(7)).unwrap();
    let bytes = state.persisted_bytes().clone();

    let mut reopened = State::from_bytes(bytes, VERSION, Encryptor::Identity);
    let recovered = reopened.init().unwrap();
    assert_eq!(recovered.len(), 2);
    assert_eq!(reopened.entries_count(), 2);
    assert_eq!(reopened.current_index(), 1);
    assert_eq!(recovered[0].index, 0);
    assert_eq!(recovered[1].index, 1);
    assert_eq!(recovered[0].command, create_user(1).encode());
    assert_eq!(recovered[1].command, create_stream(7).encode());
}

#[test]
fn reopened_encrypted_log_recovers_plaintext_commands() {
    let enc = Encryptor::Mask { key: 0x33 };
    let mut state = State::new(VERSION, enc);
    state.init().unwrap();
    state.apply(1, &create_user(1)).unwrap();
    let bytes = state.persisted_bytes().clone();

    let mut reopened = State::from_bytes(bytes, VERSION, enc);
    let recovered = reopened.init().unwrap();
    assert_eq!(recovered.len(), 1);
    assert_eq!(recovered[0].command, create_user(1).encode());
}

#[test]
fn torn_trailing_write_is_truncated_on_recovery() {
    let mut state = State::new(VERSION, Encryptor::Identity);
    state.init().unwrap();
    state.apply(1, &create_user(1)).unwrap();
    let complete_len = state.persisted_bytes().len();
    state.apply(2, &create_stream(7)).unwrap();

    // A crash mid-write leaves only part of the second entry behind.
    let mut bytes = state.persisted_bytes().clone();
    bytes.truncate(complete_len + 10);

    let mut reopened = State::from_bytes(bytes, VERSION, Encryptor::Identity);
    let recovered = reopened.init().unwrap();
    assert_eq!(recovered.len(), 1);
    assert_eq!(reopened.entries_count(), 1);
    assert_eq!(reopened.current_index(), 0);
    assert_eq!(reopened.persisted_bytes().len(), complete_len);
}

#[test]
fn corrupt_trailing_entry_is_truncated_on_recovery() {
    let mut state = State::new(VERSION, Encryptor::Identity);
    state.init().unwrap();
    state.apply(1, &create_user(1)).unwrap();
    let complete_len = state.persisted_bytes().len();
    state.apply(2, &create_stream(7)).unwrap();

    // Flip one byte inside the second entry's command payload.
    let mut bytes = state.persisted_bytes().clone();
    let last = bytes.len() - 5;
    bytes[last] ^= 0xff;

    let mut reopened = State::from_bytes(bytes, VERSION, Encryptor::Identity);
    let recovered = reopened.init().unwrap();
    assert_eq!(recovered.len(), 1);
    assert_eq!(reopened.entries_count(), 1);
    assert_eq!(reopened.persisted_bytes().len(), complete_len);
}

#[test]
fn corrupt_interior_entry_fails_recovery() {
    let mut state = State::new(VERSION, Encryptor::Identity);
    state.init().unwrap();
    state.apply(1, &create_user(1)).unwrap();
    state.apply(2, &create_stream(7)).unwrap();

    // Flip one byte inside the first entry's command payload.
    let mut bytes = state.persisted_bytes().clone();
    bytes[50] ^= 0xff;

    let mut reopened = State::from_bytes(bytes, VERSION, Encryptor::Identity);
    let result = reopened.init();
    assert_eq!(result.unwrap_err(), StateError::Corrupted);
}
