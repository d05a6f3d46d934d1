//! Decision logic of the connection front end: how a connection task reacts
//! to what the transport hands it, and how one complete request is routed —
//! mutations through the state log, polls through the message frame codec.
//! The transport itself (accepting connections and streams, reading and
//! writing bytes) stays with the caller; every decision about the bytes is
//! made here.

use vstd::prelude::*;
use crate::bytes::{le_to_u32, read_u32_le, u64_le, write_u64_le};
use crate::command::{spec_decode, spec_encode, Command, CommandView, POLL_MESSAGES_CODE};
use crate::encryptor::spec_transform;
use crate::messages::{encode_messages, spec_encode_messages, views_of, Message};
use crate::state::{spec_entry_checksum, State};

verus! {

/// Number of concurrent acceptor loops waiting on the listening endpoint.
pub const LISTENERS_COUNT: u32 = 10;

/// Upper bound on one request's size, bounding memory per in-flight stream.
pub const MAX_REQUEST_SIZE: usize = 10 * 1024 * 1024;

/// Errors a request handler reports to its stream's caller.
#[derive(Clone, Copy, PartialEq, Eq, Structural, Debug)]
pub enum ServerError {
    /// The request bytes hold no recognizable command.
    InvalidRequest,
    /// The request exceeds `MAX_REQUEST_SIZE`.
    RequestTooLarge,
}

/// What the transport hands a connection task that waits for work.
pub enum StreamEvent {
    /// The peer closed the connection at the application level.
    Closed,
    /// The transport failed the connection.
    TransportFailed,
    /// A stream delivered one complete request.
    RequestRead,
    /// A stream's request could not be read whole.
    ReadFailed,
}

/// What the connection task does next.
#[derive(Clone, Copy, PartialEq, Eq, Structural, Debug)]
pub enum ConnAction {
    /// End the task normally; an application close is no error.
    FinishOk,
    /// End the task, reporting the transport error; siblings are unaffected.
    FinishError,
    /// Drop only the failed stream and keep serving the connection.
    AbandonStream,
    /// Route the request and answer on the same stream.
    HandleRequest,
}

/// The action each event calls for.
pub open spec fn spec_connection_step(event: StreamEvent) -> ConnAction {
    match event {
        StreamEvent::Closed => ConnAction::FinishOk,
        StreamEvent::TransportFailed => ConnAction::FinishError,
        StreamEvent::RequestRead => ConnAction::HandleRequest,
        StreamEvent::ReadFailed => ConnAction::AbandonStream,
    }
}

/// Maps one transport event to the next step of its connection task: a
/// close finishes the task cleanly, a transport failure finishes it with
/// an error, an unreadable request drops only its stream, and a whole
/// request goes to the router.
pub fn connection_step(event: &StreamEvent) -> (r: ConnAction)
    ensures
        r == spec_connection_step(*event),
{
    match event {
        StreamEvent::Closed => ConnAction::FinishOk,
        StreamEvent::TransportFailed => ConnAction::FinishError,
        StreamEvent::RequestRead => ConnAction::HandleRequest,
        StreamEvent::ReadFailed => ConnAction::AbandonStream,
    }
}

/// Where the router sends one request.
pub enum Route {
    /// Apply this command to the state log.
    Mutate(CommandView),
    /// Serve the available messages through the frame codec.
    Poll,
    /// Reject: the bytes hold no recognizable command.
    Invalid,
    /// Reject: the request is over the size bound.
    TooLarge,
}

/// The route a request's bytes call for: oversized requests are rejected,
/// a poll discriminator is served from the state machine's messages, and
/// anything else must decode as a command.
pub open spec fn spec_route(s: Seq<u8>) -> Route {
    if s.len() > MAX_REQUEST_SIZE {
        Route::TooLarge
    } else if s.len() >= 4 && le_to_u32(s.subrange(0, 4)) == POLL_MESSAGES_CODE {
        Route::Poll
    } else {
        match spec_decode(s) {
            Some(c) => Route::Mutate(c),
            None => Route::Invalid,
        }
    }
}

/// Handles one complete request against the log and the state machine's
/// current messages: a mutating command is appended to the log and answered
/// with the new entry's index; a poll is answered with the messages framed;
/// malformed or oversized requests are rejected, leaving the log exactly as
/// it was — a failure on one request never leaks into the next.
pub fn handle_request(
    state: &mut State,
    user_id: u32,
    messages: &Vec<Message>,
    request: &Vec<u8>,
) -> (r: Result<Vec<u8>, ServerError>)
    requires
        old(state)@.wf(),
        forall|i: int| 0 <= i < messages@.len() ==> (#[trigger] messages@[i])@.wf(),
    ensures
        final(state)@.wf(),
        match spec_route(request@) {
            Route::TooLarge => r == Err::<Vec<u8>, ServerError>(ServerError::RequestTooLarge)
                && final(state)@ == old(state)@,
            Route::Invalid => r == Err::<Vec<u8>, ServerError>(ServerError::InvalidRequest)
                && final(state)@ == old(state)@,
            Route::Poll => final(state)@ == old(state)@ && (r matches Ok(resp)
                && resp@ == spec_encode_messages(views_of(messages@))),
            Route::Mutate(c) => r matches Ok(resp) && {
                &&& resp@ == u64_le(final(state)@.current_index)
                &&& final(state)@.entries == old(state)@.entries.push(
                    final(state)@.entries.last())
                &&& ({
                    let e = final(state)@.entries.last();
                    &&& e.index == old(state)@.entries.len()
                    &&& e.user_id == user_id
                    &&& e.command == spec_transform(old(state)@.encryptor, spec_encode(c))
                    &&& e.checksum == spec_entry_checksum(e)
                    &&& e.timestamp > 0
                })
                &&& final(state)@.entries_count == old(state)@.entries_count + 1
                &&& final(state)@.current_index == old(state)@.entries.len()
            },
        },
{
    let n = request.len();
    if n > MAX_REQUEST_SIZE {
        return Err(ServerError::RequestTooLarge);
    }
    if n >= 4 {
        let disc = read_u32_le(request.as_slice(), 0);
        if disc == POLL_MESSAGES_CODE {
            return Ok(encode_messages(messages));
        }
    }
    match Command::decode(request.as_slice()) {
        Err(_) => Err(ServerError::InvalidRequest),
        Ok(cmd) => {
            match state.apply(user_id, &cmd) {
                Err(_) => Err(ServerError::InvalidRequest),
                Ok(_) => {
                    let mut resp: Vec<u8> = Vec::new();
                    write_u64_le(&mut resp, state.current_index());
                    Ok(resp)
                }
            }
        }
    }
}

} // verus!
