//! The command codec: a closed, tagged set of administrative commands and the
//! self-describing byte sequence they are carried in. The same bytes serve as
//! the network request body and as the payload persisted in a log entry, so
//! replay during recovery re-executes exactly the bytes the wire carried.

use vstd::prelude::*;
use crate::bytes::{le_to_u32, lemma_le_to_u32_of_u32_le, read_u32_le, u32_le, write_bytes,
    write_u32_le, copy_range};
use crate::Error;

verus! {

/// Wire discriminator of a create-user command.
pub const CREATE_USER_CODE: u32 = 1;

/// Wire discriminator of a create-stream command.
pub const CREATE_STREAM_CODE: u32 = 2;

/// Wire discriminator of a poll request; not a member of the log's command
/// set, recognized only by the request router.
pub const POLL_MESSAGES_CODE: u32 = 3;

/// One administrative command. Each variant carries the target identifier the
/// caller assigned before persistence, beside the domain payload itself.
pub enum Command {
    CreateUser { user_id: u32, username: Vec<u8>, password: Vec<u8>, status: u8 },
    CreateStream { stream_id: u32, name: Vec<u8> },
}

/// Mathematical model of a command.
pub enum CommandView {
    CreateUser { user_id: u32, username: Seq<u8>, password: Seq<u8>, status: u8 },
    CreateStream { stream_id: u32, name: Seq<u8> },
}

impl View for Command {
    type V = CommandView;

    open spec fn view(&self) -> CommandView {
        match self {
            Command::CreateUser { user_id, username, password, status } =>
                CommandView::CreateUser {
                    user_id: *user_id,
                    username: username@,
                    password: password@,
                    status: *status,
                },
            Command::CreateStream { stream_id, name } =>
                CommandView::CreateStream { stream_id: *stream_id, name: name@ },
        }
    }
}

impl CommandView {
    /// The whole encoding fits the 32-bit length prefix a log entry carries
    /// its command in.
    pub open spec fn wf(self) -> bool {
        match self {
            CommandView::CreateUser { username, password, .. } =>
                17 + username.len() + password.len() <= u32::MAX,
            CommandView::CreateStream { name, .. } => 12 + name.len() <= u32::MAX,
        }
    }
}

impl Command {
    /// The whole encoding fits the 32-bit length prefix a log entry carries
    /// its command in.
    pub open spec fn wf(self) -> bool {
        self@.wf()
    }
}

/// An encoded well-formed command fits the 32-bit length prefix a log entry
/// carries its command in.
pub proof fn lemma_encode_len_bound(c: CommandView)
    requires
        c.wf(),
    ensures
        spec_encode(c).len() <= u32::MAX,
{
}

/// The byte sequence a command is encoded to: a discriminator, then the
/// serialized payload with each variable-length field length-prefixed.
pub open spec fn spec_encode(c: CommandView) -> Seq<u8> {
    match c {
        CommandView::CreateUser { user_id, username, password, status } =>
            u32_le(CREATE_USER_CODE) + u32_le(user_id) + u32_le(username.len() as u32) + username
                + u32_le(password.len() as u32) + password + seq![status],
        CommandView::CreateStream { stream_id, name } =>
            u32_le(CREATE_STREAM_CODE) + u32_le(stream_id) + u32_le(name.len() as u32) + name,
    }
}

/// The command held by a byte sequence, or `None` where the discriminator is
/// unrecognized, a declared length overruns the buffer, or bytes are left
/// over. The exact inverse of `spec_encode`.
pub open spec fn spec_decode(s: Seq<u8>) -> Option<CommandView> {
    if s.len() < 4 || s.len() > u32::MAX {
        None
    } else {
        let disc = le_to_u32(s.subrange(0, 4));
        if disc == CREATE_USER_CODE {
            spec_decode_create_user(s)
        } else if disc == CREATE_STREAM_CODE {
            spec_decode_create_stream(s)
        } else {
            None
        }
    }
}

/// Decodes the payload of a create-user command.
pub open spec fn spec_decode_create_user(s: Seq<u8>) -> Option<CommandView> {
    if s.len() < 12 {
        None
    } else {
        let user_id = le_to_u32(s.subrange(4, 8));
        let ulen = le_to_u32(s.subrange(8, 12)) as int;
        if s.len() < 16 + ulen {
            None
        } else {
            let username = s.subrange(12, 12 + ulen);
            let plen = le_to_u32(s.subrange(12 + ulen, 16 + ulen)) as int;
            if s.len() != 17 + ulen + plen {
                None
            } else {
                let password = s.subrange(16 + ulen, 16 + ulen + plen);
                let status = s[16 + ulen + plen];
                Some(CommandView::CreateUser { user_id, username, password, status })
            }
        }
    }
}

/// Decodes the payload of a create-stream command.
pub open spec fn spec_decode_create_stream(s: Seq<u8>) -> Option<CommandView> {
    if s.len() < 12 {
        None
    } else {
        let stream_id = le_to_u32(s.subrange(4, 8));
        let nlen = le_to_u32(s.subrange(8, 12)) as int;
        if s.len() != 12 + nlen {
            None
        } else {
            Some(CommandView::CreateStream { stream_id, name: s.subrange(12, 12 + nlen) })
        }
    }
}

/// Decoding an encoded command gives the command back, for every command
/// whose fields fit their length prefixes.
pub proof fn lemma_command_round_trip(c: CommandView)
    requires
        c.wf(),
    ensures
        spec_decode(spec_encode(c)) == Some(c),
{
    let e = spec_encode(c);
    match c {
        CommandView::CreateUser { user_id, username, password, status } => {
            let ulen = username.len() as int;
            let plen = password.len() as int;
            assert(e.len() == 17 + ulen + plen);
            assert(e.subrange(0, 4) =~= u32_le(CREATE_USER_CODE));
            lemma_le_to_u32_of_u32_le(CREATE_USER_CODE);
            assert(e.subrange(4, 8) =~= u32_le(user_id));
            lemma_le_to_u32_of_u32_le(user_id);
            assert(e.subrange(8, 12) =~= u32_le(username.len() as u32));
            lemma_le_to_u32_of_u32_le(username.len() as u32);
            assert(e.subrange(12, 12 + ulen) =~= username);
            assert(e.subrange(12 + ulen, 16 + ulen) =~= u32_le(password.len() as u32));
            lemma_le_to_u32_of_u32_le(password.len() as u32);
            assert(e.subrange(16 + ulen, 16 + ulen + plen) =~= password);
            assert(e[16 + ulen + plen] == status);
        }
        CommandView::CreateStream { stream_id, name } => {
            let nlen = name.len() as int;
            assert(e.len() == 12 + nlen);
            assert(e.subrange(0, 4) =~= u32_le(CREATE_STREAM_CODE));
            lemma_le_to_u32_of_u32_le(CREATE_STREAM_CODE);
            assert(e.subrange(4, 8) =~= u32_le(stream_id));
            lemma_le_to_u32_of_u32_le(stream_id);
            assert(e.subrange(8, 12) =~= u32_le(name.len() as u32));
            lemma_le_to_u32_of_u32_le(name.len() as u32);
            assert(e.subrange(12, 12 + nlen) =~= name);
        }
    }
}

impl Command {
    /// Encodes the command to its wire and log byte sequence.
    pub fn encode(&self) -> (r: Vec<u8>)
        requires
            self.wf(),
        ensures
            r@ == spec_encode(self@),
    {
        let mut out: Vec<u8> = Vec::new();
        match self {
            Command::CreateUser { user_id, username, password, status } => {
                write_u32_le(&mut out, CREATE_USER_CODE);
                write_u32_le(&mut out, *user_id);
                write_u32_le(&mut out, username.len() as u32);
                write_bytes(&mut out, username.as_slice());
                write_u32_le(&mut out, password.len() as u32);
                write_bytes(&mut out, password.as_slice());
                out.push(*status);
                assert(out@ =~= spec_encode(self@));
            }
            Command::CreateStream { stream_id, name } => {
                write_u32_le(&mut out, CREATE_STREAM_CODE);
                write_u32_le(&mut out, *stream_id);
                write_u32_le(&mut out, name.len() as u32);
                write_bytes(&mut out, name.as_slice());
                assert(out@ =~= spec_encode(self@));
            }
        }
        out
    }

    /// Decodes a command from its wire or log byte sequence; the exact
    /// inverse of `encode`, failing on any byte sequence `encode` cannot
    /// produce.
    pub fn decode(bytes: &[u8]) -> (r: Result<Command, Error>)
        ensures
            match r {
                Ok(c) => spec_decode(bytes@) == Some(c@) && c.wf(),
                Err(_) => spec_decode(bytes@) is None,
            },
    {
        let n = bytes.len();
        if n < 4 || n > u32::MAX as usize {
            return Err(Error::InvalidBytes);
        }
        let disc = read_u32_le(bytes, 0);
        proof {
            assert(bytes@.subrange(0, 4) == bytes@.subrange(0int, 0int + 4));
        }
        if disc == CREATE_USER_CODE {
            Self::decode_create_user(bytes)
        } else if disc == CREATE_STREAM_CODE {
            Self::decode_create_stream(bytes)
        } else {
            Err(Error::InvalidBytes)
        }
    }

    /// Decodes the payload of a create-user command.
    fn decode_create_user(bytes: &[u8]) -> (r: Result<Command, Error>)
        requires
            4 <= bytes@.len() <= u32::MAX,
            le_to_u32(bytes@.subrange(0, 4)) == CREATE_USER_CODE,
        ensures
            match r {
                Ok(c) => spec_decode(bytes@) == Some(c@) && c.wf(),
                Err(_) => spec_decode(bytes@) is None,
            },
    {
        let n = bytes.len();
        if n < 12 {
            return Err(Error::InvalidBytes);
        }
        let user_id = read_u32_le(bytes, 4);
        let ulen = read_u32_le(bytes, 8) as usize;
        if n < 16 || n - 16 < ulen {
            return Err(Error::InvalidBytes);
        }
        let username = copy_range(bytes, 12, 12 + ulen);
        let plen = read_u32_le(bytes, 12 + ulen) as usize;
        let rem = n - (16 + ulen);
        if rem < 1 || rem - 1 != plen {
            return Err(Error::InvalidBytes);
        }
        let password = copy_range(bytes, 16 + ulen, 16 + ulen + plen);
        let status = bytes[16 + ulen + plen];
        let c = Command::CreateUser { user_id, username, password, status };
        proof {
            assert(spec_decode(bytes@) == spec_decode_create_user(bytes@));
        }
        Ok(c)
    }

    /// Decodes the payload of a create-stream command.
    fn decode_create_stream(bytes: &[u8]) -> (r: Result<Command, Error>)
        requires
            4 <= bytes@.len() <= u32::MAX,
            le_to_u32(bytes@.subrange(0, 4)) == CREATE_STREAM_CODE,
        ensures
            match r {
                Ok(c) => spec_decode(bytes@) == Some(c@) && c.wf(),
                Err(_) => spec_decode(bytes@) is None,
            },
    {
        let n = bytes.len();
        if n < 12 {
            return Err(Error::InvalidBytes);
        }
        let stream_id = read_u32_le(bytes, 4);
        let nlen = read_u32_le(bytes, 8) as usize;
        if n - 12 != nlen {
            return Err(Error::InvalidBytes);
        }
        let name = copy_range(bytes, 12, 12 + nlen);
        Ok(Command::CreateStream { stream_id, name })
    }
}

} // verus!
