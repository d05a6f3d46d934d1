//! The state log: an append-only, checksum-protected, replayable log of
//! applied administrative commands. Entries are serialized to a byte
//! buffer — the durable medium — in a fixed little-endian layout; recovery
//! re-reads that buffer, verifies every entry, and truncates a torn or
//! corrupt trailing entry left by a crashed writer.

use vstd::prelude::*;
use crate::bytes::{le_to_u32, le_to_u64, lemma_le_to_u32_of_u32_le, lemma_le_to_u64_of_u64_le,
    lemma_subrange_join, lemma_u32_le_of_le_to_u32, lemma_u64_le_of_le_to_u64, read_u32_le,
    read_u64_le, u32_le, u64_le, write_bytes, write_u64_le, write_u32_le, copy_range};
use crate::clock::now_micros;
use crate::command::{lemma_encode_len_bound, spec_encode, Command};
use crate::encryptor::{spec_transform, Encryptor};

verus! {

/// Errors of the state log.
#[derive(Clone, Copy, PartialEq, Eq, Structural, Debug)]
pub enum StateError {
    /// An entry before the end of the log failed verification on recovery.
    Corrupted,
}

/// Seed of the checksum fold.
pub const CHECKSUM_OFFSET: u64 = 0xcbf29ce484222325;

/// Multiplier of the checksum fold.
pub const CHECKSUM_PRIME: u64 = 0x100000001b3;

/// Bytes of an entry before its command: index, term, version, flags,
/// checksum, timestamp, user, and the command's length prefix.
pub const ENTRY_FIXED_SIZE: usize = 48;

/// Smallest possible serialized entry: the fixed part, an empty command,
/// the context length prefix, and an empty context.
pub const ENTRY_MIN_SIZE: usize = 52;

/// One durable record of the log.
#[derive(Debug)]
pub struct LogEntry {
    /// Position in the log, strictly increasing from zero, gapless.
    pub index: u64,
    /// Logical epoch; constant until multi-node coordination exists.
    pub term: u64,
    /// Log-format version tag.
    pub version: u32,
    /// Reserved; always zero when written.
    pub flags: u32,
    /// Integrity digest over the other fields and the command bytes;
    /// never zero.
    pub checksum: u64,
    /// Microseconds since the epoch, set at append time; never zero.
    pub timestamp: u64,
    /// Issuer of the command.
    pub user_id: u32,
    /// The serialized command, transformed by the configured encryptor.
    pub command: Vec<u8>,
    /// Reserved extension point; always empty when written.
    pub context: Vec<u8>,
}

/// Mathematical model of an entry.
pub struct LogEntryView {
    pub index: u64,
    pub term: u64,
    pub version: u32,
    pub flags: u32,
    pub checksum: u64,
    pub timestamp: u64,
    pub user_id: u32,
    pub command: Seq<u8>,
    pub context: Seq<u8>,
}

impl View for LogEntry {
    type V = LogEntryView;

    open spec fn view(&self) -> LogEntryView {
        LogEntryView {
            index: self.index,
            term: self.term,
            version: self.version,
            flags: self.flags,
            checksum: self.checksum,
            timestamp: self.timestamp,
            user_id: self.user_id,
            command: self.command@,
            context: self.context@,
        }
    }
}

impl LogEntryView {
    /// The variable-length fields fit their 32-bit length prefixes.
    pub open spec fn wf(self) -> bool {
        self.command.len() <= u32::MAX && self.context.len() <= u32::MAX
    }
}

impl LogEntry {
    /// The variable-length fields fit their 32-bit length prefixes.
    pub open spec fn wf(self) -> bool {
        self@.wf()
    }
}

/// The models of a sequence of entries.
pub open spec fn views_of_entries(s: Seq<LogEntry>) -> Seq<LogEntryView> {
    s.map_values(|e: LogEntry| e@)
}

/// One fold step of the checksum: mix a byte in, then spread it with a
/// wrapping multiply.
pub open spec fn checksum_step(h: u64, b: u8) -> u64 {
    (h ^ (b as u64)).wrapping_mul(CHECKSUM_PRIME)
}

/// The checksum fold over `s`, started at `h`.
pub open spec fn checksum_fold(h: u64, s: Seq<u8>) -> u64
    decreases s.len(),
{
    if s.len() == 0 {
        h
    } else {
        checksum_fold(checksum_step(h, s[0]), s.drop_first())
    }
}

/// The bytes an entry's checksum is computed over: every fixed field that
/// identifies the record — index, term, version, issuer, timestamp — and
/// the command bytes as persisted.
pub open spec fn checksum_input(
    index: u64,
    term: u64,
    version: u32,
    user_id: u32,
    timestamp: u64,
    command: Seq<u8>,
) -> Seq<u8> {
    u64_le(index) + u64_le(term) + u32_le(version) + u32_le(user_id) + u64_le(timestamp) + command
}

/// An entry's checksum: the fold over its identifying bytes, with zero
/// mapped aside so that a stored checksum is never zero.
#[verifier::opaque]
pub open spec fn spec_checksum(
    index: u64,
    term: u64,
    version: u32,
    user_id: u32,
    timestamp: u64,
    command: Seq<u8>,
) -> u64 {
    let c = checksum_fold(CHECKSUM_OFFSET, checksum_input(index, term, version, user_id,
        timestamp, command));
    if c == 0 {
        1
    } else {
        c
    }
}

/// The checksum the fields of `e` call for.
pub open spec fn spec_entry_checksum(e: LogEntryView) -> u64 {
    spec_checksum(e.index, e.term, e.version, e.user_id, e.timestamp, e.command)
}

/// A stored checksum is never zero.
pub proof fn lemma_checksum_nonzero(e: LogEntryView)
    ensures
        spec_entry_checksum(e) > 0,
{
    reveal(spec_checksum);
}

/// Runs the checksum fold over `data`.
fn fold_bytes(h0: u64, data: &[u8]) -> (r: u64)
    ensures
        r == checksum_fold(h0, data@),
{
    let mut h = h0;
    let mut i: usize = 0;
    assert(data@.subrange(0, data@.len() as int) =~= data@);
    while i < data.len()
        invariant
            i <= data@.len(),
            checksum_fold(h0, data@) == checksum_fold(h, data@.subrange(i as int, data@.len() as int)),
        decreases data@.len() - i,
    {
        let ghost before = data@.subrange(i as int, data@.len() as int);
        h = (h ^ (data[i] as u64)).wrapping_mul(CHECKSUM_PRIME);
        i = i + 1;
        proof {
            assert(before.drop_first() =~= data@.subrange(i as int, data@.len() as int));
            assert(before[0] == data@[i - 1]);
        }
    }
    proof {
        assert(data@.subrange(data@.len() as int, data@.len() as int) =~= Seq::<u8>::empty());
    }
    h
}

/// Computes the checksum of an entry's identifying fields and command
/// bytes; the result is never zero.
pub fn compute_checksum(
    index: u64,
    term: u64,
    version: u32,
    user_id: u32,
    timestamp: u64,
    command: &[u8],
) -> (r: u64)
    ensures
        r == spec_checksum(index, term, version, user_id, timestamp, command@),
        r > 0,
{
    proof {
        reveal(spec_checksum);
    }
    let mut input: Vec<u8> = Vec::new();
    write_u64_le(&mut input, index);
    write_u64_le(&mut input, term);
    write_u32_le(&mut input, version);
    write_u32_le(&mut input, user_id);
    write_u64_le(&mut input, timestamp);
    write_bytes(&mut input, command);
    assert(input@ =~= checksum_input(index, term, version, user_id, timestamp, command@));
    let c = fold_bytes(CHECKSUM_OFFSET, input.as_slice());
    if c == 0 {
        1
    } else {
        c
    }
}

/// The serialized bytes of one entry: the fixed fields in order, then the
/// length-prefixed command and context.
#[verifier::opaque]
pub open spec fn entry_bytes(e: LogEntryView) -> Seq<u8> {
    u64_le(e.index) + u64_le(e.term) + u32_le(e.version) + u32_le(e.flags) + u64_le(e.checksum)
        + u64_le(e.timestamp) + u32_le(e.user_id) + u32_le(e.command.len() as u32) + e.command
        + u32_le(e.context.len() as u32) + e.context
}

/// The serialized bytes of a run of entries, in order.
pub open spec fn serialize_entries(es: Seq<LogEntryView>) -> Seq<u8>
    decreases es.len(),
{
    if es.len() == 0 {
        seq![]
    } else {
        serialize_entries(es.drop_last()) + entry_bytes(es.last())
    }
}

/// Every serialized entry takes at least `ENTRY_MIN_SIZE` bytes.
pub proof fn lemma_serialize_entries_len(es: Seq<LogEntryView>)
    ensures
        serialize_entries(es).len() >= ENTRY_MIN_SIZE * es.len(),
    decreases es.len(),
{
    reveal(entry_bytes);
    if es.len() > 0 {
        lemma_serialize_entries_len(es.drop_last());
    }
}

/// The entry laid down at byte position `pos` of `s`, with the position
/// just past it — or nothing where the fixed part, the command or the
/// context would run past the end of the buffer.
#[verifier::opaque]
pub open spec fn spec_parse_entry(s: Seq<u8>, pos: int) -> Option<(LogEntryView, int)> {
    if pos < 0 || pos + ENTRY_FIXED_SIZE > s.len() {
        None
    } else {
        let clen = le_to_u32(s.subrange(pos + 44, pos + 48)) as int;
        if pos + 52 + clen > s.len() {
            None
        } else {
            let xlen = le_to_u32(s.subrange(pos + 48 + clen, pos + 52 + clen)) as int;
            if pos + 52 + clen + xlen > s.len() {
                None
            } else {
                let e = LogEntryView {
                    index: le_to_u64(s.subrange(pos, pos + 8)),
                    term: le_to_u64(s.subrange(pos + 8, pos + 16)),
                    version: le_to_u32(s.subrange(pos + 16, pos + 20)),
                    flags: le_to_u32(s.subrange(pos + 20, pos + 24)),
                    checksum: le_to_u64(s.subrange(pos + 24, pos + 32)),
                    timestamp: le_to_u64(s.subrange(pos + 32, pos + 40)),
                    user_id: le_to_u32(s.subrange(pos + 40, pos + 44)),
                    command: s.subrange(pos + 48, pos + 48 + clen),
                    context: s.subrange(pos + 52 + clen, pos + 52 + clen + xlen),
                };
                Some((e, pos + 52 + clen + xlen))
            }
        }
    }
}

/// A parsed entry occupies exactly the bytes it re-serializes to: parsing
/// is faithful to the layout.
pub proof fn lemma_parse_entry_faithful(s: Seq<u8>, pos: int)
    requires
        spec_parse_entry(s, pos) is Some,
    ensures
        spec_parse_entry(s, pos) matches Some((e, end)) ==> {
            &&& entry_bytes(e) == s.subrange(pos, end)
            &&& e.wf()
            &&& pos + ENTRY_MIN_SIZE <= end <= s.len()
        },
{
    reveal(spec_parse_entry);
    reveal(entry_bytes);
    match spec_parse_entry(s, pos) {
        Some((e, end)) => {
            let clen = le_to_u32(s.subrange(pos + 44, pos + 48)) as int;
            let xlen = le_to_u32(s.subrange(pos + 48 + clen, pos + 52 + clen)) as int;
            lemma_u64_le_of_le_to_u64(s.subrange(pos, pos + 8));
            lemma_u64_le_of_le_to_u64(s.subrange(pos + 8, pos + 16));
            lemma_u32_le_of_le_to_u32(s.subrange(pos + 16, pos + 20));
            lemma_u32_le_of_le_to_u32(s.subrange(pos + 20, pos + 24));
            lemma_u64_le_of_le_to_u64(s.subrange(pos + 24, pos + 32));
            lemma_u64_le_of_le_to_u64(s.subrange(pos + 32, pos + 40));
            lemma_u32_le_of_le_to_u32(s.subrange(pos + 40, pos + 44));
            lemma_u32_le_of_le_to_u32(s.subrange(pos + 44, pos + 48));
            lemma_u32_le_of_le_to_u32(s.subrange(pos + 48 + clen, pos + 52 + clen));
            assert(e.command.len() as u32 == le_to_u32(s.subrange(pos + 44, pos + 48)));
            assert(e.context.len() as u32 == le_to_u32(s.subrange(pos + 48 + clen, pos + 52 + clen)));
            lemma_subrange_join(s, pos, pos + 8, pos + 16);
            lemma_subrange_join(s, pos, pos + 16, pos + 20);
            lemma_subrange_join(s, pos, pos + 20, pos + 24);
            lemma_subrange_join(s, pos, pos + 24, pos + 32);
            lemma_subrange_join(s, pos, pos + 32, pos + 40);
            lemma_subrange_join(s, pos, pos + 40, pos + 44);
            lemma_subrange_join(s, pos, pos + 44, pos + 48);
            lemma_subrange_join(s, pos, pos + 48, pos + 48 + clen);
            lemma_subrange_join(s, pos, pos + 48 + clen, pos + 52 + clen);
            lemma_subrange_join(s, pos, pos + 52 + clen, pos + 52 + clen + xlen);
            assert(entry_bytes(e) == s.subrange(pos, end));
        }
        None => {}
    }
}

/// An entry's serialized bytes, laid down whole inside a buffer, parse
/// back to the entry.
pub proof fn lemma_parse_entry_of_bytes(s: Seq<u8>, pos: int, e: LogEntryView)
    requires
        e.wf(),
        0 <= pos,
        pos + entry_bytes(e).len() <= s.len(),
        s.subrange(pos, pos + entry_bytes(e).len()) == entry_bytes(e),
    ensures
        spec_parse_entry(s, pos) == Some((e, pos + entry_bytes(e).len())),
{
    reveal(spec_parse_entry);
    reveal(entry_bytes);
    let eb = entry_bytes(e);
    let clen = e.command.len() as int;
    let xlen = e.context.len() as int;
    assert(eb.len() == 52 + clen + xlen);
    assert(eb.subrange(0, 8) =~= u64_le(e.index));
    assert(eb.subrange(8, 16) =~= u64_le(e.term));
    assert(eb.subrange(16, 20) =~= u32_le(e.version));
    assert(eb.subrange(20, 24) =~= u32_le(e.flags));
    assert(eb.subrange(24, 32) =~= u64_le(e.checksum));
    assert(eb.subrange(32, 40) =~= u64_le(e.timestamp));
    assert(eb.subrange(40, 44) =~= u32_le(e.user_id));
    assert(eb.subrange(44, 48) =~= u32_le(e.command.len() as u32));
    assert(eb.subrange(48, 48 + clen) =~= e.command);
    assert(eb.subrange(48 + clen, 52 + clen) =~= u32_le(e.context.len() as u32));
    assert(eb.subrange(52 + clen, 52 + clen + xlen) =~= e.context);
    assert forall|a: int, b: int| 0 <= a <= b <= eb.len()
        implies s.subrange(pos + a, pos + b) =~= eb.subrange(a, b) by {
        assert forall|j: int| 0 <= j < b - a
            implies s.subrange(pos + a, pos + b)[j] == eb.subrange(a, b)[j] by {
            assert(s.subrange(pos, pos + eb.len() as int)[a + j] == eb[a + j]);
        }
    }
    lemma_le_to_u64_of_u64_le(e.index);
    lemma_le_to_u64_of_u64_le(e.term);
    lemma_le_to_u32_of_u32_le(e.version);
    lemma_le_to_u32_of_u32_le(e.flags);
    lemma_le_to_u64_of_u64_le(e.checksum);
    lemma_le_to_u64_of_u64_le(e.timestamp);
    lemma_le_to_u32_of_u32_le(e.user_id);
    lemma_le_to_u32_of_u32_le(e.command.len() as u32);
    lemma_le_to_u32_of_u32_le(e.context.len() as u32);
    assert(le_to_u32(s.subrange(pos + 44, pos + 48)) as int == clen);
    assert(le_to_u32(s.subrange(pos + 48 + clen, pos + 52 + clen)) as int == xlen);
    assert(s.subrange(pos + 48, pos + 48 + clen) == e.command);
    assert(s.subrange(pos + 52 + clen, pos + 52 + clen + xlen) == e.context);
}

/// Reads the entry laid down at `pos`, exactly as `spec_parse_entry`
/// describes it.
pub fn parse_entry(buf: &[u8], pos: usize) -> (r: Option<(LogEntry, usize)>)
    requires
        pos <= buf@.len(),
    ensures
        match r {
            Some((e, end)) => {
                &&& spec_parse_entry(buf@, pos as int) == Some((e@, end as int))
                &&& e.wf()
                &&& pos + ENTRY_MIN_SIZE <= end <= buf@.len()
            },
            None => spec_parse_entry(buf@, pos as int) is None,
        },
{
    proof {
        reveal(spec_parse_entry);
    }
    let n = buf.len();
    if n - pos < ENTRY_FIXED_SIZE {
        return None;
    }
    let index = read_u64_le(buf, pos);
    let term = read_u64_le(buf, pos + 8);
    let version = read_u32_le(buf, pos + 16);
    let flags = read_u32_le(buf, pos + 20);
    let checksum = read_u64_le(buf, pos + 24);
    let timestamp = read_u64_le(buf, pos + 32);
    let user_id = read_u32_le(buf, pos + 40);
    let clen = read_u32_le(buf, pos + 44) as usize;
    let rem = n - (pos + 48);
    if rem < clen || rem - clen < 4 {
        return None;
    }
    let command = copy_range(buf, pos + 48, pos + 48 + clen);
    let xlen = read_u32_le(buf, pos + 48 + clen) as usize;
    let rem2 = n - (pos + 52 + clen);
    if rem2 < xlen {
        return None;
    }
    let context = copy_range(buf, pos + 52 + clen, pos + 52 + clen + xlen);
    let end = pos + 52 + clen + xlen;
    let e = LogEntry { index, term, version, flags, checksum, timestamp, user_id, command,
        context };
    Some((e, end))
}

/// What recovery demands of the entry at position `i` of the log: intact
/// length prefixes, a checksum matching the fields, the index the position
/// calls for, and a timestamp a writer could have set.
pub open spec fn entry_valid(e: LogEntryView, i: nat) -> bool {
    &&& e.wf()
    &&& e.checksum == spec_entry_checksum(e)
    &&& e.index == i
    &&& e.timestamp > 0
}

/// Prefixes already-recovered entries onto the outcome of recovering the
/// rest of a buffer.
pub open spec fn recover_prepend(
    a: Seq<LogEntryView>,
    r: Option<(Seq<LogEntryView>, int)>,
) -> Option<(Seq<LogEntryView>, int)> {
    match r {
        None => None,
        Some((es, keep)) => Some((a + es, keep)),
    }
}

/// The outcome of recovery from byte position `pos` of `s`, the entry
/// there being the `i`th of the log: the recovered entries and the byte
/// position the intact log ends at, or nothing for a corrupt interior
/// entry. An entry that cannot be parsed whole, or fails verification
/// while standing at the very end of the buffer, is treated as a torn
/// write and dropped, together with everything after it; an entry that
/// fails verification with bytes following it is interior corruption.
pub open spec fn spec_recover_from(s: Seq<u8>, pos: int, i: nat) -> Option<(Seq<LogEntryView>,
    int)>
    decreases s.len() - pos,
    via spec_recover_from_decreases
{
    match spec_parse_entry(s, pos) {
        None => Some((seq![], pos)),
        Some((e, end)) => {
            if !entry_valid(e, i) {
                if end == s.len() {
                    Some((seq![], pos))
                } else {
                    None
                }
            } else {
                recover_prepend(seq![e], spec_recover_from(s, end, i + 1))
            }
        }
    }
}

#[via_fn]
proof fn spec_recover_from_decreases(s: Seq<u8>, pos: int, i: nat) {
    reveal(spec_parse_entry);
}

/// Prefixing no entries changes nothing.
proof fn lemma_recover_prepend_empty(r: Option<(Seq<LogEntryView>, int)>)
    ensures
        recover_prepend(Seq::<LogEntryView>::empty(), r) == r,
{
    match r {
        Some((es, keep)) => {
            assert(Seq::<LogEntryView>::empty() + es =~= es);
        }
        None => {}
    }
}

/// Prefixing entries one at a time or all at once comes to the same.
proof fn lemma_recover_prepend_push(
    a: Seq<LogEntryView>,
    e: LogEntryView,
    r: Option<(Seq<LogEntryView>, int)>,
)
    ensures
        recover_prepend(a, recover_prepend(seq![e], r)) == recover_prepend(a.push(e), r),
{
    match r {
        Some((es, keep)) => {
            assert(a + (seq![e] + es) =~= a.push(e) + es);
        }
        None => {}
    }
}

/// A serialized prefix of a run of entries is a byte prefix of the whole
/// run's serialization.
proof fn lemma_serialize_prefix(es: Seq<LogEntryView>, k: int)
    requires
        0 <= k <= es.len(),
    ensures
        serialize_entries(es.subrange(0, k)).len() <= serialize_entries(es).len(),
        serialize_entries(es).subrange(
            0,
            serialize_entries(es.subrange(0, k)).len() as int,
        ) =~= serialize_entries(es.subrange(0, k)),
    decreases es.len(),
{
    if k == es.len() {
        assert(es.subrange(0, k) =~= es);
    } else {
        let es2 = es.drop_last();
        lemma_serialize_prefix(es2, k);
        assert(es2.subrange(0, k) =~= es.subrange(0, k));
        assert(serialize_entries(es) =~= serialize_entries(es2) + entry_bytes(es.last()));
        assert(serialize_entries(es).subrange(0, serialize_entries(es2).len() as int)
            =~= serialize_entries(es2));
        assert(serialize_entries(es).subrange(
            0,
            serialize_entries(es.subrange(0, k)).len() as int,
        ) =~= serialize_entries(es2).subrange(
            0,
            serialize_entries(es2.subrange(0, k)).len() as int,
        ));
    }
}

/// Recovery of a serialized run of valid entries, started just past its
/// first `k` entries, returns exactly the remaining entries and keeps
/// every byte.
proof fn lemma_recover_serialized_from(es: Seq<LogEntryView>, k: int)
    requires
        forall|i: int| 0 <= i < es.len() ==> entry_valid(#[trigger] es[i], i as nat),
        0 <= k <= es.len(),
    ensures
        spec_recover_from(
            serialize_entries(es),
            serialize_entries(es.subrange(0, k)).len() as int,
            k as nat,
        ) == Some((es.subrange(k, es.len() as int), serialize_entries(es).len() as int)),
    decreases es.len() - k,
{
    let s = serialize_entries(es);
    let pos = serialize_entries(es.subrange(0, k)).len() as int;
    lemma_serialize_prefix(es, k);
    if k == es.len() {
        assert(es.subrange(0, k) =~= es);
        assert(pos == s.len());
        assert(spec_parse_entry(s, pos) is None) by {
            reveal(spec_parse_entry);
        }
        let empty = Seq::<LogEntryView>::empty();
        assert(empty =~= seq![]);
        assert(spec_recover_from(s, pos, k as nat) == Some((empty, pos)));
        assert(es.subrange(k, es.len() as int) =~= empty);
    } else {
        let e = es[k];
        assert(entry_valid(e, k as nat));
        lemma_serialize_prefix(es, k + 1);
        let pos2 = serialize_entries(es.subrange(0, k + 1)).len() as int;
        assert(serialize_entries(es.subrange(0, k + 1))
            == serialize_entries(es.subrange(0, k)) + entry_bytes(e)) by {
            assert(es.subrange(0, k + 1).drop_last() =~= es.subrange(0, k));
            assert(es.subrange(0, k + 1).last() == e);
        }
        assert(pos2 == pos + entry_bytes(e).len());
        assert(s.subrange(pos, pos2) =~= entry_bytes(e)) by {
            assert forall|j: int| 0 <= j < pos2 - pos
                implies s.subrange(pos, pos2)[j] == entry_bytes(e)[j] by {
                assert(s.subrange(0, pos2)[pos + j] == s[pos + j]);
                assert(serialize_entries(es.subrange(0, k + 1))[pos + j]
                    == entry_bytes(e)[j]);
            }
        }
        lemma_parse_entry_of_bytes(s, pos, e);
        lemma_recover_serialized_from(es, k + 1);
        assert(spec_recover_from(s, pos, k as nat) == recover_prepend(seq![e],
            spec_recover_from(s, pos2, (k + 1) as nat)));
        assert(seq![e] + es.subrange(k + 1, es.len() as int)
            =~= es.subrange(k, es.len() as int));
    }
}

/// Durability round trip: recovery of the serialization of a run of valid
/// entries returns exactly those entries and keeps every byte.
pub proof fn lemma_recover_serialized(es: Seq<LogEntryView>)
    requires
        forall|i: int| 0 <= i < es.len() ==> entry_valid(#[trigger] es[i], i as nat),
    ensures
        spec_recover_from(serialize_entries(es), 0, 0) == Some((
            es,
            serialize_entries(es).len() as int,
        )),
{
    lemma_recover_serialized_from(es, 0);
    assert(es.subrange(0, 0) =~= seq![]);
    assert(serialize_entries(es.subrange(0, 0)).len() == 0);
    assert(es.subrange(0, es.len() as int) =~= es);
}

/// One recovery step over a valid entry: the prefix grows by the entry,
/// and the serialized prefix tracks the bytes consumed.
proof fn lemma_recover_step_valid(
    s: Seq<u8>,
    pos: int,
    i: nat,
    acc: Seq<LogEntryView>,
    e: LogEntryView,
    end: int,
)
    requires
        spec_parse_entry(s, pos) == Some((e, end)),
        entry_valid(e, i),
        recover_prepend(acc, spec_recover_from(s, pos, i)) == spec_recover_from(s, 0, 0),
        serialize_entries(acc) == s.subrange(0, pos),
        0 <= pos <= s.len(),
    ensures
        recover_prepend(acc.push(e), spec_recover_from(s, end, i + 1)) == spec_recover_from(
            s,
            0,
            0,
        ),
        serialize_entries(acc.push(e)) == s.subrange(0, end),
        pos < end <= s.len(),
{
    lemma_parse_entry_faithful(s, pos);
    assert(spec_recover_from(s, pos, i) == recover_prepend(seq![e],
        spec_recover_from(s, end, i + 1)));
    lemma_recover_prepend_push(acc, e, spec_recover_from(s, end, i + 1));
    assert(serialize_entries(acc.push(e)) == serialize_entries(acc) + entry_bytes(e)) by {
        assert(acc.push(e).drop_last() =~= acc);
        assert(acc.push(e).last() == e);
    }
    lemma_subrange_join(s, 0, pos, end);
}

/// Recovery that stops — on a torn trailing entry, or on an invalid entry
/// standing at the very end — keeps exactly the entries gathered so far.
proof fn lemma_recover_step_stop(s: Seq<u8>, pos: int, i: nat, acc: Seq<LogEntryView>)
    requires
        recover_prepend(acc, spec_recover_from(s, pos, i)) == spec_recover_from(s, 0, 0),
        spec_parse_entry(s, pos) is None || (spec_parse_entry(s, pos) matches Some((e, end))
            && !entry_valid(e, i) && end == s.len()),
    ensures
        spec_recover_from(s, 0, 0) == Some((acc, pos)),
{
    let empty = Seq::<LogEntryView>::empty();
    assert(empty =~= seq![]);
    assert(spec_recover_from(s, pos, i) == Some((empty, pos)));
    assert(acc + empty =~= acc);
}

/// Recovery that meets an invalid entry with bytes after it reports the
/// whole log corrupt.
proof fn lemma_recover_step_corrupt(s: Seq<u8>, pos: int, i: nat, acc: Seq<LogEntryView>)
    requires
        recover_prepend(acc, spec_recover_from(s, pos, i)) == spec_recover_from(s, 0, 0),
        spec_parse_entry(s, pos) matches Some((e, end)) && !entry_valid(e, i)
            && end != s.len(),
    ensures
        spec_recover_from(s, 0, 0) is None,
{
    assert(spec_recover_from(s, pos, i) is None);
}

/// Appends the serialized bytes of `e`.
pub fn write_entry(out: &mut Vec<u8>, e: &LogEntry)
    requires
        e.wf(),
    ensures
        final(out)@ == old(out)@ + entry_bytes(e@),
{
    proof {
        reveal(entry_bytes);
    }
    write_u64_le(out, e.index);
    write_u64_le(out, e.term);
    write_u32_le(out, e.version);
    write_u32_le(out, e.flags);
    write_u64_le(out, e.checksum);
    write_u64_le(out, e.timestamp);
    write_u32_le(out, e.user_id);
    write_u32_le(out, e.command.len() as u32);
    write_bytes(out, e.command.as_slice());
    write_u32_le(out, e.context.len() as u32);
    write_bytes(out, e.context.as_slice());
    assert(out@ =~= old(out)@ + entry_bytes(e@));
}

/// The entries with their commands carried back to the form the codec
/// produced: every other field kept, the command bytes untransformed.
pub open spec fn decrypt_entries(enc: Encryptor, es: Seq<LogEntryView>) -> Seq<LogEntryView> {
    es.map_values(
        |e: LogEntryView|
            LogEntryView {
                index: e.index,
                term: e.term,
                version: e.version,
                flags: e.flags,
                checksum: e.checksum,
                timestamp: e.timestamp,
                user_id: e.user_id,
                command: spec_transform(enc, e.command),
                context: e.context,
            },
    )
}

/// Copies every entry, untransforming its command bytes.
fn decrypt_all(enc: &Encryptor, src: &Vec<LogEntry>) -> (r: Vec<LogEntry>)
    ensures
        views_of_entries(r@) == decrypt_entries(*enc, views_of_entries(src@)),
{
    let mut r: Vec<LogEntry> = Vec::new();
    let mut i: usize = 0;
    while i < src.len()
        invariant
            i <= src@.len(),
            r@.len() == i,
            forall|k: int| 0 <= k < i
                ==> views_of_entries(r@)[k]
                    == decrypt_entries(*enc, views_of_entries(src@))[k],
        decreases src@.len() - i,
    {
        let e = &src[i];
        let d = LogEntry {
            index: e.index,
            term: e.term,
            version: e.version,
            flags: e.flags,
            checksum: e.checksum,
            timestamp: e.timestamp,
            user_id: e.user_id,
            command: enc.decrypt(e.command.as_slice()),
            context: copy_range(e.context.as_slice(), 0, e.context.len()),
        };
        proof {
            assert(e.context@.subrange(0, e.context@.len() as int) =~= e.context@);
        }
        let ghost prev = views_of_entries(r@);
        r.push(d);
        i = i + 1;
        proof {
            assert(views_of_entries(r@) =~= prev.push(d@));
            assert(views_of_entries(src@)[i - 1] == src@[i - 1]@);
            assert(d@ == decrypt_entries(*enc, views_of_entries(src@))[i - 1]);
        }
    }
    assert(views_of_entries(r@) =~= decrypt_entries(*enc, views_of_entries(src@)));
    r
}

/// Mathematical model of the log: its entries as persisted, the bytes of
/// the durable medium, and the counters the lifecycle establishes.
pub struct StateView {
    /// The persisted entries, commands in their stored (possibly
    /// transformed) form.
    pub entries: Seq<LogEntryView>,
    /// Whether `init` has run.
    pub initialized: bool,
    /// Index of the last entry; zero for an empty log.
    pub current_index: u64,
    /// Number of entries.
    pub entries_count: u64,
    /// Logical epoch new entries are stamped with.
    pub term: u64,
    /// Log-format version new entries are stamped with.
    pub version: u32,
    /// Transform applied to command bytes around persistence.
    pub encryptor: Encryptor,
    /// The bytes of the durable medium.
    pub buffer: Seq<u8>,
}

impl StateView {
    /// The log is initialized, its medium holds exactly the serialization
    /// of its entries, every entry is valid at its position, and the
    /// counters agree with the entries.
    pub open spec fn wf(self) -> bool {
        &&& self.initialized
        &&& self.buffer == serialize_entries(self.entries)
        &&& forall|i: int| 0 <= i < self.entries.len()
            ==> entry_valid(#[trigger] self.entries[i], i as nat)
        &&& self.entries_count == self.entries.len()
        &&& self.current_index == if self.entries.len() == 0 {
            0
        } else {
            self.entries.len() - 1
        }
    }
}

/// The indices of a well-formed log form the contiguous run `0 .. count`
/// with no gap and no duplicate: after `k` successful `apply` calls on an
/// initially empty log the entries carry the indices `0 .. k-1`,
/// `entries_count` is `k`, and `current_index` is `k - 1`.
pub proof fn lemma_log_indices_contiguous(v: StateView)
    requires
        v.wf(),
    ensures
        forall|i: int| 0 <= i < v.entries.len() ==> (#[trigger] v.entries[i]).index == i,
        v.entries_count == v.entries.len(),
        v.entries.len() > 0 ==> v.current_index == v.entries.len() - 1,
{
    assert forall|i: int| 0 <= i < v.entries.len()
        implies (#[trigger] v.entries[i]).index == i by {
        assert(entry_valid(v.entries[i], i as nat));
    }
}

/// A well-formed log's medium recovers whole: `init` run over the bytes a
/// run of `apply` calls wrote returns exactly the entries they appended,
/// truncating nothing.
pub proof fn lemma_recovery_round_trip(v: StateView)
    requires
        v.wf(),
    ensures
        spec_recover_from(v.buffer, 0, 0) == Some((v.entries, v.buffer.len() as int)),
{
    lemma_recover_serialized(v.entries);
}

/// The state log. Its durable medium is a byte buffer the caller persists
/// and hands back; `init` recovers from it, `apply` appends to it.
pub struct State {
    buffer: Vec<u8>,
    entries: Vec<LogEntry>,
    initialized: bool,
    current_index: u64,
    entries_count: u64,
    term: u64,
    version: u32,
    encryptor: Encryptor,
}

impl View for State {
    type V = StateView;

    closed spec fn view(&self) -> StateView {
        StateView {
            entries: views_of_entries(self.entries@),
            initialized: self.initialized,
            current_index: self.current_index,
            entries_count: self.entries_count,
            term: self.term,
            version: self.version,
            encryptor: self.encryptor,
            buffer: self.buffer@,
        }
    }
}

impl State {
    /// A log over a fresh, empty medium; `init` must run before use.
    pub fn new(version: u32, encryptor: Encryptor) -> (r: State)
        ensures
            !r@.initialized,
            r@.buffer == Seq::<u8>::empty(),
            r@.entries == Seq::<LogEntryView>::empty(),
            r@.version == version,
            r@.encryptor == encryptor,
            r@.term == 0,
            r@.entries_count == 0,
            r@.current_index == 0,
    {
        let r = State {
            buffer: Vec::new(),
            entries: Vec::new(),
            initialized: false,
            current_index: 0,
            entries_count: 0,
            term: 0,
            version,
            encryptor,
        };
        proof {
            assert(views_of_entries(r.entries@) =~= Seq::<LogEntryView>::empty());
        }
        r
    }

    /// A log over a previously persisted medium; `init` must run before
    /// use.
    pub fn from_bytes(bytes: Vec<u8>, version: u32, encryptor: Encryptor) -> (r: State)
        ensures
            !r@.initialized,
            r@.buffer == bytes@,
            r@.entries == Seq::<LogEntryView>::empty(),
            r@.version == version,
            r@.encryptor == encryptor,
            r@.term == 0,
            r@.entries_count == 0,
            r@.current_index == 0,
    {
        let r = State {
            buffer: bytes,
            entries: Vec::new(),
            initialized: false,
            current_index: 0,
            entries_count: 0,
            term: 0,
            version,
            encryptor,
        };
        proof {
            assert(views_of_entries(r.entries@) =~= Seq::<LogEntryView>::empty());
        }
        r
    }

    /// Recovers the log from its medium: reads entries in order, verifies
    /// each, truncates a torn or corrupt trailing entry, fails on interior
    /// corruption, establishes the counters, and returns the recovered
    /// entries with their commands untransformed, ready for replay.
    #[verifier::rlimit(100)]
    pub fn init(&mut self) -> (r: Result<Vec<LogEntry>, StateError>)
        requires
            !old(self)@.initialized,
        ensures
            match r {
                Ok(v) => {
                    &&& spec_recover_from(old(self)@.buffer, 0, 0) matches Some((es, keep))
                        && final(self)@.entries == es
                        && final(self)@.buffer == old(self)@.buffer.subrange(0, keep)
                        && views_of_entries(v@) == decrypt_entries(old(self)@.encryptor, es)
                        && final(self)@.term == (if es.len() == 0 {
                            0
                        } else {
                            es.last().term
                        })
                    &&& final(self)@.wf()
                    &&& final(self)@.version == old(self)@.version
                    &&& final(self)@.encryptor == old(self)@.encryptor
                },
                Err(e) => {
                    &&& e == StateError::Corrupted
                    &&& spec_recover_from(old(self)@.buffer, 0, 0) is None
                    &&& final(self)@ == old(self)@
                },
            },
    {
        let ghost s = self.buffer@;
        let n = self.buffer.len();
        let mut entries: Vec<LogEntry> = Vec::new();
        let mut pos: usize = 0;
        let mut scanning = true;
        let mut corrupt = false;
        proof {
            lemma_recover_prepend_empty(spec_recover_from(s, 0, 0));
            assert(views_of_entries(entries@) =~= Seq::<LogEntryView>::empty());
            assert(serialize_entries(views_of_entries(entries@)) =~= s.subrange(0, 0));
        }
        while scanning
            invariant
                *self == *old(self),
                n == s.len(),
                s == self.buffer@,
                pos <= n,
                forall|k: int| 0 <= k < entries@.len()
                    ==> entry_valid(#[trigger] views_of_entries(entries@)[k], k as nat),
                serialize_entries(views_of_entries(entries@)) == s.subrange(0, pos as int),
                scanning ==> !corrupt,
                scanning ==> recover_prepend(
                    views_of_entries(entries@),
                    spec_recover_from(s, pos as int, entries@.len() as nat),
                ) == spec_recover_from(s, 0, 0),
                !scanning && !corrupt ==> spec_recover_from(s, 0, 0)
                    == Some((views_of_entries(entries@), pos as int)),
                !scanning && corrupt ==> spec_recover_from(s, 0, 0) is None,
            decreases (if scanning { 1int } else { 0int }), n - pos,
        {
            let ghost acc = views_of_entries(entries@);
            let ghost i = entries@.len() as nat;
            match parse_entry(self.buffer.as_slice(), pos) {
                None => {
                    proof {
                        lemma_recover_step_stop(s, pos as int, i, acc);
                    }
                    scanning = false;
                }
                Some((e, end)) => {
                    let ck = compute_checksum(e.index, e.term, e.version, e.user_id,
                        e.timestamp, e.command.as_slice());
                    let valid = ck == e.checksum && e.index == entries.len() as u64
                        && e.timestamp > 0;
                    if valid {
                        proof {
                            assert(entry_valid(e@, i));
                            lemma_recover_step_valid(s, pos as int, i, acc, e@, end as int);
                            assert(views_of_entries(entries@.push(e)) =~= acc.push(e@));
                            assert forall|k: int| 0 <= k < acc.push(e@).len()
                                implies entry_valid(#[trigger] acc.push(e@)[k], k as nat) by {
                                if k < acc.len() {
                                    assert(acc.push(e@)[k] == acc[k]);
                                    assert(entry_valid(views_of_entries(entries@)[k], k as nat));
                                } else {
                                    assert(acc.push(e@)[k] == e@);
                                }
                            }
                        }
                        entries.push(e);
                        pos = end;
                    } else if end == n {
                        proof {
                            assert(!entry_valid(e@, i));
                            lemma_recover_step_stop(s, pos as int, i, acc);
                        }
                        scanning = false;
                    } else {
                        proof {
                            assert(!entry_valid(e@, i));
                            lemma_recover_step_corrupt(s, pos as int, i, acc);
                        }
                        scanning = false;
                        corrupt = true;
                    }
                }
            }
        }
        if corrupt {
            return Err(StateError::Corrupted);
        }
        self.buffer.truncate(pos);
        let count = entries.len();
        self.entries_count = count as u64;
        self.current_index = if count == 0 {
            0
        } else {
            (count - 1) as u64
        };
        self.term = if count == 0 {
            0
        } else {
            entries[count - 1].term
        };
        let result = decrypt_all(&self.encryptor, &entries);
        self.entries = entries;
        self.initialized = true;
        proof {
            assert(self@.entries.len() > 0 ==> self@.entries.last()
                == views_of_entries(self.entries@)[self.entries@.len() - 1]);
        }
        Ok(result)
    }

    /// Appends exactly one entry: the command's encoded bytes, transformed
    /// by the configured encryptor, stamped with the next index, the
    /// current term and version, the issuing user and the present time,
    /// and protected by a checksum over those fields; the counters change
    /// only with the write.
    pub fn apply(&mut self, user_id: u32, command: &Command) -> (r: Result<(), StateError>)
        requires
            old(self)@.wf(),
            command@.wf(),
        ensures
            r is Ok,
            final(self)@.wf(),
            final(self)@.entries.len() == old(self)@.entries.len() + 1,
            final(self)@.entries == old(self)@.entries.push(final(self)@.entries.last()),
            ({
                let e = final(self)@.entries.last();
                &&& e.index == old(self)@.entries.len()
                &&& e.term == old(self)@.term
                &&& e.version == old(self)@.version
                &&& e.flags == 0
                &&& e.user_id == user_id
                &&& e.command == spec_transform(old(self)@.encryptor, spec_encode(command@))
                &&& e.context == Seq::<u8>::empty()
                &&& e.checksum == spec_entry_checksum(e)
                &&& e.checksum > 0
                &&& e.timestamp > 0
            }),
            final(self)@.entries_count == old(self)@.entries_count + 1,
            final(self)@.current_index == old(self)@.entries.len(),
            final(self)@.buffer == old(self)@.buffer
                + entry_bytes(final(self)@.entries.last()),
            final(self)@.term == old(self)@.term,
            final(self)@.version == old(self)@.version,
            final(self)@.encryptor == old(self)@.encryptor,
    {
        let _buffer_len: usize = self.buffer.len();
        proof {
            lemma_serialize_entries_len(self@.entries);
            lemma_encode_len_bound(command@);
            assert(ENTRY_MIN_SIZE * self@.entries.len() <= usize::MAX);
            assert(self@.entries.len() < u64::MAX);
        }
        let cmd_bytes = command.encode();
        let payload = self.encryptor.encrypt(cmd_bytes.as_slice());
        let timestamp = now_micros();
        let index = if self.entries_count == 0 {
            0
        } else {
            self.current_index + 1
        };
        let checksum = compute_checksum(index, self.term, self.version, user_id, timestamp,
            payload.as_slice());
        let entry = LogEntry {
            index,
            term: self.term,
            version: self.version,
            flags: 0,
            checksum,
            timestamp,
            user_id,
            command: payload,
            context: Vec::new(),
        };
        let ghost acc = views_of_entries(self.entries@);
        let ghost ev = entry@;
        write_entry(&mut self.buffer, &entry);
        self.entries.push(entry);
        self.entries_count = self.entries_count + 1;
        self.current_index = index;
        proof {
            assert(views_of_entries(self.entries@) =~= acc.push(ev));
            assert(serialize_entries(acc.push(ev)) == serialize_entries(acc) + entry_bytes(ev))
                by {
                assert(acc.push(ev).drop_last() =~= acc);
                assert(acc.push(ev).last() == ev);
            }
            assert(entry_valid(ev, acc.len()));
            assert forall|k: int| 0 <= k < acc.push(ev).len()
                implies entry_valid(#[trigger] acc.push(ev)[k], k as nat) by {
                if k < acc.len() {
                    assert(acc.push(ev)[k] == acc[k]);
                } else {
                    assert(acc.push(ev)[k] == ev);
                }
            }
        }
        Ok(())
    }

    /// Every entry the medium holds, in ascending index order, commands
    /// untransformed; empty for an empty log. Every returned entry carries
    /// a positive checksum and a positive timestamp.
    pub fn load_entries(&self) -> (r: Result<Vec<LogEntry>, StateError>)
        requires
            self@.wf(),
        ensures
            match r {
                Ok(v) => {
                    &&& views_of_entries(v@) == decrypt_entries(self@.encryptor, self@.entries)
                    &&& v@.len() == self@.entries.len()
                    &&& forall|i: int| 0 <= i < v@.len()
                        ==> (#[trigger] v@[i])@.checksum > 0 && v@[i]@.timestamp > 0
                },
                Err(_) => false,
            },
    {
        let r = decrypt_all(&self.encryptor, &self.entries);
        proof {
            assert(views_of_entries(r@).len() == r@.len());
            assert(decrypt_entries(self@.encryptor, self@.entries).len()
                == self@.entries.len());
            assert forall|i: int| 0 <= i < r@.len()
                implies (#[trigger] r@[i])@.checksum > 0 && r@[i]@.timestamp > 0 by {
                assert(0 <= i < self@.entries.len());
                assert(entry_valid(self@.entries[i], i as nat));
                lemma_checksum_nonzero(self@.entries[i]);
                assert(views_of_entries(r@)[i] == r@[i]@);
                assert(r@[i]@ == decrypt_entries(self@.encryptor, self@.entries)[i]);
            }
        }
        Ok(r)
    }

    /// Index of the last entry; zero for an empty log.
    pub fn current_index(&self) -> (r: u64)
        ensures
            r == self@.current_index,
    {
        self.current_index
    }

    /// Number of entries in the log.
    pub fn entries_count(&self) -> (r: u64)
        ensures
            r == self@.entries_count,
    {
        self.entries_count
    }

    /// The logical epoch new entries are stamped with.
    pub fn term(&self) -> (r: u64)
        ensures
            r == self@.term,
    {
        self.term
    }

    /// The log-format version new entries are stamped with.
    pub fn version(&self) -> (r: u32)
        ensures
            r == self@.version,
    {
        self.version
    }

    /// The bytes of the durable medium, for the caller to persist.
    pub fn persisted_bytes(&self) -> (r: &Vec<u8>)
        ensures
            r@ == self@.buffer,
    {
        &self.buffer
    }
}

} // verus!
