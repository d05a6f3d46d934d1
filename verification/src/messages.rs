//! The message frame codec: the length-prefixed binary format a poll response
//! carries messages in. A response is a fixed four-byte reserved header
//! followed by frames; each frame is a 24-byte property block — offset,
//! timestamp and payload length, little-endian — followed by the payload.

use vstd::prelude::*;
use vstd::multiset::Multiset;
use crate::bytes::{copy_range, le_to_u64, read_u64_le, u64_le, write_bytes, write_u64_le,
    lemma_le_to_u64_of_u64_le};
use crate::Error;

verus! {

/// Size of the reserved leading header of a poll response.
pub const HEADER_SIZE: usize = 4;

/// Size of the fixed property block that opens each frame.
pub const PROPERTIES_SIZE: usize = 24;

/// One message of a poll response.
pub struct Message {
    /// Position of the message within its partition's data log.
    pub offset: u64,
    /// Microseconds since the epoch.
    pub timestamp: u64,
    /// Size of the payload in bytes.
    pub length: u64,
    /// The opaque payload.
    pub payload: Vec<u8>,
}

/// Mathematical model of a message.
pub struct MessageView {
    pub offset: u64,
    pub timestamp: u64,
    pub length: u64,
    pub payload: Seq<u8>,
}

impl View for Message {
    type V = MessageView;

    open spec fn view(&self) -> MessageView {
        MessageView {
            offset: self.offset,
            timestamp: self.timestamp,
            length: self.length,
            payload: self.payload@,
        }
    }
}

impl MessageView {
    /// The declared length matches the payload.
    pub open spec fn wf(self) -> bool {
        self.length == self.payload.len()
    }
}

impl Message {
    /// The declared length matches the payload.
    pub open spec fn wf(self) -> bool {
        self@.wf()
    }
}

/// The models of a sequence of messages.
pub open spec fn views_of(s: Seq<Message>) -> Seq<MessageView> {
    s.map_values(|m: Message| m@)
}

/// Ascending offsets.
pub open spec fn sorted_by_offset(s: Seq<MessageView>) -> bool {
    forall|i: int, j: int| 0 <= i < j < s.len() ==> s[i].offset <= s[j].offset
}

/// The frames held by `s` from byte position `pos` on: frames are read in
/// order until one's property block or declared payload would run past the
/// end of the buffer; everything from the first such truncated frame on is
/// dropped.
pub open spec fn parse_frames_from(s: Seq<u8>, pos: int) -> Seq<MessageView>
    decreases s.len() - pos,
{
    if pos < 0 || pos + PROPERTIES_SIZE > s.len() {
        seq![]
    } else {
        let offset = le_to_u64(s.subrange(pos, pos + 8));
        let timestamp = le_to_u64(s.subrange(pos + 8, pos + 16));
        let length = le_to_u64(s.subrange(pos + 16, pos + 24));
        if pos + PROPERTIES_SIZE + length > s.len() {
            seq![]
        } else {
            let payload = s.subrange(pos + 24, pos + 24 + length);
            seq![MessageView { offset, timestamp, length, payload }]
                + parse_frames_from(s, pos + 24 + length)
        }
    }
}

/// The frames held by a whole poll-response buffer: none for an empty
/// buffer, else those following the reserved header.
pub open spec fn frames_of(s: Seq<u8>) -> Seq<MessageView> {
    if s.len() == 0 {
        seq![]
    } else {
        parse_frames_from(s, HEADER_SIZE as int)
    }
}

/// Decodes a poll-response buffer into its messages, ordered ascending by
/// offset whatever their on-wire order. A trailing truncated frame is
/// dropped, never an error; an empty buffer holds no messages.
pub fn handle_response(response: &[u8]) -> (r: Result<Vec<Message>, Error>)
    ensures
        r is Ok,
        match r {
            Ok(v) => {
                &&& views_of(v@).to_multiset() == frames_of(response@).to_multiset()
                &&& sorted_by_offset(views_of(v@))
                &&& forall|i: int| 0 <= i < v@.len() ==> (#[trigger] v@[i])@.wf()
            },
            Err(_) => false,
        },
{
    let n = response.len();
    let mut messages: Vec<Message> = Vec::new();
    if n == 0 {
        assert(views_of(messages@) =~= frames_of(response@));
        return Ok(messages);
    }
    let ghost s = response@;
    let mut pos: usize = HEADER_SIZE;
    if n < HEADER_SIZE {
        assert(parse_frames_from(s, HEADER_SIZE as int) =~= seq![]);
        assert(views_of(messages@) =~= frames_of(response@));
        return Ok(sort_messages(messages));
    }
    while n - pos >= PROPERTIES_SIZE
        invariant
            HEADER_SIZE <= pos <= n,
            n == s.len(),
            response@ == s,
            frames_of(s) =~= views_of(messages@) + parse_frames_from(s, pos as int),
            forall|i: int| 0 <= i < messages@.len() ==> (#[trigger] messages@[i])@.wf(),
        decreases n - pos,
    {
        let offset = read_u64_le(response, pos);
        let timestamp = read_u64_le(response, pos + 8);
        let length = read_u64_le(response, pos + 16);
        let avail = n - (pos + PROPERTIES_SIZE);
        if length > avail as u64 {
            proof {
                assert(pos + PROPERTIES_SIZE + length > s.len());
                assert(parse_frames_from(s, pos as int) =~= seq![]);
                assert(views_of(messages@) =~= frames_of(s));
            }
            return Ok(sort_messages(messages));
        }
        let plen = length as usize;
        let payload = copy_range(response, pos + PROPERTIES_SIZE, pos + PROPERTIES_SIZE + plen);
        let m = Message { offset, timestamp, length, payload };
        let ghost old_pos = pos as int;
        let ghost old_views = views_of(messages@);
        messages.push(m);
        pos = pos + PROPERTIES_SIZE + plen;
        proof {
            assert(parse_frames_from(s, old_pos) =~= seq![m@] + parse_frames_from(s, pos as int));
            assert(views_of(messages@) =~= old_views.push(m@));
            assert(views_of(messages@) + parse_frames_from(s, pos as int)
                =~= old_views + parse_frames_from(s, old_pos));
        }
    }
    proof {
        assert(parse_frames_from(s, pos as int) =~= seq![]);
        assert(views_of(messages@) =~= frames_of(s));
    }
    Ok(sort_messages(messages))
}

/// Reorders messages ascending by offset; the messages themselves are kept,
/// as a multiset.
pub fn sort_messages(input: Vec<Message>) -> (r: Vec<Message>)
    ensures
        views_of(r@).to_multiset() == views_of(input@).to_multiset(),
        sorted_by_offset(views_of(r@)),
        (forall|i: int| 0 <= i < input@.len() ==> (#[trigger] input@[i])@.wf())
            ==> forall|i: int| 0 <= i < r@.len() ==> (#[trigger] r@[i])@.wf(),
{
    broadcast use vstd::seq_lib::group_to_multiset_ensures;

    let ghost orig = views_of(input@);
    let ghost orig_wf = forall|i: int| 0 <= i < input@.len() ==> (#[trigger] input@[i])@.wf();
    let mut rest = input;
    let mut out: Vec<Message> = Vec::new();
    while rest.len() > 0
        invariant
            views_of(out@).to_multiset().add(views_of(rest@).to_multiset())
                == orig.to_multiset(),
            sorted_by_offset(views_of(out@)),
            orig_wf == (forall|i: int| 0 <= i < input@.len()
                ==> (#[trigger] input@[i])@.wf()),
            orig_wf ==> forall|i: int| 0 <= i < rest@.len() ==> (#[trigger] rest@[i])@.wf(),
            orig_wf ==> forall|i: int| 0 <= i < out@.len() ==> (#[trigger] out@[i])@.wf(),
            orig == views_of(input@),
        decreases rest@.len(),
    {
        let ghost rest_views = views_of(rest@);
        let m = rest.pop().unwrap();
        proof {
            assert(rest_views =~= views_of(rest@).push(m@));
            vstd::seq_lib::to_multiset_build(views_of(rest@), m@);
            assert(rest_views.to_multiset() == views_of(rest@).to_multiset().insert(m@));
        }
        insert_sorted(&mut out, m);
    }
    proof {
        assert(views_of(rest@).to_multiset() =~= Multiset::<MessageView>::empty());
        assert(views_of(out@).to_multiset() =~= orig.to_multiset());
    }
    out
}

/// Inserts one message into a sorted vector, keeping it sorted.
fn insert_sorted(out: &mut Vec<Message>, m: Message)
    requires
        sorted_by_offset(views_of(old(out)@)),
    ensures
        views_of(final(out)@).to_multiset()
            == views_of(old(out)@).to_multiset().insert(m@),
        sorted_by_offset(views_of(final(out)@)),
        final(out)@.len() == old(out)@.len() + 1,
        (forall|i: int| 0 <= i < old(out)@.len() ==> (#[trigger] old(out)@[i])@.wf()) && m@.wf()
            ==> forall|i: int| 0 <= i < final(out)@.len() ==> (#[trigger] final(out)@[i])@.wf(),
{
    broadcast use vstd::seq_lib::group_to_multiset_ensures;

    let mut idx: usize = 0;
    while idx < out.len() && out[idx].offset <= m.offset
        invariant
            idx <= out@.len(),
            forall|k: int| 0 <= k < idx ==> (#[trigger] views_of(out@)[k]).offset <= m@.offset,
            out@ == old(out)@,
        decreases out@.len() - idx,
    {
        idx = idx + 1;
    }
    let ghost before = views_of(out@);
    out.insert(idx, m);
    proof {
        assert(views_of(out@) =~= before.insert(idx as int, m@));
        assert(views_of(out@).to_multiset() == before.to_multiset().insert(m@));
        assert forall|i: int, j: int| 0 <= i < j < views_of(out@).len()
            implies (#[trigger] views_of(out@)[i]).offset
                <= (#[trigger] views_of(out@)[j]).offset by {
            let v = views_of(out@);
            if j < idx {
            } else if i < idx && j == idx {
            } else if i == idx {
                assert(v[j] == before[j - 1]);
                if idx < before.len() {
                    assert(before[idx as int].offset > m@.offset || idx == before.len());
                }
            } else {
            }
        }
    }
}

/// Encodes messages into a poll-response buffer: the reserved header, then
/// one frame per message in the given order.
pub open spec fn spec_encode_messages(s: Seq<MessageView>) -> Seq<u8>
    decreases s.len(),
{
    if s.len() == 0 {
        seq![0u8, 0u8, 0u8, 0u8]
    } else {
        spec_encode_messages(s.drop_last()) + frame_bytes(s.last())
    }
}

/// The bytes of one frame: the 24-byte property block, then the payload.
pub open spec fn frame_bytes(m: MessageView) -> Seq<u8> {
    u64_le(m.offset) + u64_le(m.timestamp) + u64_le(m.length) + m.payload
}

/// Serializes messages into a poll-response buffer, one frame per message in
/// the given order after the reserved header.
pub fn encode_messages(messages: &Vec<Message>) -> (r: Vec<u8>)
    requires
        forall|i: int| 0 <= i < messages@.len() ==> (#[trigger] messages@[i])@.wf(),
    ensures
        r@ == spec_encode_messages(views_of(messages@)),
{
    let mut out: Vec<u8> = Vec::new();
    out.push(0);
    out.push(0);
    out.push(0);
    out.push(0);
    assert(out@ =~= spec_encode_messages(views_of(messages@).subrange(0, 0)));
    let mut i: usize = 0;
    while i < messages.len()
        invariant
            i <= messages@.len(),
            forall|k: int| 0 <= k < messages@.len() ==> (#[trigger] messages@[k])@.wf(),
            out@ == spec_encode_messages(views_of(messages@).subrange(0, i as int)),
        decreases messages@.len() - i,
    {
        let m = &messages[i];
        let ghost prefix = views_of(messages@).subrange(0, i as int);
        write_u64_le(&mut out, m.offset);
        write_u64_le(&mut out, m.timestamp);
        write_u64_le(&mut out, m.length);
        write_bytes(&mut out, m.payload.as_slice());
        i = i + 1;
        proof {
            let prefix2 = views_of(messages@).subrange(0, i as int);
            assert(prefix2.drop_last() =~= prefix);
            assert(prefix2.last() == messages@[i - 1]@);
            assert(out@ =~= spec_encode_messages(prefix2));
        }
    }
    proof {
        assert(views_of(messages@).subrange(0, messages@.len() as int) =~= views_of(messages@));
    }
    out
}

/// Decoding an encoded poll response gives back exactly the encoded
/// messages, in their given order, whenever each message's declared length
/// matches its payload.
pub proof fn lemma_frames_round_trip(s: Seq<MessageView>)
    requires
        forall|i: int| 0 <= i < s.len() ==> (#[trigger] s[i]).wf(),
    ensures
        frames_of(spec_encode_messages(s)) == s,
{
    lemma_parse_encoded(s, 0);
    lemma_encode_len(s);
    assert(s.subrange(0, 0) =~= Seq::<MessageView>::empty());
    assert(spec_encode_messages(s.subrange(0, 0)).len() == 4);
    assert(s.subrange(0, s.len() as int) =~= s);
    assert(frames_of(spec_encode_messages(s)) =~= s);
}

/// Parsing an encoded buffer from the end of its first `k` frames yields the
/// remaining frames.
proof fn lemma_parse_encoded(s: Seq<MessageView>, k: int)
    requires
        forall|i: int| 0 <= i < s.len() ==> (#[trigger] s[i]).wf(),
        0 <= k <= s.len(),
    ensures
        parse_frames_from(spec_encode_messages(s), spec_encode_messages(s.subrange(0, k)).len() as int)
            =~= s.subrange(k, s.len() as int),
    decreases s.len() - k,
{
    let e = spec_encode_messages(s);
    let pos = spec_encode_messages(s.subrange(0, k)).len() as int;
    lemma_encode_prefix(s, k);
    if k == s.len() {
        assert(s.subrange(0, k) =~= s);
        assert(pos == e.len());
        assert(parse_frames_from(e, pos) =~= seq![]);
        assert(s.subrange(k, s.len() as int) =~= Seq::<MessageView>::empty());
    } else {
        let m = s[k];
        lemma_encode_prefix(s, k + 1);
        let pos2 = spec_encode_messages(s.subrange(0, k + 1)).len() as int;
        assert(spec_encode_messages(s.subrange(0, k + 1))
            == spec_encode_messages(s.subrange(0, k)) + frame_bytes(m)) by {
            assert(s.subrange(0, k + 1).drop_last() =~= s.subrange(0, k));
            assert(s.subrange(0, k + 1).last() == m);
        }
        assert(pos2 == pos + 24 + m.payload.len());
        assert(e.subrange(0, pos2) == spec_encode_messages(s.subrange(0, k + 1)));
        assert(e.subrange(pos, pos2) =~= frame_bytes(m)) by {
            assert forall|j: int| 0 <= j < pos2 - pos
                implies e.subrange(pos, pos2)[j] == frame_bytes(m)[j] by {
                assert(e.subrange(pos, pos2)[j] == e[pos + j]);
                assert(e.subrange(0, pos2)[pos + j] == e[pos + j]);
                assert(spec_encode_messages(s.subrange(0, k + 1))[pos + j]
                    == frame_bytes(m)[j]);
            }
        }
        let fb = frame_bytes(m);
        assert(e.subrange(pos, pos + 8) =~= fb.subrange(0, 8));
        assert(fb.subrange(0, 8) =~= u64_le(m.offset));
        lemma_le_to_u64_of_u64_le(m.offset);
        assert(e.subrange(pos + 8, pos + 16) =~= fb.subrange(8, 16));
        assert(fb.subrange(8, 16) =~= u64_le(m.timestamp));
        lemma_le_to_u64_of_u64_le(m.timestamp);
        assert(e.subrange(pos + 16, pos + 24) =~= fb.subrange(16, 24));
        assert(fb.subrange(16, 24) =~= u64_le(m.length));
        lemma_le_to_u64_of_u64_le(m.length);
        assert(e.subrange(pos + 24, pos + 24 + m.length) =~= fb.subrange(24, 24 + m.length));
        assert(fb.subrange(24, 24 + m.length) =~= m.payload);
        lemma_parse_encoded(s, k + 1);
        assert(parse_frames_from(e, pos)
            =~= seq![m] + parse_frames_from(e, pos + 24 + m.length));
        assert(seq![m] + s.subrange(k + 1, s.len() as int) =~= s.subrange(k, s.len() as int));
    }
}

/// The encoding of a prefix of `s` is a prefix of the encoding of `s`.
proof fn lemma_encode_prefix(s: Seq<MessageView>, k: int)
    requires
        0 <= k <= s.len(),
    ensures
        spec_encode_messages(s.subrange(0, k)).len()
            <= spec_encode_messages(s).len(),
        spec_encode_messages(s).subrange(
            0,
            spec_encode_messages(s.subrange(0, k)).len() as int,
        ) =~= spec_encode_messages(s.subrange(0, k)),
        spec_encode_messages(s.subrange(0, k)).len() == 4 + frames_len(s.subrange(0, k)),
        spec_encode_messages(s).len() == 4 + frames_len(s),
    decreases s.len(),
{
    lemma_encode_len(s);
    lemma_encode_len(s.subrange(0, k));
    if k == s.len() {
        assert(s.subrange(0, k) =~= s);
    } else {
        let s2 = s.drop_last();
        lemma_encode_prefix(s2, k);
        assert(s2.subrange(0, k) =~= s.subrange(0, k));
        lemma_encode_len(s2);
        assert(spec_encode_messages(s) =~= spec_encode_messages(s2) + frame_bytes(s.last()));
        assert(spec_encode_messages(s).subrange(0, spec_encode_messages(s2).len() as int)
            =~= spec_encode_messages(s2));
        assert(spec_encode_messages(s).subrange(
            0,
            spec_encode_messages(s.subrange(0, k)).len() as int,
        ) =~= spec_encode_messages(s2).subrange(
            0,
            spec_encode_messages(s2.subrange(0, k)).len() as int,
        ));
    }
}

/// Total size of the frames of `s`.
pub open spec fn frames_len(s: Seq<MessageView>) -> int
    decreases s.len(),
{
    if s.len() == 0 {
        0
    } else {
        frames_len(s.drop_last()) + 24 + s.last().payload.len()
    }
}

/// The length of an encoded poll response is the header plus its frames.
proof fn lemma_encode_len(s: Seq<MessageView>)
    ensures
        spec_encode_messages(s).len() == 4 + frames_len(s),
        frames_len(s) >= 0,
    decreases s.len(),
{
    if s.len() > 0 {
        lemma_encode_len(s.drop_last());
    }
}

} // verus!
