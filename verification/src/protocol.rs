//! What peers say to each other, and how their messages are told apart in a stream of bytes.

use crate::ids::{concat, lemma_concat_first};
use crate::model::{ids, Id, Object, ObjectId, ObjectView, RepositoryId};
use crate::text::{copy_str, decimal, to_decimal};
use vstd::bytes::{
    lemma_auto_spec_u32_to_from_le_bytes, spec_u32_from_le_bytes, spec_u32_to_le_bytes,
    u32_from_le_bytes, u32_to_le_bytes,
};
use vstd::prelude::*;
use vstd::slice::slice_subrange;
use vstd::string::StringExecFns;

verus! {

/// The version of the protocol that this library speaks.
pub const PROTOCOL_VERSION: u32 = 1;

/// The number of bytes that are handed to a channel at a time.
pub const PACKET_SIZE: usize = 32768;

#[derive(Debug, PartialEq, Eq)]
pub enum Request {
    Version,
    Status,
    Push { repo_uuid: RepositoryId },
    PullSnapshotIds { repo_uuid: RepositoryId },
    PullObjects { repo_uuid: RepositoryId, object_ids: Vec<ObjectId> },
}

#[derive(Debug, PartialEq, Eq)]
pub enum Response {
    Version { version: u32 },
    Status { head: ObjectId, object_count: usize },
    PullSnapshotIds { head: ObjectId, snapshot_ids: Vec<ObjectId> },
    PullObjects { objects: Vec<(ObjectId, Object)>, chunks: Vec<(ObjectId, Vec<u8>)> },
    PushComplete,
    Error(String),
}

/// What a request says.
#[verifier::ext_equal]
pub enum RequestView {
    Version,
    Status,
    Push { repo_uuid: Id },
    PullSnapshotIds { repo_uuid: Id },
    PullObjects { repo_uuid: Id, object_ids: Seq<Id> },
}

/// What a response says.
#[verifier::ext_equal]
pub enum ResponseView {
    Version { version: u32 },
    Status { head: Id, object_count: nat },
    PullSnapshotIds { head: Id, snapshot_ids: Seq<Id> },
    PullObjects { objects: Seq<(Id, ObjectView)>, chunks: Seq<(Id, Seq<u8>)> },
    PushComplete,
    Error(Seq<char>),
}

/// The objects of a response with their ids.
pub open spec fn object_views(s: Seq<(ObjectId, Object)>) -> Seq<(Id, ObjectView)> {
    s.map_values(|e: (ObjectId, Object)| (e.0@, e.1@))
}

/// The bytes of chunks with their ids.
pub open spec fn chunk_views(s: Seq<(ObjectId, Vec<u8>)>) -> Seq<(Id, Seq<u8>)> {
    s.map_values(|e: (ObjectId, Vec<u8>)| (e.0@, e.1@))
}

impl View for Request {
    type V = RequestView;

    open spec fn view(&self) -> RequestView {
        match *self {
            Request::Version => RequestView::Version,
            Request::Status => RequestView::Status,
            Request::Push { repo_uuid } => RequestView::Push { repo_uuid: repo_uuid@ },
            Request::PullSnapshotIds { repo_uuid } => RequestView::PullSnapshotIds {
                repo_uuid: repo_uuid@,
            },
            Request::PullObjects { repo_uuid, object_ids } => RequestView::PullObjects {
                repo_uuid: repo_uuid@,
                object_ids: ids(object_ids@),
            },
        }
    }
}

impl View for Response {
    type V = ResponseView;

    open spec fn view(&self) -> ResponseView {
        match *self {
            Response::Version { version } => ResponseView::Version { version },
            Response::Status { head, object_count } => ResponseView::Status {
                head: head@,
                object_count: object_count as nat,
            },
            Response::PullSnapshotIds { head, snapshot_ids } => ResponseView::PullSnapshotIds {
                head: head@,
                snapshot_ids: ids(snapshot_ids@),
            },
            Response::PullObjects { objects, chunks } => ResponseView::PullObjects {
                objects: object_views(objects@),
                chunks: chunk_views(chunks@),
            },
            Response::PushComplete => ResponseView::PushComplete,
            Response::Error(e) => ResponseView::Error(e@),
        }
    }
}

/// A message as it is sent: its length as four bytes, the lowest first, and the message.
pub open spec fn framed(payload: Seq<u8>) -> Seq<u8> {
    spec_u32_to_le_bytes(payload.len() as u32) + payload
}

/// The length that the first four bytes of `bytes` announce.
pub open spec fn announced(bytes: Seq<u8>) -> int {
    spec_u32_from_le_bytes(bytes.take(4)) as int
}

/// Whether `bytes` begins with a whole framed message.
pub open spec fn has_frame(bytes: Seq<u8>) -> bool {
    bytes.len() >= 4 && bytes.len() - 4 >= announced(bytes)
}

/// Why bytes are not a framed message.
#[derive(Clone, Copy, Debug, PartialEq, Eq, Structural)]
pub enum FrameError {
    /// There are fewer than four bytes.
    TooShort { length: usize },
    /// There are fewer bytes than announced.
    Incomplete { expected: usize, got: usize },
}

impl FrameError {
    /// The error in words.
    pub open spec fn words(self) -> Seq<char> {
        match self {
            FrameError::TooShort { length } => "framed message too short: "@ + decimal(
                length as nat,
            ) + " bytes"@,
            FrameError::Incomplete { expected, got } => "incomplete framed message: expected "@
                + decimal(expected as nat) + " bytes, got "@ + decimal(got as nat),
        }
    }

    /// The error in words.
    pub fn message(&self) -> (r: String)
        ensures
            r@ == self.words(),
    {
        match *self {
            FrameError::TooShort { length } => {
                let mut r = copy_str("framed message too short: ");
                r.append(to_decimal(length as u64).as_str());
                r.append(" bytes");
                r
            },
            FrameError::Incomplete { expected, got } => {
                let mut r = copy_str("incomplete framed message: expected ");
                r.append(to_decimal(expected as u64).as_str());
                r.append(" bytes, got ");
                r.append(to_decimal(got as u64).as_str());
                r
            },
        }
    }
}

/// The message `payload` as it is sent.
pub fn frame(payload: Vec<u8>) -> (r: Vec<u8>)
    ensures
        r@ == framed(payload@),
{
    let mut out: Vec<u8> = u32_to_le_bytes(payload.len() as u32);
    out.extend_from_slice(payload.as_slice());
    assert(out@ =~= framed(payload@));
    out
}

/// The message in `bytes`; what follows it is passed over.
pub fn unframe(bytes: &[u8]) -> (r: Result<&[u8], FrameError>)
    ensures
        r is Ok <==> has_frame(bytes@),
        r matches Ok(payload) ==> payload@ == bytes@.subrange(4, 4 + announced(bytes@)),
        bytes@.len() < 4 ==> r == Err::<&[u8], FrameError>(
            FrameError::TooShort { length: bytes@.len() as usize },
        ),
        bytes@.len() >= 4 && !has_frame(bytes@) ==> r == Err::<&[u8], FrameError>(
            FrameError::Incomplete {
                expected: announced(bytes@) as usize,
                got: (bytes@.len() - 4) as usize,
            },
        ),
{
    if bytes.len() < 4 {
        return Err(FrameError::TooShort { length: bytes.len() });
    }
    let head = slice_subrange(bytes, 0, 4);
    assert(head@ =~= bytes@.take(4));
    let len: usize = u32_from_le_bytes(head) as usize;
    let rest: usize = bytes.len() - 4;
    if rest < len {
        return Err(FrameError::Incomplete { expected: len, got: rest });
    }
    Ok(slice_subrange(bytes, 4, 4 + len))
}

/// Takes the first framed message out of `buf`, with its length; leaves `buf` as it is where the
/// message is not complete.
pub fn pop_framed_message(buf: &mut Vec<u8>) -> (r: Option<Vec<u8>>)
    ensures
        r is Some <==> has_frame(old(buf)@),
        r matches Some(m) ==> {
            &&& m@ == old(buf)@.take(4 + announced(old(buf)@))
            &&& final(buf)@ == old(buf)@.skip(4 + announced(old(buf)@))
        },
        r is None ==> final(buf)@ == old(buf)@,
{
    if buf.len() < 4 {
        return None;
    }
    let head = slice_subrange(buf.as_slice(), 0, 4);
    assert(head@ =~= buf@.take(4));
    let len: usize = u32_from_le_bytes(head) as usize;
    if buf.len() - 4 < len {
        return None;
    }
    let mut rest = buf.split_off(4 + len);
    assert(buf@ =~= old(buf)@.take(4 + len));
    assert(rest@ =~= old(buf)@.skip(4 + len));
    std::mem::swap(buf, &mut rest);
    Some(rest)
}

/// A framed message is read as the message, whatever follows it, if its length fits into the
/// four bytes.
pub proof fn law_unframe_frame(payload: Seq<u8>, rest: Seq<u8>)
    requires
        payload.len() <= u32::MAX,
    ensures
        has_frame(framed(payload) + rest),
        announced(framed(payload) + rest) == payload.len(),
        (framed(payload) + rest).subrange(4, 4 + payload.len() as int) == payload,
        (framed(payload) + rest).take(4 + payload.len() as int) == framed(payload),
        (framed(payload) + rest).skip(4 + payload.len() as int) == rest,
{
    lemma_auto_spec_u32_to_from_le_bytes();
    let f = framed(payload) + rest;
    assert(f.take(4) =~= spec_u32_to_le_bytes(payload.len() as u32));
    assert(f.subrange(4, 4 + payload.len() as int) =~= payload);
    assert(f.take(4 + payload.len() as int) =~= framed(payload));
    assert(f.skip(4 + payload.len() as int) =~= rest);
}

/// A message that has arrived whole does not change when more bytes arrive.
pub proof fn law_frame_is_stable(bytes: Seq<u8>, more: Seq<u8>)
    requires
        has_frame(bytes),
    ensures
        has_frame(bytes + more),
        announced(bytes + more) == announced(bytes),
        (bytes + more).take(4 + announced(bytes)) == bytes.take(4 + announced(bytes)),
        (bytes + more).skip(4 + announced(bytes)) == bytes.skip(4 + announced(bytes)) + more,
{
    assert((bytes + more).take(4) =~= bytes.take(4));
    let n = 4 + announced(bytes);
    assert((bytes + more).take(n) =~= bytes.take(n));
    assert((bytes + more).skip(n) =~= bytes.skip(n) + more);
}

/// What is cut off a taken message is what reading it alone gives: a message that was popped is a
/// framed message by itself.
pub proof fn law_popped_is_frame(bytes: Seq<u8>)
    requires
        has_frame(bytes),
    ensures
        has_frame(bytes.take(4 + announced(bytes))),
        announced(bytes.take(4 + announced(bytes))) == announced(bytes),
{
    let n = 4 + announced(bytes);
    assert(bytes.take(n).take(4) =~= bytes.take(4));
}

/// The framed messages that stand at the front of `bytes`, one after the other.
pub open spec fn frames_of(bytes: Seq<u8>) -> Seq<Seq<u8>>
    decreases bytes.len(),
{
    if has_frame(bytes) {
        let n = 4 + announced(bytes);
        seq![bytes.take(n)] + frames_of(bytes.skip(n))
    } else {
        Seq::<Seq<u8>>::empty()
    }
}

/// What follows these messages.
pub open spec fn after_frames(bytes: Seq<u8>) -> Seq<u8>
    decreases bytes.len(),
{
    if has_frame(bytes) {
        after_frames(bytes.skip(4 + announced(bytes)))
    } else {
        bytes
    }
}

/// What byte strings hold.
pub open spec fn byte_views(parts: Seq<Vec<u8>>) -> Seq<Seq<u8>> {
    parts.map_values(|p: Vec<u8>| p@)
}

/// Takes in `data` after what is pending, and takes out all messages that are complete.
pub fn take_frames(pending: &mut Vec<u8>, data: &[u8]) -> (r: Vec<Vec<u8>>)
    ensures
        byte_views(r@) == frames_of(old(pending)@ + data@),
        final(pending)@ == after_frames(old(pending)@ + data@),
{
    pending.extend_from_slice(data);
    let ghost all = pending@;
    assert(all =~= old(pending)@ + data@);
    let mut frames: Vec<Vec<u8>> = Vec::new();
    assert(byte_views(frames@) + frames_of(pending@) =~= frames_of(all));
    loop
        invariant
            byte_views(frames@) + frames_of(pending@) == frames_of(all),
            after_frames(pending@) == after_frames(all),
        ensures
            byte_views(frames@) + frames_of(pending@) == frames_of(all),
            after_frames(pending@) == after_frames(all),
            !has_frame(pending@),
        decreases pending@.len(),
    {
        let ghost before = pending@;
        let ghost done = byte_views(frames@);
        match pop_framed_message(pending) {
            Some(frame) => {
                frames.push(frame);
                assert(byte_views(frames@) =~= done.push(frame@));
                assert(byte_views(frames@) + frames_of(pending@) =~= done + frames_of(before));
            },
            None => {
                break ;
            },
        }
    }
    assert(byte_views(frames@) =~= frames_of(all));
    frames
}

/// The messages do not depend on the pieces in which their bytes arrive.
pub proof fn law_frames_in_pieces(first: Seq<u8>, more: Seq<u8>)
    ensures
        frames_of(first + more) == frames_of(first) + frames_of(after_frames(first) + more),
        after_frames(first + more) == after_frames(after_frames(first) + more),
    decreases first.len(),
{
    if has_frame(first) {
        law_frame_is_stable(first, more);
        let n = 4 + announced(first);
        law_frames_in_pieces(first.skip(n), more);
        assert(frames_of(first + more) =~= frames_of(first) + frames_of(
            after_frames(first) + more,
        ));
    } else {
        assert(frames_of(first + more) =~= frames_of(first) + frames_of(
            after_frames(first) + more,
        ));
    }
}

/// What comes out of messages that were framed and sent one after the other is these messages, if
/// the length of each fits into the four bytes.
pub proof fn law_frames_come_through(payloads: Seq<Seq<u8>>)
    requires
        forall|i: int| 0 <= i < payloads.len() ==> (#[trigger] payloads[i]).len() <= u32::MAX,
    ensures
        frames_of(concat(payloads.map_values(|p: Seq<u8>| framed(p)))) == payloads.map_values(
            |p: Seq<u8>| framed(p),
        ),
        after_frames(concat(payloads.map_values(|p: Seq<u8>| framed(p)))) == Seq::<u8>::empty(),
    decreases payloads.len(),
{
    let sent = payloads.map_values(|p: Seq<u8>| framed(p));
    if payloads.len() == 0 {
        assert(sent =~= Seq::<Seq<u8>>::empty());
        assert(concat(sent) =~= Seq::<u8>::empty());
    } else {
        let front = payloads.drop_last();
        let last = payloads.last();
        assert(payloads[payloads.len() - 1] == last);
        assert forall|i: int| 0 <= i < front.len() implies (#[trigger] front[i]).len()
            <= u32::MAX by {
            assert(front[i] == payloads[i]);
        }
        law_frames_come_through(front);
        let before = front.map_values(|p: Seq<u8>| framed(p));
        assert(sent.drop_last() =~= before);
        law_frames_in_pieces(concat(before), framed(last));
        assert(Seq::<u8>::empty() + framed(last) =~= framed(last));
        law_unframe_frame(last, Seq::<u8>::empty());
        assert(framed(last) + Seq::<u8>::empty() =~= framed(last));
        let none = Seq::<u8>::empty();
        assert(!has_frame(none));
        let f = framed(last);
        assert(f.take(4 + announced(f)) == f);
        assert(f.skip(4 + announced(f)) == none);
        assert(frames_of(none) == Seq::<Seq<u8>>::empty());
        assert(after_frames(f) == after_frames(none));
        assert(frames_of(framed(last)) =~= seq![framed(last)]);
        assert(before + seq![framed(last)] =~= sent);
    }
}

/// What a channel brings while a response is awaited.
#[derive(Debug, PartialEq, Eq)]
pub enum ChannelEvent {
    Data(Vec<u8>),
    /// The peer will send no more.
    Eof,
    /// Something that does not concern the response.
    Other,
    /// The channel has gone.
    Closed,
}

/// What to do next while a response is awaited.
#[derive(Debug, PartialEq, Eq)]
pub enum RpcStep {
    /// The response is here, as a framed message.
    Frame(Vec<u8>),
    /// Wait for what the channel brings.
    Wait,
    /// The peer will send no more, and the response is not complete.
    PeerEof,
    /// The channel has gone, and the response is not complete.
    ChannelClosed,
}

/// The response, if it is whole once `data` has come after `raw`, and what is left.
pub open spec fn awaited(raw: Seq<u8>, data: Seq<u8>) -> (Option<Seq<u8>>, Seq<u8>) {
    let all = raw + data;
    if has_frame(all) {
        (Some(all.take(4 + announced(all))), all.skip(4 + announced(all)))
    } else {
        (None, all)
    }
}

/// Takes in what the channel has brought, and tells what to do next.
pub fn rpc_step(raw: &mut Vec<u8>, event: ChannelEvent) -> (r: RpcStep)
    ensures
        match event {
            ChannelEvent::Data(data) => {
                let all = old(raw)@ + data@;
                if has_frame(all) {
                    &&& r matches RpcStep::Frame(frame)
                    &&& frame@ == all.take(4 + announced(all))
                    &&& final(raw)@ == all.skip(4 + announced(all))
                } else {
                    r is Wait && final(raw)@ == all
                }
            },
            ChannelEvent::Other => r is Wait && final(raw)@ == old(raw)@,
            ChannelEvent::Eof => r is PeerEof && final(raw)@ == old(raw)@,
            ChannelEvent::Closed => r is ChannelClosed && final(raw)@ == old(raw)@,
        },
        event matches ChannelEvent::Data(data) ==> match r {
            RpcStep::Frame(frame) => awaited(old(raw)@, data@) == (Some(frame@), final(raw)@),
            _ => awaited(old(raw)@, data@) == (None::<Seq<u8>>, final(raw)@),
        },
{
    match event {
        ChannelEvent::Data(data) => {
            raw.extend_from_slice(data.as_slice());
            assert(raw@ =~= old(raw)@ + data@);
            match pop_framed_message(raw) {
                Some(frame) => RpcStep::Frame(frame),
                None => RpcStep::Wait,
            }
        },
        ChannelEvent::Other => RpcStep::Wait,
        ChannelEvent::Eof => RpcStep::PeerEof,
        ChannelEvent::Closed => RpcStep::ChannelClosed,
    }
}

/// `bytes` in pieces of `PACKET_SIZE`, but for the last, which may be shorter.
pub open spec fn packets_of(bytes: Seq<u8>) -> Seq<Seq<u8>>
    decreases bytes.len(),
{
    if bytes.len() == 0 {
        Seq::<Seq<u8>>::empty()
    } else if bytes.len() <= PACKET_SIZE {
        seq![bytes]
    } else {
        seq![bytes.take(PACKET_SIZE as int)] + packets_of(bytes.skip(PACKET_SIZE as int))
    }
}

/// `bytes` in the pieces in which they are handed to a channel.
pub fn packets(bytes: &[u8]) -> (r: Vec<Vec<u8>>)
    ensures
        byte_views(r@) == packets_of(bytes@),
{
    let mut r: Vec<Vec<u8>> = Vec::new();
    let n: usize = bytes.len();
    let mut at: usize = 0;
    assert(bytes@.skip(0) =~= bytes@);
    assert(byte_views(r@) + packets_of(bytes@) =~= packets_of(bytes@));
    while at < n
        invariant
            n == bytes@.len(),
            at <= n,
            byte_views(r@) + packets_of(bytes@.skip(at as int)) == packets_of(bytes@),
        decreases n - at,
    {
        let end: usize = if n - at <= PACKET_SIZE {
            n
        } else {
            at + PACKET_SIZE
        };
        let mut packet: Vec<u8> = Vec::new();
        packet.extend_from_slice(slice_subrange(bytes, at, end));
        let ghost rest = bytes@.skip(at as int);
        let ghost done = byte_views(r@);
        proof {
            assert(packet@ =~= rest.take(end - at));
            assert(rest.skip(end - at) =~= bytes@.skip(end as int));
            if end == n {
                assert(packet@ =~= rest);
            }
        }
        r.push(packet);
        assert(byte_views(r@) =~= done.push(packet@));
        assert(byte_views(r@) + packets_of(bytes@.skip(end as int)) =~= done + packets_of(rest));
        at = end;
    }
    assert(byte_views(r@) =~= packets_of(bytes@));
    r
}

/// The pieces are the bytes, and none of them is empty or longer than the limit.
pub proof fn law_packets_are_the_bytes(bytes: Seq<u8>)
    ensures
        concat(packets_of(bytes)) == bytes,
        forall|i: int|
            0 <= i < packets_of(bytes).len() ==> 0 < (#[trigger] packets_of(bytes)[i]).len()
                <= PACKET_SIZE,
    decreases bytes.len(),
{
    let all = packets_of(bytes);
    if bytes.len() == 0 {
        assert(concat(all) =~= bytes);
    } else if bytes.len() <= PACKET_SIZE {
        assert(all =~= seq![bytes] + Seq::<Seq<u8>>::empty());
        lemma_concat_first(bytes, Seq::<Seq<u8>>::empty());
        assert(concat(all) =~= bytes);
    } else {
        let n = PACKET_SIZE as int;
        let rest = packets_of(bytes.skip(n));
        law_packets_are_the_bytes(bytes.skip(n));
        lemma_concat_first(bytes.take(n), rest);
        assert(bytes.take(n) + bytes.skip(n) =~= bytes);
        assert forall|i: int| 0 <= i < all.len() implies 0 < (#[trigger] all[i]).len()
            <= PACKET_SIZE by {
            if i > 0 {
                assert(all[i] == rest[i - 1]);
            }
        }
    }
}

/// A frame is its message after four bytes that say how long the message is, the lowest first. A
/// message is whole exactly where as many bytes follow as these four say.
pub proof fn law_layout_of_a_frame(payload: Seq<u8>, bytes: Seq<u8>)
    ensures
        framed(payload).len() == payload.len() + 4,
        framed(payload).take(4) == spec_u32_to_le_bytes(payload.len() as u32),
        framed(payload).skip(4) == payload,
        has_frame(bytes) <==> bytes.len() >= 4 && bytes.len() >= 4 + spec_u32_from_le_bytes(
            bytes.take(4),
        ) as int,
        announced(bytes) == spec_u32_from_le_bytes(bytes.take(4)) as int,
{
    lemma_auto_spec_u32_to_from_le_bytes();
    assert(framed(payload).take(4) =~= spec_u32_to_le_bytes(payload.len() as u32));
    assert(framed(payload).skip(4) =~= payload);
}

/// Taking the messages out of a stream loses and adds no byte: each that is taken is just as long as
/// its first four bytes say, all of them and what is left are the stream, and what is left does not
/// begin with a whole message.
pub proof fn law_stream_is_cut_into_frames(bytes: Seq<u8>)
    ensures
        frames_of(bytes).flatten() + after_frames(bytes) == bytes,
        !(after_frames(bytes).len() >= 4 && after_frames(bytes).len() >= 4 + spec_u32_from_le_bytes(
            after_frames(bytes).take(4),
        ) as int),
        forall|i: int|
            0 <= i < frames_of(bytes).len() ==> (#[trigger] frames_of(bytes)[i]).len() >= 4
                && frames_of(bytes)[i].len() == 4 + spec_u32_from_le_bytes(
                frames_of(bytes)[i].take(4),
            ) as int,
    decreases bytes.len(),
{
    let all = frames_of(bytes);
    if has_frame(bytes) {
        let n = 4 + announced(bytes);
        let rest = bytes.skip(n);
        law_stream_is_cut_into_frames(rest);
        assert(all.drop_first() =~= frames_of(rest));
        assert(all.first() == bytes.take(n));
        assert(bytes =~= bytes.take(n) + rest);
        assert(all.flatten() + after_frames(bytes) =~= bytes.take(n) + (frames_of(rest).flatten()
            + after_frames(rest)));
        assert(bytes.take(n).take(4) =~= bytes.take(4));
        assert forall|i: int| 0 <= i < all.len() implies (#[trigger] all[i]).len() >= 4
            && all[i].len() == 4 + spec_u32_from_le_bytes(all[i].take(4)) as int by {
            if i > 0 {
                assert(all[i] == frames_of(rest)[i - 1]);
            }
        }
    } else {
        assert(all.flatten() + after_frames(bytes) =~= bytes);
    }
}

/// All pieces but the last have just the length that is handed over at a time, so that there are no
/// more than it takes.
pub proof fn law_packets_are_full(bytes: Seq<u8>, i: int)
    requires
        0 <= i < packets_of(bytes).len(),
    ensures
        i < packets_of(bytes).len() - 1 ==> packets_of(bytes)[i].len() == 32 * 1024,
        32 * 1024 * i + packets_of(bytes)[i].len() <= bytes.len(),
        packets_of(bytes)[i] == bytes.subrange(
            32 * 1024 * i,
            32 * 1024 * i + packets_of(bytes)[i].len(),
        ),
    decreases bytes.len(),
{
    let all = packets_of(bytes);
    if bytes.len() <= PACKET_SIZE {
        assert(bytes.subrange(0, bytes.len() as int) =~= bytes);
    } else {
        let n = PACKET_SIZE as int;
        let rest = packets_of(bytes.skip(n));
        if i > 0 {
            law_packets_are_full(bytes.skip(n), i - 1);
            assert(all[i] == rest[i - 1]);
            let at = 32768 * (i - 1);
            let len = all[i].len() as int;
            assert(bytes.skip(n).subrange(at, at + len) =~= bytes.subrange(n + at, n + at + len));
        } else {
            assert(bytes.take(n) =~= bytes.subrange(0, n));
        }
    }
}

/// What is said of objects, chunks and byte strings is said of all that they hold, one by one.
pub proof fn law_parts_of_messages_are_told_in_full(
    objects: Seq<(ObjectId, Object)>,
    chunks: Seq<(ObjectId, Vec<u8>)>,
    parts: Seq<Vec<u8>>,
    object_ids: Seq<ObjectId>,
)
    ensures
        object_views(objects).len() == objects.len(),
        forall|i: int|
            0 <= i < objects.len() ==> #[trigger] object_views(objects)[i] == (
                objects[i].0.0@,
                objects[i].1@,
            ),
        chunk_views(chunks).len() == chunks.len(),
        forall|i: int|
            0 <= i < chunks.len() ==> #[trigger] chunk_views(chunks)[i] == (
                chunks[i].0.0@,
                chunks[i].1@,
            ),
        byte_views(parts).len() == parts.len(),
        forall|i: int| 0 <= i < parts.len() ==> #[trigger] byte_views(parts)[i] == parts[i]@,
        ids(object_ids).len() == object_ids.len(),
        forall|i: int| 0 <= i < object_ids.len() ==> #[trigger] ids(object_ids)[i]
            == object_ids[i].0@,
{
}

/// What is said of a request is said of all that it asks for.
pub proof fn law_requests_are_told_in_full(
    repo_uuid: RepositoryId,
    object_ids: Vec<ObjectId>,
)
    ensures
        (Request::Push { repo_uuid })@ == (RequestView::Push { repo_uuid: repo_uuid.0@ }),
        (Request::PullSnapshotIds { repo_uuid })@ == (RequestView::PullSnapshotIds {
            repo_uuid: repo_uuid.0@,
        }),
        (Request::PullObjects { repo_uuid, object_ids })@ == (RequestView::PullObjects {
            repo_uuid: repo_uuid.0@,
            object_ids: ids(object_ids@),
        }),
        Request::Version@ is Version,
        Request::Status@ is Status,
{
}

/// What is said of a response is said of all that it gives.
pub proof fn law_responses_are_told_in_full(
    version: u32,
    head: ObjectId,
    count: usize,
    snapshot_ids: Vec<ObjectId>,
    objects: Vec<(ObjectId, Object)>,
    chunks: Vec<(ObjectId, Vec<u8>)>,
    error: String,
)
    ensures
        (Response::Version { version })@ == (ResponseView::Version { version }),
        (Response::Status { head, object_count: count })@ == (ResponseView::Status {
            head: head.0@,
            object_count: count as nat,
        }),
        (Response::PullSnapshotIds { head, snapshot_ids })@ == (ResponseView::PullSnapshotIds {
            head: head.0@,
            snapshot_ids: ids(snapshot_ids@),
        }),
        (Response::PullObjects { objects, chunks })@ == (ResponseView::PullObjects {
            objects: object_views(objects@),
            chunks: chunk_views(chunks@),
        }),
        Response::PushComplete@ is PushComplete,
        Response::Error(error)@ == ResponseView::Error(error@),
{
}

/// A response comes through in whatever two pieces its bytes arrive: with the second it is whole, and
/// what follows it is left. Before its last byte has come it is waited for, and no byte is lost.
pub proof fn law_response_comes_through(payload: Seq<u8>, rest: Seq<u8>, raw: Seq<u8>, data: Seq<u8>)
    requires
        payload.len() <= u32::MAX,
    ensures
        raw + data == framed(payload) + rest ==> awaited(raw, data) == (
            Some(framed(payload)),
            rest,
        ),
        (raw + data).len() < framed(payload).len() && raw + data == framed(payload).take(
            (raw + data).len() as int,
        ) ==> awaited(raw, data) == (None::<Seq<u8>>, raw + data),
{
    law_unframe_frame(payload, rest);
    let none = Seq::<u8>::empty();
    law_unframe_frame(payload, none);
    assert(framed(payload) + none =~= framed(payload));
    let all = raw + data;
    if all.len() < framed(payload).len() && all == framed(payload).take(all.len() as int)
        && all.len() >= 4 {
        assert(all.take(4) =~= framed(payload).take(4));
    }
}

} // verus!
