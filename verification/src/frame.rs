//! Frames: the pieces in which all traffic crosses the connection.
//!
//! Whatever a channel sends is cut into frames of bounded size, so that
//! no transfer, however large, keeps the wire for longer than one frame.
//! A frame is a header and a payload. The header names the channel and
//! the stream that the payload belongs to, and says how long the payload
//! is: one byte for the channel, the stream id and the length as 64-bit
//! integers, least significant byte first.
//!
//! On a stream, a message travels as its length and its bytes, so that
//! the receiver can tell where one message ends and the next begins
//! wherever the cuts between frames fall.

use crate::codec::{
    blob_bytes, lemma_assoc, lemma_u64_bytes_len, u64_bytes, write_blob, write_u64, write_u8,
};
use crate::ids::StreamID;
use vstd::bytes::{
    lemma_auto_spec_u64_to_from_le_bytes, spec_u64_from_le_bytes, spec_u64_to_le_bytes,
    u64_from_le_bytes,
};
use vstd::prelude::*;
use vstd::slice::{slice_subrange, slice_to_vec};

verus! {

/// The most bytes that one frame carries.
pub const MAX_FRAME_PAYLOAD: usize = 0x4000;

/// The length of a frame's header.
pub const FRAME_HEADER_LEN: usize = 17;

/// A frame, as plain values.
pub struct FrameView {
    pub channel: u8,
    pub stream: StreamID,
    pub payload: Seq<u8>,
}

impl FrameView {
    /// The payload is within the limit.
    pub open spec fn wf(self) -> bool {
        self.payload.len() <= MAX_FRAME_PAYLOAD
    }
}

/// One frame.
#[derive(Debug)]
pub struct Frame {
    pub channel: u8,
    pub stream: StreamID,
    pub payload: Vec<u8>,
}

impl View for Frame {
    type V = FrameView;

    open spec fn view(&self) -> FrameView {
        FrameView { channel: self.channel, stream: self.stream, payload: self.payload@ }
    }
}

/// The frames that a list of frames holds, as plain values.
pub open spec fn frames_view(frames: Seq<Frame>) -> Seq<FrameView> {
    Seq::new(frames.len(), |i: int| frames[i]@)
}

/// The bytes of a frame on the wire.
pub open spec fn frame_bytes(f: FrameView) -> Seq<u8> {
    seq![f.channel] + (u64_bytes(f.stream.0) + blob_bytes(f.payload))
}

/// What the front of a buffer of received bytes holds.
pub enum FrameParse {
    /// A whole frame, which takes up the first `len` bytes.
    Complete { frame: FrameView, len: nat },
    /// The beginning of a frame: more bytes have to arrive.
    Incomplete,
    /// A header that announces more payload than a frame may carry.
    Malformed,
}

/// Reads the front of a buffer of received bytes.
pub open spec fn parse_frame(s: Seq<u8>) -> FrameParse {
    if s.len() < FRAME_HEADER_LEN {
        FrameParse::Incomplete
    } else {
        let n = spec_u64_from_le_bytes(s.subrange(9, 17));
        if n > MAX_FRAME_PAYLOAD {
            FrameParse::Malformed
        } else if s.len() < FRAME_HEADER_LEN + n {
            FrameParse::Incomplete
        } else {
            FrameParse::Complete {
                frame: FrameView {
                    channel: s[0],
                    stream: StreamID(spec_u64_from_le_bytes(s.subrange(1, 9))),
                    payload: s.subrange(17, 17 + n),
                },
                len: (FRAME_HEADER_LEN + n) as nat,
            }
        }
    }
}

/// The bytes of a frame have the header's three parts at fixed places.
pub proof fn lemma_frame_layout(f: FrameView)
    requires
        f.wf(),
    ensures
        frame_bytes(f).len() == FRAME_HEADER_LEN + f.payload.len(),
        frame_bytes(f)[0] == f.channel,
        frame_bytes(f).subrange(1, 9) == u64_bytes(f.stream.0),
        frame_bytes(f).subrange(9, 17) == u64_bytes(f.payload.len() as u64),
        frame_bytes(f).subrange(17, 17 + f.payload.len() as int) == f.payload,
{
    lemma_u64_bytes_len(f.stream.0);
    lemma_u64_bytes_len(f.payload.len() as u64);
    let b = frame_bytes(f);
    assert(b.subrange(1, 9) =~= u64_bytes(f.stream.0));
    assert(b.subrange(9, 17) =~= u64_bytes(f.payload.len() as u64));
    assert(b.subrange(17, 17 + f.payload.len() as int) =~= f.payload);
}

/// A frame that was written is read back as it was, whatever follows it.
pub proof fn lemma_parse_frame_bytes(f: FrameView, rest: Seq<u8>)
    requires
        f.wf(),
    ensures
        parse_frame(frame_bytes(f) + rest) == (FrameParse::Complete {
            frame: f,
            len: frame_bytes(f).len(),
        }),
{
    lemma_frame_layout(f);
    lemma_auto_spec_u64_to_from_le_bytes();
    let b = frame_bytes(f);
    let s = b + rest;
    let n = f.payload.len() as int;
    assert(s.subrange(1, 9) =~= b.subrange(1, 9));
    assert(s.subrange(9, 17) =~= b.subrange(9, 17));
    assert(s.subrange(17, 17 + n) =~= b.subrange(17, 17 + n));
    assert(s[0] == b[0]);
    assert(spec_u64_from_le_bytes(spec_u64_to_le_bytes(n as u64)) == n as u64);
    assert(spec_u64_from_le_bytes(spec_u64_to_le_bytes(f.stream.0)) == f.stream.0);
}

/// As long as only a part of a frame has arrived, the receiver waits.
pub proof fn lemma_parse_frame_part(f: FrameView, k: int)
    requires
        f.wf(),
        0 <= k < frame_bytes(f).len(),
    ensures
        parse_frame(frame_bytes(f).take(k)) == FrameParse::Incomplete,
{
    lemma_frame_layout(f);
    lemma_auto_spec_u64_to_from_le_bytes();
    let b = frame_bytes(f);
    let s = b.take(k);
    let n = f.payload.len();
    if k >= FRAME_HEADER_LEN {
        assert(s.subrange(9, 17) =~= b.subrange(9, 17));
        assert(spec_u64_from_le_bytes(spec_u64_to_le_bytes(n as u64)) == n as u64);
    }
}

/// Appends the bytes of a frame.
pub fn write_frame(out: &mut Vec<u8>, f: &Frame)
    ensures
        final(out)@ == old(out)@ + frame_bytes(f@),
{
    let ghost o0 = out@;
    write_u8(out, f.channel);
    let ghost o1 = out@;
    write_u64(out, f.stream.0);
    write_blob(out, f.payload.as_slice());
    proof {
        lemma_assoc(o1, u64_bytes(f.stream.0), blob_bytes(f.payload@));
        lemma_assoc(o0, seq![f.channel], u64_bytes(f.stream.0) + blob_bytes(f.payload@));
    }
}

/// What reading a frame off a buffer gives.
pub enum FrameRead {
    /// A whole frame, and where the next one begins.
    Complete { frame: Frame, end: usize },
    /// More bytes have to arrive.
    Incomplete,
    /// The header announces more payload than a frame may carry.
    Malformed,
}

/// Reads the frame that begins at `pos` in a buffer of received bytes.
pub fn read_frame(bytes: &[u8], pos: usize) -> (r: FrameRead)
    requires
        pos <= bytes@.len(),
    ensures
        match r {
            FrameRead::Complete { frame, end } => end <= bytes@.len() && parse_frame(
                bytes@.skip(pos as int),
            ) == (FrameParse::Complete { frame: frame@, len: (end - pos) as nat }) && frame@.wf(),
            FrameRead::Incomplete => parse_frame(bytes@.skip(pos as int)) == FrameParse::Incomplete,
            FrameRead::Malformed => parse_frame(bytes@.skip(pos as int)) == FrameParse::Malformed,
        },
{
    let ghost s = bytes@.skip(pos as int);
    let left: usize = bytes.len() - pos;
    if left < FRAME_HEADER_LEN {
        return FrameRead::Incomplete;
    }
    let channel = bytes[pos];
    let stream = u64_from_le_bytes(slice_subrange(bytes, pos + 1, pos + 9));
    let n = u64_from_le_bytes(slice_subrange(bytes, pos + 9, pos + 17));
    proof {
        assert(s.subrange(1, 9) =~= bytes@.subrange(pos + 1, pos + 9));
        assert(s.subrange(9, 17) =~= bytes@.subrange(pos + 9, pos + 17));
        assert(s[0] == bytes@[pos as int]);
    }
    if n > MAX_FRAME_PAYLOAD as u64 {
        return FrameRead::Malformed;
    }
    if ((left - FRAME_HEADER_LEN) as u64) < n {
        return FrameRead::Incomplete;
    }
    let start: usize = pos + FRAME_HEADER_LEN;
    let end: usize = start + n as usize;
    let payload = slice_to_vec(slice_subrange(bytes, start, end));
    proof {
        assert(s.subrange(17, 17 + n) =~= bytes@.subrange(start as int, end as int));
    }
    FrameRead::Complete { frame: Frame { channel, stream: StreamID(stream), payload }, end }
}

/// The pieces of at most `max` bytes into which `data` is cut: all but
/// the last are full, and even empty data gives one piece.
pub open spec fn chunks(data: Seq<u8>, max: nat) -> Seq<Seq<u8>>
    decreases data.len(),
{
    if max == 0 || data.len() <= max {
        seq![data]
    } else {
        seq![data.take(max as int)] + chunks(data.skip(max as int), max)
    }
}

/// The pieces one after another.
pub open spec fn concat(pieces: Seq<Seq<u8>>) -> Seq<u8>
    decreases pieces.len(),
{
    if pieces.len() == 0 {
        Seq::empty()
    } else {
        pieces.first() + concat(pieces.drop_first())
    }
}

/// Cutting loses nothing: the pieces, put together, are the data; and
/// no piece is over the limit.
pub proof fn lemma_chunks(data: Seq<u8>, max: nat)
    requires
        max > 0,
    ensures
        concat(chunks(data, max)) == data,
        chunks(data, max).len() >= 1,
        forall|i: int| 0 <= i < chunks(data, max).len() ==> (#[trigger] chunks(data, max)[i]).len() <= max,
        forall|i: int|
            0 <= i < chunks(data, max).len() - 1 ==> (#[trigger] chunks(data, max)[i]).len()
                == max,
    decreases data.len(),
{
    let c = chunks(data, max);
    if data.len() <= max {
        assert(c.drop_first() =~= Seq::<Seq<u8>>::empty());
        assert(concat(c.drop_first()) =~= Seq::<u8>::empty());
        assert(data + Seq::<u8>::empty() =~= data);
    } else {
        let tail = chunks(data.skip(max as int), max);
        lemma_chunks(data.skip(max as int), max);
        assert(c.first() == data.take(max as int));
        assert(c.drop_first() =~= tail);
        assert(data.take(max as int) + data.skip(max as int) =~= data);
        assert forall|i: int| 0 <= i < c.len() implies (#[trigger] c[i]).len() <= max by {
            if i > 0 {
                assert(c[i] == tail[i - 1]);
            }
        }
        assert forall|i: int| 0 <= i < c.len() - 1 implies (#[trigger] c[i]).len() == max by {
            if i > 0 {
                assert(c[i] == tail[i - 1]);
            }
        }
    }
}

/// The frames in which `message` travels on a stream: the pieces of its
/// length followed by its bytes.
pub open spec fn message_frames(channel: u8, stream: StreamID, message: Seq<u8>) -> Seq<
    FrameView,
> {
    let pieces = chunks(blob_bytes(message), MAX_FRAME_PAYLOAD as nat);
    Seq::new(pieces.len(), |i: int| FrameView { channel, stream, payload: pieces[i] })
}

/// Cuts a message into the frames in which it travels.
pub fn split_message(channel: u8, stream: StreamID, message: &[u8]) -> (frames: Vec<Frame>)
    ensures
        frames_view(frames@) == message_frames(channel, stream, message@),
        forall|i: int| 0 <= i < frames@.len() ==> (#[trigger] frames@[i])@.wf(),
{
    let mut data: Vec<u8> = Vec::new();
    write_blob(&mut data, message);
    assert(data@ =~= blob_bytes(message@));
    let ghost all = data@;
    let ghost pieces = chunks(all, MAX_FRAME_PAYLOAD as nat);
    let n: usize = data.len();
    let mut frames: Vec<Frame> = Vec::new();
    let mut at: usize = 0;
    proof {
        lemma_chunks(all, MAX_FRAME_PAYLOAD as nat);
        assert(all.skip(0) =~= all);
        assert(Seq::<Seq<u8>>::empty() + chunks(all, MAX_FRAME_PAYLOAD as nat) =~= pieces);
    }
    while n - at > MAX_FRAME_PAYLOAD
        invariant
            at <= n == data@.len(),
            all == data@,
            pieces == chunks(all, MAX_FRAME_PAYLOAD as nat),
            pieces == Seq::new(frames@.len(), |i: int| frames@[i]@.payload) + chunks(
                all.skip(at as int),
                MAX_FRAME_PAYLOAD as nat,
            ),
            forall|i: int|
                0 <= i < frames@.len() ==> (#[trigger] frames@[i])@.wf() && frames@[i].channel
                    == channel && frames@[i].stream == stream,
        decreases n - at,
    {
        let ghost done = Seq::new(frames@.len(), |i: int| frames@[i]@.payload);
        let ghost rest = all.skip(at as int);
        let next: usize = at + MAX_FRAME_PAYLOAD;
        let payload = slice_to_vec(slice_subrange(data.as_slice(), at, next));
        proof {
            assert(rest.take(MAX_FRAME_PAYLOAD as int) =~= all.subrange(at as int, next as int));
            assert(rest.skip(MAX_FRAME_PAYLOAD as int) =~= all.skip(next as int));
        }
        frames.push(Frame { channel, stream, payload });
        proof {
            let tail = chunks(all.skip(next as int), MAX_FRAME_PAYLOAD as nat);
            let now = Seq::new(frames@.len(), |i: int| frames@[i]@.payload);
            assert(now =~= done.push(payload@));
            assert(done.push(payload@) + tail =~= done + (seq![payload@] + tail));
        }
        at = next;
    }
    let ghost done = Seq::new(frames@.len(), |i: int| frames@[i]@.payload);
    let payload = slice_to_vec(slice_subrange(data.as_slice(), at, n));
    proof {
        assert(all.skip(at as int) =~= all.subrange(at as int, n as int));
    }
    frames.push(Frame { channel, stream, payload });
    proof {
        let now = Seq::new(frames@.len(), |i: int| frames@[i]@.payload);
        assert(now =~= done.push(payload@));
        assert(done.push(payload@) =~= done + seq![payload@]);
        assert(now == pieces);
        assert(frames_view(frames@) =~= message_frames(channel, stream, message@));
    }
    frames
}

} // verus!
