//! The receiving side of the multiplexer: from frames back to messages.
//!
//! Frames of many streams arrive mixed. The payload of each frame is
//! added to what has arrived on its stream, and every message that is
//! whole by now is handed out, in the order in which it was sent. What a
//! stream hands out depends on nothing but the bytes that were sent on
//! it: neither on where the cuts between frames fell nor on what other
//! streams did meanwhile.
//!
//! A frame for a channel that does not exist breaks the protocol. From
//! that point on the session has failed, and so has every channel of it.

use crate::codec::{blob_bytes, lemma_assoc, lemma_u64_bytes_len, u64_bytes};
use crate::error::ConnectionError;
use crate::frame::{concat, lemma_chunks, message_frames, Frame, FrameView, MAX_FRAME_PAYLOAD};
use crate::ids::{StreamID, RESERVED_CHANNEL_IDS};
use crate::table::Table;
use vstd::bytes::{
    lemma_auto_spec_u64_to_from_le_bytes, spec_u64_from_le_bytes, spec_u64_to_le_bytes,
    u64_from_le_bytes,
};
use vstd::prelude::*;
use vstd::slice::{slice_subrange, slice_to_vec};

verus! {

/// The whole messages at the front of what has arrived on a stream, and
/// the bytes that are left: the beginning of a message that is not whole
/// yet.
pub open spec fn take_messages(buf: Seq<u8>) -> (Seq<Seq<u8>>, Seq<u8>)
    decreases buf.len(),
{
    if buf.len() < 8 {
        (Seq::empty(), buf)
    } else {
        let n = spec_u64_from_le_bytes(buf.take(8)) as int;
        if buf.len() - 8 < n {
            (Seq::empty(), buf)
        } else {
            let (more, rest) = take_messages(buf.skip(8 + n));
            (seq![buf.subrange(8, 8 + n)] + more, rest)
        }
    }
}

/// A message that has arrived whole is handed out, and what follows it
/// is looked at next.
pub proof fn lemma_take_messages_whole(m: Seq<u8>, rest: Seq<u8>)
    requires
        m.len() <= u64::MAX,
    ensures
        take_messages(blob_bytes(m) + rest) == (
            seq![m] + take_messages(rest).0,
            take_messages(rest).1,
        ),
{
    lemma_auto_spec_u64_to_from_le_bytes();
    lemma_u64_bytes_len(m.len() as u64);
    let buf = blob_bytes(m) + rest;
    let n = m.len() as int;
    assert(buf.take(8) =~= u64_bytes(m.len() as u64));
    assert(spec_u64_from_le_bytes(spec_u64_to_le_bytes(m.len() as u64)) == m.len() as u64);
    assert(buf.subrange(8, 8 + n) =~= m);
    assert(buf.skip(8 + n) =~= rest);
}

/// Bytes that arrive in two parts give what they give at once: the
/// messages of the first part, and those of what the first part left
/// followed by the second.
pub proof fn lemma_take_messages_in_parts(a: Seq<u8>, b: Seq<u8>)
    ensures
        take_messages(a + b).0 == take_messages(a).0 + take_messages(take_messages(a).1 + b).0,
        take_messages(a + b).1 == take_messages(take_messages(a).1 + b).1,
    decreases a.len(),
{
    let none = Seq::<Seq<u8>>::empty();
    if a.len() < 8 {
        assert(none + take_messages(a + b).0 =~= take_messages(a + b).0);
    } else {
        let n = spec_u64_from_le_bytes(a.take(8)) as int;
        if a.len() - 8 < n {
            assert(none + take_messages(a + b).0 =~= take_messages(a + b).0);
        } else {
            let whole = a + b;
            assert(whole.take(8) =~= a.take(8));
            assert(whole.subrange(8, 8 + n) =~= a.subrange(8, 8 + n));
            assert(whole.skip(8 + n) =~= a.skip(8 + n) + b);
            lemma_take_messages_in_parts(a.skip(8 + n), b);
            let first = seq![a.subrange(8, 8 + n)];
            let m1 = take_messages(a.skip(8 + n)).0;
            let r1 = take_messages(a.skip(8 + n)).1;
            let m2 = take_messages(r1 + b).0;
            assert(first + (m1 + m2) =~= (first + m1) + m2);
        }
    }
}

/// What is left after the whole messages have been taken holds no whole
/// message.
pub proof fn lemma_take_messages_leaves_none(buf: Seq<u8>)
    ensures
        take_messages(take_messages(buf).1) == (Seq::<Seq<u8>>::empty(), take_messages(buf).1),
    decreases buf.len(),
{
    if buf.len() >= 8 {
        let n = spec_u64_from_le_bytes(buf.take(8)) as int;
        if buf.len() - 8 >= n {
            lemma_take_messages_leaves_none(buf.skip(8 + n));
        }
    }
}

/// The arrival of a frame keeps the state in order.
pub proof fn lemma_accept_step_keeps_wf(s: DemuxView, f: FrameView)
    requires
        s.wf(),
    ensures
        accept_step(s, f).0.wf(),
        accept_step(s, f).0.channels == s.channels,
{
    let after = accept_step(s, f).0;
    lemma_take_messages_leaves_none(s.buffer(key_of(f)) + f.payload);
    assert forall|key: StreamKey| #[trigger] after.pending.contains_key(key) implies take_messages(
        after.pending[key],
    ) == (Seq::<Seq<u8>>::empty(), after.pending[key]) by {
        if key != key_of(f) {
            assert(s.pending.contains_key(key));
        }
    }
}

/// Takes the whole messages off the front of what has arrived on a
/// stream, and leaves the rest.
pub fn drain_messages(buf: &mut Vec<u8>) -> (r: Vec<Vec<u8>>)
    ensures
        Seq::new(r@.len(), |i: int| r@[i]@) == take_messages(old(buf)@).0,
        final(buf)@ == take_messages(old(buf)@).1,
{
    let ghost all = buf@;
    let mut out: Vec<Vec<u8>> = Vec::new();
    let mut pos: usize = 0;
    let n: usize = buf.len();
    proof {
        assert(all.skip(0) =~= all);
        assert(Seq::new(out@.len(), |i: int| out@[i]@) + take_messages(all).0 =~= take_messages(
            all,
        ).0);
    }
    loop
        invariant
            pos <= n == buf@.len(),
            buf@ == all,
            take_messages(all).0 == Seq::new(out@.len(), |i: int| out@[i]@) + take_messages(
                all.skip(pos as int),
            ).0,
            take_messages(all).1 == take_messages(all.skip(pos as int)).1,
        ensures
            pos <= n == buf@.len(),
            buf@ == all,
            take_messages(all).0 == Seq::new(out@.len(), |i: int| out@[i]@),
            take_messages(all).1 == all.skip(pos as int),
        decreases n - pos,
    {
        let ghost here = all.skip(pos as int);
        let ghost done = Seq::new(out@.len(), |i: int| out@[i]@);
        if n - pos < 8 {
            proof {
                assert(done + Seq::<Seq<u8>>::empty() =~= done);
            }
            break ;
        }
        let len = u64_from_le_bytes(slice_subrange(buf.as_slice(), pos, pos + 8));
        proof {
            assert(here.take(8) =~= all.subrange(pos as int, pos + 8));
        }
        if ((n - pos - 8) as u64) < len {
            proof {
                assert(done + Seq::<Seq<u8>>::empty() =~= done);
            }
            break ;
        }
        let start: usize = pos + 8;
        let end: usize = start + len as usize;
        let m = slice_to_vec(slice_subrange(buf.as_slice(), start, end));
        proof {
            assert(here.subrange(8, 8 + len) =~= all.subrange(start as int, end as int));
            assert(here.skip(8 + len) =~= all.skip(end as int));
        }
        out.push(m);
        proof {
            let now = Seq::new(out@.len(), |i: int| out@[i]@);
            let more = take_messages(all.skip(end as int)).0;
            assert(now =~= done.push(m@));
            assert(done + (seq![m@] + more) =~= done.push(m@) + more);
        }
        pos = end;
    }
    let rest = buf.split_off(pos);
    *buf = rest;
    proof {
        assert(buf@ =~= all.skip(pos as int));
    }
    out
}

/// What names a stream: its channel and its id.
pub type StreamKey = (u8, u64);

/// The stream that a frame belongs to.
pub open spec fn key_of(f: FrameView) -> StreamKey {
    (f.channel, f.stream.0)
}

/// What a receiver holds: for each stream the bytes of a message that is
/// not whole yet, and whether the session has failed.
pub struct DemuxView {
    pub channels: int,
    pub pending: Map<StreamKey, Seq<u8>>,
    pub failure: Option<ConnectionError>,
}

impl DemuxView {
    /// There are the core channels at least and 256 channels at most,
    /// and what waits on a stream holds no whole message. This is so in
    /// every state that begins empty and changes by `accept_step` alone.
    pub open spec fn wf(self) -> bool {
        &&& RESERVED_CHANNEL_IDS <= self.channels <= 256
        &&& forall|key: StreamKey| #[trigger]
            self.pending.contains_key(key) ==> take_messages(self.pending[key]) == (
                Seq::<Seq<u8>>::empty(),
                self.pending[key],
            )
    }

    /// The bytes that wait on a stream.
    pub open spec fn buffer(self, key: StreamKey) -> Seq<u8> {
        if self.pending.contains_key(key) {
            self.pending[key]
        } else {
            Seq::empty()
        }
    }
}

/// What the arrival of a frame does, and the messages that it makes
/// whole.
pub open spec fn accept_step(s: DemuxView, f: FrameView) -> (
    DemuxView,
    Result<Seq<Seq<u8>>, ConnectionError>,
) {
    match s.failure {
        Some(e) => (s, Err(e)),
        None => if f.channel >= s.channels {
            (
                DemuxView { failure: Some(ConnectionError::MalformedFrame), ..s },
                Err(ConnectionError::MalformedFrame),
            )
        } else {
            let (messages, rest) = take_messages(s.buffer(key_of(f)) + f.payload);
            (
                DemuxView {
                    pending: if rest.len() == 0 {
                        s.pending.remove(key_of(f))
                    } else {
                        s.pending.insert(key_of(f), rest)
                    },
                    ..s
                },
                Ok(messages),
            )
        },
    }
}

/// The state after the session has failed with `err`: the first failure
/// stands.
pub open spec fn failed(s: DemuxView, err: ConnectionError) -> DemuxView {
    DemuxView {
        failure: Some(
            match s.failure {
                Some(e) => e,
                None => err,
            },
        ),
        ..s
    }
}

/// The state after the frames have arrived one after another.
pub open spec fn state_after(s: DemuxView, frames: Seq<FrameView>) -> DemuxView
    decreases frames.len(),
{
    if frames.len() == 0 {
        s
    } else {
        state_after(accept_step(s, frames.first()).0, frames.drop_first())
    }
}

/// The messages that the stream `key` hands out while the frames arrive
/// one after another.
pub open spec fn deliveries(s: DemuxView, frames: Seq<FrameView>, key: StreamKey) -> Seq<Seq<u8>>
    decreases frames.len(),
{
    if frames.len() == 0 {
        Seq::empty()
    } else {
        let (s1, out) = accept_step(s, frames.first());
        let now = if key_of(frames.first()) == key && out is Ok {
            out->Ok_0
        } else {
            Seq::empty()
        };
        now + deliveries(s1, frames.drop_first(), key)
    }
}

/// The bytes that the frames carry for the stream `key`, in their order.
pub open spec fn stream_bytes(frames: Seq<FrameView>, key: StreamKey) -> Seq<u8>
    decreases frames.len(),
{
    if frames.len() == 0 {
        Seq::empty()
    } else {
        (if key_of(frames.first()) == key {
            frames.first().payload
        } else {
            Seq::empty()
        }) + stream_bytes(frames.drop_first(), key)
    }
}

/// What a stream hands out depends only on the bytes sent on it. While
/// frames of any streams arrive in any mixture, the stream `key` hands
/// out the whole messages among what waited on it followed by its own
/// payloads, in order, and keeps the rest.
pub proof fn lemma_stream_depends_on_own_bytes(
    s: DemuxView,
    frames: Seq<FrameView>,
    key: StreamKey,
)
    requires
        s.wf(),
        s.failure is None,
        forall|i: int| 0 <= i < frames.len() ==> (#[trigger] frames[i]).channel < s.channels,
    ensures
        state_after(s, frames).wf(),
        state_after(s, frames).failure is None,
        state_after(s, frames).channels == s.channels,
        deliveries(s, frames, key) == take_messages(
            s.buffer(key) + stream_bytes(frames, key),
        ).0,
        state_after(s, frames).buffer(key) == take_messages(
            s.buffer(key) + stream_bytes(frames, key),
        ).1,
    decreases frames.len(),
{
    let buf = s.buffer(key);
    let none = Seq::<Seq<u8>>::empty();
    if frames.len() == 0 {
        assert(buf + Seq::<u8>::empty() =~= buf);
        if !s.pending.contains_key(key) {
            assert(take_messages(buf) == (none, buf));
        }
    } else {
        let f = frames.first();
        let rest = frames.drop_first();
        let s1 = accept_step(s, f).0;
        assert(f == frames[0]);
        assert forall|i: int| 0 <= i < rest.len() implies (#[trigger] rest[i]).channel
            < s1.channels by {
            assert(rest[i] == frames[i + 1]);
        }
        lemma_accept_step_keeps_wf(s, f);
        lemma_stream_depends_on_own_bytes(s1, rest, key);
        let tail = stream_bytes(rest, key);
        if key_of(f) == key {
            lemma_take_messages_in_parts(buf + f.payload, tail);
            lemma_assoc(buf, f.payload, tail);
            assert(s1.buffer(key) == take_messages(buf + f.payload).1);
        } else {
            assert(s1.buffer(key) == buf);
            assert(Seq::<u8>::empty() + tail =~= tail);
            assert(none + deliveries(s1, rest, key) =~= deliveries(s1, rest, key));
        }
    }
}

/// The frames among `frames` that belong to the stream `key`, in their
/// order.
pub open spec fn own_frames(frames: Seq<FrameView>, key: StreamKey) -> Seq<FrameView>
    decreases frames.len(),
{
    if frames.len() == 0 {
        Seq::empty()
    } else if key_of(frames.first()) == key {
        seq![frames.first()] + own_frames(frames.drop_first(), key)
    } else {
        own_frames(frames.drop_first(), key)
    }
}

/// The bytes of a stream are those of its own frames.
pub proof fn lemma_stream_bytes_of_own_frames(frames: Seq<FrameView>, key: StreamKey)
    ensures
        stream_bytes(frames, key) == stream_bytes(own_frames(frames, key), key),
    decreases frames.len(),
{
    if frames.len() > 0 {
        let rest = frames.drop_first();
        lemma_stream_bytes_of_own_frames(rest, key);
        if key_of(frames.first()) == key {
            let own = own_frames(frames, key);
            assert(own.first() == frames.first());
            assert(own.drop_first() =~= own_frames(rest, key));
        } else {
            assert(Seq::<u8>::empty() + stream_bytes(rest, key) =~= stream_bytes(rest, key));
        }
    }
}

/// The frames of a message on a stream carry the message: its length
/// and its bytes.
pub proof fn lemma_message_frames_carry_message(
    channel: u8,
    stream: StreamID,
    message: Seq<u8>,
)
    ensures
        stream_bytes(message_frames(channel, stream, message), (channel, stream.0)) == blob_bytes(
            message,
        ),
{
    let pieces = crate::frame::chunks(blob_bytes(message), MAX_FRAME_PAYLOAD as nat);
    lemma_chunks(blob_bytes(message), MAX_FRAME_PAYLOAD as nat);
    lemma_frames_of_pieces(channel, stream, pieces);
}

proof fn lemma_frames_of_pieces(channel: u8, stream: StreamID, pieces: Seq<Seq<u8>>)
    ensures
        stream_bytes(
            Seq::new(pieces.len(), |i: int| FrameView { channel, stream, payload: pieces[i] }),
            (channel, stream.0),
        ) == concat(pieces),
    decreases pieces.len(),
{
    let frames = Seq::new(pieces.len(), |i: int| FrameView { channel, stream, payload: pieces[i] });
    if pieces.len() > 0 {
        let rest = pieces.drop_first();
        lemma_frames_of_pieces(channel, stream, rest);
        assert(frames.drop_first() =~= Seq::new(
            rest.len(),
            |i: int| FrameView { channel, stream, payload: rest[i] },
        ));
        assert(frames.first().payload == pieces.first());
    }
}

/// A message that was cut into frames and sent on a stream that was at
/// rest comes out whole and alone, whatever frames of other streams
/// arrive in between, and leaves the stream at rest.
pub proof fn lemma_message_arrives_whole(
    s: DemuxView,
    frames: Seq<FrameView>,
    key: StreamKey,
    message: Seq<u8>,
)
    requires
        s.wf(),
        s.failure is None,
        forall|i: int| 0 <= i < frames.len() ==> (#[trigger] frames[i]).channel < s.channels,
        s.buffer(key).len() == 0,
        message.len() <= u64::MAX,
        own_frames(frames, key) == message_frames(key.0, StreamID(key.1), message),
    ensures
        deliveries(s, frames, key) == seq![message],
        state_after(s, frames).buffer(key).len() == 0,
{
    lemma_stream_depends_on_own_bytes(s, frames, key);
    lemma_stream_bytes_of_own_frames(frames, key);
    lemma_message_frames_carry_message(key.0, StreamID(key.1), message);
    let none = Seq::<u8>::empty();
    lemma_take_messages_whole(message, none);
    assert(blob_bytes(message) + none =~= blob_bytes(message));
    assert(s.buffer(key) + blob_bytes(message) =~= blob_bytes(message));
    assert(seq![message] + Seq::<Seq<u8>>::empty() =~= seq![message]);
}

/// The receiving side of one connection.
pub struct Reassembler {
    streams: Vec<Table<Vec<u8>>>,
    failure: Option<ConnectionError>,
}

impl View for Reassembler {
    type V = DemuxView;

    closed spec fn view(&self) -> DemuxView {
        DemuxView {
            channels: self.streams@.len() as int,
            pending: Map::new(
                |key: StreamKey|
                    key.0 < self.streams@.len() && self.streams@[key.0 as int]@.contains_key(key.1),
                |key: StreamKey| self.streams@[key.0 as int]@[key.1]@,
            ),
            failure: self.failure,
        }
    }
}

impl Reassembler {
    /// The state is in order. Every value that `new` made and the
    /// methods below changed is so.
    pub closed spec fn wf(&self) -> bool {
        &&& self@.wf()
        &&& forall|c: int| 0 <= c < self.streams@.len() ==> (#[trigger] self.streams@[c]).wf()
    }

    /// What is in order as a value is in order as a state.
    pub proof fn lemma_view_wf(&self)
        requires
            self.wf(),
        ensures
            self@.wf(),
    {
    }

    /// A receiver for `channels` channels on which nothing has arrived.
    /// There is none for fewer channels than the core ones, nor for more
    /// than the 256 that a frame can name.
    pub fn new(channels: usize) -> (r: Option<Self>)
        ensures
            r is Some <==> RESERVED_CHANNEL_IDS <= channels <= 256,
            r matches Some(d) ==> d.wf() && d@ == (DemuxView {
                channels: channels as int,
                pending: Map::empty(),
                failure: None,
            }),
    {
        if channels < RESERVED_CHANNEL_IDS as usize || channels > 256 {
            return None;
        }
        let mut streams: Vec<Table<Vec<u8>>> = Vec::new();
        let mut i: usize = 0;
        while i < channels
            invariant
                i <= channels,
                streams@.len() == i,
                forall|c: int|
                    0 <= c < i ==> (#[trigger] streams@[c]).wf() && streams@[c]@ == Map::<
                        u64,
                        Vec<u8>,
                    >::empty(),
            decreases channels - i,
        {
            streams.push(Table::new());
            i += 1;
        }
        let d = Reassembler { streams, failure: None };
        assert(d@.pending =~= Map::<StreamKey, Seq<u8>>::empty());
        Some(d)
    }

    /// The failure that ended the session, if it has ended.
    pub fn failure(&self) -> (r: Option<ConnectionError>)
        ensures
            r == self@.failure,
    {
        self.failure
    }

    /// Ends the session with `err`, unless it has ended before. No frame
    /// is taken in from now on, on any channel.
    pub fn fail(&mut self, err: ConnectionError)
        requires
            old(self).wf(),
        ensures
            final(self).wf(),
            final(self)@ == failed(old(self)@, err),
    {
        if self.failure.is_none() {
            self.failure = Some(err);
        }
    }

    /// Takes in a frame and hands out the messages that it makes whole
    /// on its stream, first sent first.
    pub fn accept(&mut self, frame: Frame) -> (r: Result<Vec<Vec<u8>>, ConnectionError>)
        requires
            old(self).wf(),
        ensures
            final(self).wf(),
            final(self)@ == accept_step(old(self)@, frame@).0,
            match r {
                Ok(messages) => accept_step(old(self)@, frame@).1 == Ok::<
                    Seq<Seq<u8>>,
                    ConnectionError,
                >(Seq::new(messages@.len(), |i: int| messages@[i]@)),
                Err(e) => accept_step(old(self)@, frame@).1 == Err::<
                    Seq<Seq<u8>>,
                    ConnectionError,
                >(e),
            },
    {
        if let Some(e) = self.failure {
            return Err(e);
        }
        let c: usize = frame.channel as usize;
        if c >= self.streams.len() {
            self.failure = Some(ConnectionError::MalformedFrame);
            return Err(ConnectionError::MalformedFrame);
        }
        let ghost before = self@;
        let ghost old_streams = self.streams@;
        let ghost key = key_of(frame@);
        let id: u64 = frame.stream.0;
        let mut buf: Vec<u8> = match self.streams[c].remove(id) {
            Some(b) => b,
            None => Vec::new(),
        };
        proof {
            assert(buf@ =~= before.buffer(key));
        }
        let mut payload = frame.payload;
        buf.append(&mut payload);
        let messages = drain_messages(&mut buf);
        if buf.len() > 0 {
            let _kept = self.streams[c].insert(id, buf);
        }
        proof {
            let want = accept_step(before, frame@).0;
            lemma_accept_step_keeps_wf(before, frame@);
            assert forall|k: int| 0 <= k < self.streams@.len() && k != c implies self.streams@[k]
                == old_streams[k] by {}
            assert forall|k: StreamKey| #[trigger]
                self@.pending.contains_key(k) <==> want.pending.contains_key(k) by {
                if k.0 != c && k.0 < self.streams@.len() {
                    assert(self.streams@[k.0 as int] == old_streams[k.0 as int]);
                }
            }
            assert forall|k: StreamKey| #[trigger]
                self@.pending.contains_key(k) implies self@.pending[k] == want.pending[k] by {
                if k.0 != c {
                    assert(self.streams@[k.0 as int] == old_streams[k.0 as int]);
                }
            }
            assert(self@.pending =~= want.pending);
        }
        Ok(messages)
    }
}

} // verus!
