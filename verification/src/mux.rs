//! The sending side of the multiplexer: which frame goes on the wire
//! next.
//!
//! Each stream has a queue of frames that wait to be sent, and each
//! channel keeps its streams in a row. The wire is given to the channels
//! in turn: after a frame of one channel, the channels after it are asked
//! first, and a channel with nothing to send is passed over. A channel
//! whose turn it is sends one frame of the stream at the head of its row
//! and moves that stream to the end of the row.
//!
//! As every frame is bounded, nothing waits for long: a channel that has
//! something to send waits for at most one frame of each other channel,
//! and a stream for at most one frame of each stream before it in the
//! row, however much the others have queued.

use crate::frame::{frames_view, message_frames, split_message, Frame, FrameView};
use crate::ids::{StreamID, RESERVED_CHANNEL_IDS};
use std::collections::VecDeque;
use vstd::prelude::*;

verus! {

/// The frames of one stream that wait to be sent, first to go first.
pub struct StreamQueueView {
    pub stream: StreamID,
    pub frames: Seq<FrameView>,
}

impl StreamQueueView {
    /// Some frame waits, and every frame that waits is within the size
    /// limit and belongs to this stream of channel `channel`.
    pub open spec fn wf(self, channel: int) -> bool {
        &&& self.frames.len() > 0
        &&& forall|k: int|
            0 <= k < self.frames.len() ==> (#[trigger] self.frames[k]).wf() && self.frames[k].channel
                == channel && self.frames[k].stream == self.stream
    }
}

/// What a scheduler holds: for each channel the row of its streams that
/// have frames waiting, and the channel that is asked first for the next
/// frame.
pub struct SchedulerView {
    pub channels: Seq<Seq<StreamQueueView>>,
    pub cursor: int,
}

impl SchedulerView {
    /// There are the core channels at least and 256 channels at most, the
    /// cursor names a channel, every queue in a row is in order, and no
    /// stream stands twice in a row.
    pub open spec fn wf(self) -> bool {
        &&& RESERVED_CHANNEL_IDS <= self.channels.len() <= 256
        &&& 0 <= self.cursor < self.channels.len()
        &&& forall|c: int, i: int|
            0 <= c < self.channels.len() && 0 <= i < self.channels[c].len() ==> (
            #[trigger] self.channels[c][i]).wf(c)
        &&& forall|c: int, i: int, j: int|
            0 <= c < self.channels.len() && 0 <= i < j < self.channels[c].len() ==> (
            #[trigger] self.channels[c][i]).stream != (#[trigger] self.channels[c][j]).stream
    }

    /// How many channels are asked before channel `c` when the next frame
    /// is picked.
    pub open spec fn turns_before(self, c: int) -> int {
        if c >= self.cursor {
            c - self.cursor
        } else {
            c - self.cursor + self.channels.len()
        }
    }
}

/// The first channel from `lo` up to but not including `hi` that has a
/// frame waiting.
pub open spec fn first_ready(channels: Seq<Seq<StreamQueueView>>, lo: int, hi: int) -> Option<int>
    decreases hi - lo,
{
    if lo >= hi {
        None
    } else if channels[lo].len() > 0 {
        Some(lo)
    } else {
        first_ready(channels, lo + 1, hi)
    }
}

/// The channel whose turn it is: the first with a frame waiting, asking
/// from the cursor on and around.
pub open spec fn next_channel(s: SchedulerView) -> Option<int> {
    match first_ready(s.channels, s.cursor, s.channels.len() as int) {
        Some(c) => Some(c),
        None => first_ready(s.channels, 0, s.cursor),
    }
}

/// The row of a channel after it has sent a frame: the stream at the head
/// has given up its first frame and, if it has more, stands at the end.
pub open spec fn rotate(row: Seq<StreamQueueView>) -> Seq<StreamQueueView> {
    let head = row.first();
    let left = head.frames.drop_first();
    if left.len() > 0 {
        row.drop_first().push(StreamQueueView { stream: head.stream, frames: left })
    } else {
        row.drop_first()
    }
}

/// What sending the next frame does: the channel whose turn it is sends
/// the first frame of the stream at the head of its row, and the cursor
/// moves behind that channel.
pub open spec fn send_step(s: SchedulerView) -> (SchedulerView, Option<FrameView>) {
    match next_channel(s) {
        None => (s, None),
        Some(c) => (
            SchedulerView {
                channels: s.channels.update(c, rotate(s.channels[c])),
                cursor: if c + 1 == s.channels.len() {
                    0
                } else {
                    c + 1
                },
            },
            Some(s.channels[c].first().frames.first()),
        ),
    }
}

/// Whether the stream stands in the row.
pub open spec fn has_stream(row: Seq<StreamQueueView>, stream: StreamID) -> bool {
    exists|i: int| 0 <= i < row.len() && (#[trigger] row[i]).stream == stream
}

/// Where the stream stands in the row.
pub open spec fn stream_index(row: Seq<StreamQueueView>, stream: StreamID) -> int {
    choose|i: int| 0 <= i < row.len() && (#[trigger] row[i]).stream == stream
}

/// The row of a channel after frames have been queued on a stream: they
/// go behind what waits on the stream, and a stream on which nothing
/// waited joins the row at its end.
pub open spec fn enqueue_row(
    row: Seq<StreamQueueView>,
    stream: StreamID,
    frames: Seq<FrameView>,
) -> Seq<StreamQueueView> {
    if frames.len() == 0 {
        row
    } else if has_stream(row, stream) {
        let i = stream_index(row, stream);
        row.update(i, StreamQueueView { stream, frames: row[i].frames + frames })
    } else {
        row.push(StreamQueueView { stream, frames })
    }
}

/// What queueing frames on a stream of a channel does.
pub open spec fn enqueue_step(
    s: SchedulerView,
    channel: int,
    stream: StreamID,
    frames: Seq<FrameView>,
) -> SchedulerView {
    SchedulerView {
        channels: s.channels.update(channel, enqueue_row(s.channels[channel], stream, frames)),
        ..s
    }
}

/// Whether the frames can be queued on the stream: each is within the
/// size limit and carries the channel and the stream.
pub open spec fn frames_ok(frames: Seq<FrameView>, channel: int, stream: StreamID) -> bool {
    forall|i: int|
        0 <= i < frames.len() ==> (#[trigger] frames[i]).wf() && frames[i].channel == channel
            && frames[i].stream == stream
}

proof fn lemma_first_ready(channels: Seq<Seq<StreamQueueView>>, lo: int, hi: int)
    requires
        0 <= lo <= hi <= channels.len(),
    ensures
        match first_ready(channels, lo, hi) {
            Some(c) => lo <= c < hi && channels[c].len() > 0 && forall|i: int|
                lo <= i < c ==> (#[trigger] channels[i]).len() == 0,
            None => forall|i: int| lo <= i < hi ==> (#[trigger] channels[i]).len() == 0,
        },
    decreases hi - lo,
{
    if lo < hi && channels[lo].len() == 0 {
        lemma_first_ready(channels, lo + 1, hi);
    }
}

proof fn lemma_first_ready_found(channels: Seq<Seq<StreamQueueView>>, lo: int, hi: int, c: int)
    requires
        0 <= lo <= c <= hi <= channels.len(),
        forall|i: int| lo <= i < c ==> (#[trigger] channels[i]).len() == 0,
        c < hi ==> channels[c].len() > 0,
    ensures
        first_ready(channels, lo, hi) == if c < hi {
            Some(c)
        } else {
            None
        },
    decreases c - lo,
{
    if lo < c {
        lemma_first_ready_found(channels, lo + 1, hi, c);
    }
}

/// The channel whose turn it is has a frame waiting, and so has none of
/// those that are asked before it. It is nobody's turn only where
/// nothing waits at all.
pub proof fn lemma_next_channel(s: SchedulerView)
    requires
        s.wf(),
    ensures
        match next_channel(s) {
            Some(c) => 0 <= c < s.channels.len() && s.channels[c].len() > 0 && forall|i: int|
                0 <= i < s.channels.len() && s.turns_before(i) < s.turns_before(c) ==> (
                #[trigger] s.channels[i]).len() == 0,
            None => forall|i: int|
                0 <= i < s.channels.len() ==> (#[trigger] s.channels[i]).len() == 0,
        },
{
    lemma_first_ready(s.channels, s.cursor, s.channels.len() as int);
    lemma_first_ready(s.channels, 0, s.cursor);
}

/// A row that has sent a frame is in order, and every stream but the one
/// at its head has moved up by one place with its queue untouched.
proof fn lemma_rotate(row: Seq<StreamQueueView>, c: int)
    requires
        row.len() > 0,
        forall|i: int| 0 <= i < row.len() ==> (#[trigger] row[i]).wf(c),
        forall|i: int, j: int|
            0 <= i < j < row.len() ==> (#[trigger] row[i]).stream != (#[trigger] row[j]).stream,
    ensures
        forall|i: int| 0 <= i < rotate(row).len() ==> (#[trigger] rotate(row)[i]).wf(c),
        forall|i: int, j: int|
            0 <= i < j < rotate(row).len() ==> (#[trigger] rotate(row)[i]).stream != (
            #[trigger] rotate(row)[j]).stream,
        forall|i: int| 1 <= i < row.len() ==> rotate(row)[i - 1] == #[trigger] row[i],
        row.len() - 1 <= rotate(row).len() <= row.len(),
        row.first().frames.first().wf(),
        row.first().frames.first().channel == c,
        row.first().frames.first().stream == row.first().stream,
{
    let after = rotate(row);
    let head = row.first();
    let left = head.frames.drop_first();
    assert(row[0].wf(c));
    assert(head.frames[0].wf());
    assert forall|i: int| 0 <= i < after.len() implies (#[trigger] after[i]).wf(c) by {
        if i < row.len() - 1 {
            assert(after[i] == row[i + 1]);
        } else {
            assert forall|k: int| 0 <= k < left.len() implies (#[trigger] left[k]).wf()
                && left[k].channel == c && left[k].stream == head.stream by {
                assert(left[k] == head.frames[k + 1]);
            }
        }
    }
    assert forall|i: int, j: int| 0 <= i < j < after.len() implies (#[trigger] after[i]).stream
        != (#[trigger] after[j]).stream by {
        assert(after[i] == row[i + 1]);
        if j < row.len() - 1 {
            assert(after[j] == row[j + 1]);
        } else {
            assert(after[j].stream == row[0].stream);
        }
    }
}

/// One frame is sent while a stream of channel `c` has frames waiting at
/// place `p` of the row. Either the first of these frames goes, or a
/// frame of another stream goes and the stream moves closer to its turn,
/// with its queue untouched: its channel comes up sooner, or its channel
/// has just sent and it has moved up in the row.
pub proof fn lemma_send_step_is_fair(s: SchedulerView, c: int, p: int)
    requires
        s.wf(),
        0 <= c < s.channels.len(),
        0 <= p < s.channels[c].len(),
    ensures
        send_step(s).0.wf(),
        send_step(s).0.channels.len() == s.channels.len(),
        send_step(s).1 is Some,
        send_step(s).1->Some_0.wf(),
        next_channel(s) == Some(c) && p == 0 ==> send_step(s).1 == Some(
            s.channels[c][p].frames.first(),
        ),
        next_channel(s) == Some(c) && p > 0 ==> p - 1 < send_step(s).0.channels[c].len()
            && send_step(s).0.channels[c][p - 1] == s.channels[c][p] && send_step(
            s,
        ).0.turns_before(c) == s.channels.len() - 1,
        next_channel(s) != Some(c) ==> send_step(s).0.channels[c] == s.channels[c] && send_step(
            s,
        ).0.turns_before(c) < s.turns_before(c),
        !(next_channel(s) == Some(c) && p == 0) ==> !(send_step(s).1->Some_0.channel == c
            && send_step(s).1->Some_0.stream == s.channels[c][p].stream),
{
    lemma_next_channel(s);
    let n = next_channel(s)->Some_0;
    let after = send_step(s).0;
    let row = s.channels[n];
    assert forall|i: int| 0 <= i < row.len() implies (#[trigger] row[i]).wf(n) by {
        assert(s.channels[n][i].wf(n));
    }
    assert forall|i: int, j: int| 0 <= i < j < row.len() implies (#[trigger] row[i]).stream != (
    #[trigger] row[j]).stream by {
        assert(s.channels[n][i].stream != s.channels[n][j].stream);
    }
    lemma_rotate(row, n);
    assert forall|k: int, i: int|
        0 <= k < after.channels.len() && 0 <= i < after.channels[k].len() implies (
    #[trigger] after.channels[k][i]).wf(k) by {
        if k != n {
            assert(after.channels[k][i] == s.channels[k][i]);
        }
    }
    assert forall|k: int, i: int, j: int|
        0 <= k < after.channels.len() && 0 <= i < j < after.channels[k].len() implies (
    #[trigger] after.channels[k][i]).stream != (#[trigger] after.channels[k][j]).stream by {
        if k != n {
            assert(after.channels[k][i] == s.channels[k][i]);
            assert(after.channels[k][j] == s.channels[k][j]);
        }
    }
    if n != c {
        if s.turns_before(c) < s.turns_before(n) {
            assert(s.channels[c].len() == 0);
        }
    } else if p > 0 {
        assert(rotate(row)[p - 1] == row[p]);
        assert(row[0].stream != row[p].stream);
    }
}

/// Sending a frame keeps the state in order.
pub proof fn lemma_send_step_keeps_wf(s: SchedulerView)
    requires
        s.wf(),
    ensures
        send_step(s).0.wf(),
        send_step(s).0.channels.len() == s.channels.len(),
{
    lemma_next_channel(s);
    if next_channel(s) is Some {
        lemma_send_step_is_fair(s, next_channel(s)->Some_0, 0);
    }
}

/// Queueing valid frames keeps the state in order, and every stream that
/// had frames waiting keeps its place in the row and its first frame.
pub proof fn lemma_enqueue_keeps_heads(
    s: SchedulerView,
    channel: int,
    stream: StreamID,
    frames: Seq<FrameView>,
    c: int,
    p: int,
)
    requires
        s.wf(),
        0 <= channel < s.channels.len(),
        frames_ok(frames, channel, stream),
        0 <= c < s.channels.len(),
        0 <= p < s.channels[c].len(),
    ensures
        enqueue_step(s, channel, stream, frames).wf(),
        enqueue_step(s, channel, stream, frames).channels.len() == s.channels.len(),
        enqueue_step(s, channel, stream, frames).turns_before(c) == s.turns_before(c),
        p < enqueue_step(s, channel, stream, frames).channels[c].len(),
        enqueue_step(s, channel, stream, frames).channels[c][p].stream == s.channels[c][p].stream,
        enqueue_step(s, channel, stream, frames).channels[c][p].frames.first()
            == s.channels[c][p].frames.first(),
{
    lemma_enqueue_keeps_wf(s, channel, stream, frames);
    assert(s.channels[c][p].wf(c));
}

/// Queueing valid frames keeps the state in order.
pub proof fn lemma_enqueue_keeps_wf(
    s: SchedulerView,
    channel: int,
    stream: StreamID,
    frames: Seq<FrameView>,
)
    requires
        s.wf(),
        0 <= channel < s.channels.len(),
        frames_ok(frames, channel, stream),
    ensures
        enqueue_step(s, channel, stream, frames).wf(),
        enqueue_step(s, channel, stream, frames).channels.len() == s.channels.len(),
{
    let after = enqueue_step(s, channel, stream, frames);
    let row = s.channels[channel];
    let new_row = enqueue_row(row, stream, frames);
    assert forall|i: int| 0 <= i < new_row.len() implies (#[trigger] new_row[i]).wf(channel) by {
        if frames.len() == 0 {
            assert(s.channels[channel][i].wf(channel));
        } else if has_stream(row, stream) {
            let k = stream_index(row, stream);
            assert(s.channels[channel][i].wf(channel));
            if i == k {
                let joined = row[k].frames + frames;
                assert forall|x: int| 0 <= x < joined.len() implies (#[trigger] joined[x]).wf()
                    && joined[x].channel == channel && joined[x].stream == stream by {
                    if x < row[k].frames.len() {
                        assert(joined[x] == row[k].frames[x]);
                    } else {
                        assert(joined[x] == frames[x - row[k].frames.len()]);
                    }
                }
            }
        } else {
            if i < row.len() {
                assert(s.channels[channel][i].wf(channel));
            }
        }
    }
    assert forall|i: int, j: int| 0 <= i < j < new_row.len() implies (
    #[trigger] new_row[i]).stream != (#[trigger] new_row[j]).stream by {
        if frames.len() == 0 {
            assert(s.channels[channel][i].stream != s.channels[channel][j].stream);
        } else if has_stream(row, stream) {
            assert(s.channels[channel][i].stream != s.channels[channel][j].stream);
        } else {
            if j < row.len() {
                assert(s.channels[channel][i].stream != s.channels[channel][j].stream);
            } else {
                assert(row[i].stream != stream);
            }
        }
    }
    assert forall|k: int, i: int|
        0 <= k < after.channels.len() && 0 <= i < after.channels[k].len() implies (
    #[trigger] after.channels[k][i]).wf(k) by {
        if k != channel {
            assert(after.channels[k][i] == s.channels[k][i]);
        }
    }
    assert forall|k: int, i: int, j: int|
        0 <= k < after.channels.len() && 0 <= i < j < after.channels[k].len() implies (
    #[trigger] after.channels[k][i]).stream != (#[trigger] after.channels[k][j]).stream by {
        if k != channel {
            assert(after.channels[k][i] == s.channels[k][i]);
            assert(after.channels[k][j] == s.channels[k][j]);
        }
    }
}

/// What happens at the sending side: a stream queues frames, or the wire
/// takes the next frame.
pub enum MuxEvent {
    Enqueue { channel: int, stream: StreamID, frames: Seq<FrameView> },
    Send,
}

/// Whether an event can happen to a scheduler of `n` channels.
pub open spec fn event_ok(e: MuxEvent, n: int) -> bool {
    match e {
        MuxEvent::Enqueue { channel, stream, frames } => 0 <= channel < n && frames_ok(
            frames,
            channel,
            stream,
        ),
        MuxEvent::Send => true,
    }
}

/// What a run of events does: the state after them and the frames that
/// went on the wire, first to go first.
pub open spec fn run_events(s: SchedulerView, events: Seq<MuxEvent>) -> (
    SchedulerView,
    Seq<FrameView>,
)
    decreases events.len(),
{
    if events.len() == 0 {
        (s, Seq::empty())
    } else {
        match events.first() {
            MuxEvent::Enqueue { channel, stream, frames } => run_events(
                enqueue_step(s, channel, stream, frames),
                events.drop_first(),
            ),
            MuxEvent::Send => {
                let (s1, sent) = send_step(s);
                let (s2, more) = run_events(s1, events.drop_first());
                match sent {
                    Some(f) => (s2, seq![f] + more),
                    None => (s2, more),
                }
            },
        }
    }
}

/// How many of the events take a frame for the wire.
pub open spec fn count_sends(events: Seq<MuxEvent>) -> nat
    decreases events.len(),
{
    if events.len() == 0 {
        0
    } else {
        (if events.first() is Send {
            1nat
        } else {
            0nat
        }) + count_sends(events.drop_first())
    }
}

/// The most frames that go on the wire before the first frame of the
/// stream at place `p` of the row of channel `c`: one for each channel
/// that is asked before `c`, and one round of all channels for each
/// stream that stands before it in the row.
pub open spec fn longest_wait(s: SchedulerView, c: int, p: int) -> int {
    s.turns_before(c) + p * s.channels.len()
}

/// Nothing is kept waiting by another one's load. Let a stream of
/// channel `c` stand at place `p` of the row with a frame waiting.
/// Whatever the streams queue from now on, and however much waits on
/// the others, the frame is sent after at most `longest_wait` frames:
/// a number that depends on how many channels and streams there are, not
/// on how much they have to send. The frames that go before are frames
/// of other streams, each within the size limit.
pub proof fn lemma_head_waits_a_bounded_time(
    s: SchedulerView,
    c: int,
    p: int,
    events: Seq<MuxEvent>,
)
    requires
        s.wf(),
        0 <= c < s.channels.len(),
        0 <= p < s.channels[c].len(),
        forall|i: int|
            0 <= i < events.len() ==> event_ok(#[trigger] events[i], s.channels.len() as int),
        count_sends(events) > longest_wait(s, c, p),
    ensures
        exists|j: int|
            0 <= j <= longest_wait(s, c, p) && j < run_events(s, events).1.len()
                && #[trigger] run_events(s, events).1[j] == s.channels[c][p].frames.first()
                && forall|i: int|
                0 <= i < j ==> !((#[trigger] run_events(s, events).1[i]).channel == c
                    && run_events(s, events).1[i].stream == s.channels[c][p].stream)
                    && run_events(s, events).1[i].wf(),
    decreases events.len(),
{
    let n = s.channels.len() as int;
    let head = s.channels[c][p].frames.first();
    let stream = s.channels[c][p].stream;
    let rest = events.drop_first();
    assert(p * n >= 0) by (nonlinear_arith)
        requires
            p >= 0,
            n >= 0,
    ;
    assert(events.len() > 0);
    assert forall|i: int| 0 <= i < rest.len() implies event_ok(#[trigger] rest[i], n) by {
        assert(rest[i] == events[i + 1]);
    }
    assert(event_ok(events[0], n));
    match events.first() {
        MuxEvent::Enqueue { channel, stream: other, frames } => {
            let s1 = enqueue_step(s, channel, other, frames);
            lemma_enqueue_keeps_heads(s, channel, other, frames, c, p);
            lemma_head_waits_a_bounded_time(s1, c, p, rest);
            assert(run_events(s, events) == run_events(s1, rest));
        },
        MuxEvent::Send => {
            lemma_send_step_is_fair(s, c, p);
            let s1 = send_step(s).0;
            let f = send_step(s).1->Some_0;
            let more = run_events(s1, rest).1;
            let sent = run_events(s, events).1;
            assert(sent == seq![f] + more);
            if next_channel(s) == Some(c) && p == 0 {
                assert(sent[0] == head);
            } else {
                let q = if next_channel(s) == Some(c) {
                    p - 1
                } else {
                    p
                };
                assert(longest_wait(s1, c, q) < longest_wait(s, c, p)) by {
                    if next_channel(s) == Some(c) {
                        assert((p - 1) * n + n == p * n) by (nonlinear_arith);
                    }
                }
                lemma_head_waits_a_bounded_time(s1, c, q, rest);
                let j = choose|j: int|
                    0 <= j <= longest_wait(s1, c, q) && j < more.len() && #[trigger] more[j]
                        == s1.channels[c][q].frames.first() && forall|i: int|
                        0 <= i < j ==> !((#[trigger] more[i]).channel == c && more[i].stream
                            == s1.channels[c][q].stream) && more[i].wf();
                assert(sent[j + 1] == more[j]);
                assert forall|i: int| 0 <= i < j + 1 implies !((#[trigger] sent[i]).channel == c
                    && sent[i].stream == stream) && sent[i].wf() by {
                    if i > 0 {
                        assert(sent[i] == more[i - 1]);
                    }
                }
            }
        },
    }
}

/// The frames of one stream that wait to be sent.
struct StreamQueue {
    stream: StreamID,
    frames: VecDeque<Frame>,
}

impl View for StreamQueue {
    type V = StreamQueueView;

    closed spec fn view(&self) -> StreamQueueView {
        StreamQueueView { stream: self.stream, frames: frames_view(self.frames@) }
    }
}

/// The rows of streams that a list of rows holds, as plain values.
spec fn row_view(row: Seq<StreamQueue>) -> Seq<StreamQueueView> {
    Seq::new(row.len(), |i: int| row[i]@)
}

/// The queues of frames that wait for the wire.
pub struct Scheduler {
    channels: Vec<Vec<StreamQueue>>,
    cursor: usize,
}

impl View for Scheduler {
    type V = SchedulerView;

    closed spec fn view(&self) -> SchedulerView {
        SchedulerView {
            channels: Seq::new(self.channels@.len(), |c: int| row_view(self.channels@[c]@)),
            cursor: self.cursor as int,
        }
    }
}

/// Moves the frames to the back of a queue, in their order.
fn append_frames(queue: &mut VecDeque<Frame>, frames: Vec<Frame>)
    ensures
        final(queue)@ == old(queue)@ + frames@,
{
    let ghost base = queue@;
    for f in it: frames
        invariant
            queue@ == base + it.seq().take(it.index() as int),
    {
        queue.push_back(f);
    }
}

/// Queues frames on a stream of a row.
fn enqueue_in_row(row: &mut Vec<StreamQueue>, stream: StreamID, frames: Vec<Frame>)
    requires
        frames@.len() > 0,
        forall|i: int, j: int|
            0 <= i < j < old(row)@.len() ==> (#[trigger] row_view(old(row)@)[i]).stream != (
            #[trigger] row_view(old(row)@)[j]).stream,
    ensures
        row_view(final(row)@) == enqueue_row(row_view(old(row)@), stream, frames_view(frames@)),
{
    let ghost before = row_view(row@);
    let ghost queued = frames@;
    let ghost added = frames_view(frames@);
    let mut i: usize = 0;
    while i < row.len()
        invariant
            i <= row@.len(),
            row_view(row@) == before,
            before == row_view(old(row)@),
            frames@ == queued,
            queued.len() > 0,
            added == frames_view(queued),
            forall|a: int, b: int|
                0 <= a < b < before.len() ==> (#[trigger] before[a]).stream != (
                #[trigger] before[b]).stream,
            forall|k: int| 0 <= k < i ==> (#[trigger] before[k]).stream != stream,
        decreases row.len() - i,
    {
        if row[i].stream.0 == stream.0 {
            let ghost old_frames = row@[i as int].frames@;
            proof {
                assert(before[i as int].stream == stream);
                assert(has_stream(before, stream));
            }
            append_frames(&mut row[i].frames, frames);
            proof {
                let k = stream_index(before, stream);
                assert(frames_view(old_frames + queued) =~= frames_view(old_frames) + added);
                if k < i {
                    assert(before[k].stream != before[i as int].stream);
                } else if k > i {
                    assert(before[i as int].stream != before[k].stream);
                }
                assert(k == i);
                assert(row_view(row@) =~= before.update(
                    i as int,
                    StreamQueueView { stream, frames: before[i as int].frames + added },
                ));
                assert(added.len() > 0);
            }
            return ;
        }
        proof {
            assert(before[i as int].stream != stream);
        }
        i += 1;
    }
    let mut queue: VecDeque<Frame> = VecDeque::new();
    append_frames(&mut queue, frames);
    row.push(StreamQueue { stream, frames: queue });
    proof {
        assert(queue@ =~= queued);
        assert(!has_stream(before, stream));
        assert(row_view(row@) =~= before.push(StreamQueueView { stream, frames: added }));
    }
}

/// Takes the first frame of the stream at the head of a row and moves
/// the stream to the end of the row.
fn send_from_row(row: &mut Vec<StreamQueue>) -> (f: Frame)
    requires
        old(row)@.len() > 0,
        row_view(old(row)@).first().frames.len() > 0,
    ensures
        row_view(final(row)@) == rotate(row_view(old(row)@)),
        f@ == row_view(old(row)@).first().frames.first(),
{
    let ghost before = row_view(row@);
    let mut head = row.remove(0);
    assert(head@ == before[0]);
    proof {
        assert(row_view(row@) =~= before.drop_first());
    }
    let ghost waiting = head.frames@;
    let frame = head.frames.pop_front();
    proof {
        assert(frames_view(head.frames@) =~= frames_view(waiting).drop_first());
    }
    if head.frames.len() > 0 {
        let ghost moved = head@;
        row.push(head);
        proof {
            assert(row_view(row@) =~= before.drop_first().push(moved));
        }
    }
    match frame {
        Some(f) => f,
        None => vstd::pervasive::unreached(),
    }
}

impl Scheduler {
    /// The state is in order.
    pub open spec fn wf(&self) -> bool {
        self@.wf()
    }

    /// A scheduler for `channels` channels with nothing to send: the
    /// core channels and, above them, the extension channels. There is
    /// none for fewer channels than the core ones, nor for more than the
    /// 256 that a frame can name.
    pub fn new(channels: usize) -> (r: Option<Self>)
        ensures
            r is Some <==> RESERVED_CHANNEL_IDS <= channels <= 256,
            r matches Some(s) ==> s.wf() && s@ == (SchedulerView {
                channels: Seq::new(channels as nat, |c: int| Seq::<StreamQueueView>::empty()),
                cursor: 0,
            }),
    {
        if channels < RESERVED_CHANNEL_IDS as usize || channels > 256 {
            return None;
        }
        let mut rows: Vec<Vec<StreamQueue>> = Vec::new();
        let mut i: usize = 0;
        while i < channels
            invariant
                i <= channels,
                rows@.len() == i,
                forall|c: int| 0 <= c < i ==> (#[trigger] rows@[c])@.len() == 0,
            decreases channels - i,
        {
            rows.push(Vec::new());
            i += 1;
        }
        let s = Scheduler { channels: rows, cursor: 0 };
        proof {
            assert forall|c: int| 0 <= c < channels implies #[trigger] s@.channels[c]
                =~= Seq::<StreamQueueView>::empty() by {
                assert(s.channels@[c]@.len() == 0);
            }
            assert(s@.channels =~= Seq::new(
                channels as nat,
                |c: int| Seq::<StreamQueueView>::empty(),
            ));
        }
        Some(s)
    }

    /// The number of channels.
    pub fn channels(&self) -> (n: usize)
        ensures
            n == self@.channels.len(),
    {
        self.channels.len()
    }

    /// The first channel from `lo` up to but not including `hi` that has
    /// a frame waiting.
    fn scan(&self, lo: usize, hi: usize) -> (r: Option<usize>)
        requires
            lo <= hi <= self@.channels.len(),
        ensures
            match r {
                Some(c) => first_ready(self@.channels, lo as int, hi as int) == Some(c as int),
                None => first_ready(self@.channels, lo as int, hi as int) is None,
            },
    {
        let mut i: usize = lo;
        while i < hi
            invariant
                lo <= i <= hi <= self.channels@.len(),
                self@.channels.len() == self.channels@.len(),
                forall|k: int| lo <= k < i ==> (#[trigger] self@.channels[k]).len() == 0,
            decreases hi - i,
        {
            if self.channels[i].len() > 0 {
                proof {
                    assert(self@.channels[i as int].len() > 0);
                    lemma_first_ready_found(self@.channels, lo as int, hi as int, i as int);
                }
                return Some(i);
            }
            assert(self@.channels[i as int].len() == 0);
            i += 1;
        }
        proof {
            lemma_first_ready_found(self@.channels, lo as int, hi as int, hi as int);
        }
        None
    }

    /// Whether no frame waits.
    pub fn is_idle(&self) -> (r: bool)
        requires
            self.wf(),
        ensures
            r == (next_channel(self@) is None),
    {
        match self.scan(self.cursor, self.channels.len()) {
            Some(_) => false,
            None => self.scan(0, self.cursor).is_none(),
        }
    }

    /// Cuts a message into frames and queues them on its stream.
    /// Returns whether there is such a channel; nothing is queued where
    /// there is none.
    pub fn enqueue_message(&mut self, channel: u8, stream: StreamID, message: &[u8]) -> (r: bool)
        requires
            old(self).wf(),
        ensures
            final(self).wf(),
            r == (channel < old(self)@.channels.len()),
            r ==> final(self)@ == enqueue_step(
                old(self)@,
                channel as int,
                stream,
                message_frames(channel, stream, message@),
            ),
            !r ==> final(self)@ == old(self)@,
    {
        let c: usize = channel as usize;
        if c >= self.channels.len() {
            return false;
        }
        let ghost before = self@;
        let ghost old_rows = self.channels@;
        let frames = split_message(channel, stream, message);
        let ghost added = message_frames(channel, stream, message@);
        proof {
            crate::frame::lemma_chunks(
                crate::codec::blob_bytes(message@),
                crate::frame::MAX_FRAME_PAYLOAD as nat,
            );
            assert forall|i: int| 0 <= i < added.len() implies (#[trigger] added[i]).wf()
                && added[i].channel == channel && added[i].stream == stream by {
                assert(added[i] == frames@[i]@);
            }
            assert(frames@.len() == added.len());
        }
        proof {
            let row = row_view(self.channels@[c as int]@);
            assert forall|i: int, j: int| 0 <= i < j < row.len() implies (
            #[trigger] row[i]).stream != (#[trigger] row[j]).stream by {
                assert(before.channels[c as int][i].stream != before.channels[c as int][j].stream);
            }
        }
        enqueue_in_row(&mut self.channels[c], stream, frames);
        proof {
            let want = enqueue_step(before, channel as int, stream, added);
            assert(self@.channels.len() == want.channels.len());
            assert forall|k: int| 0 <= k < self@.channels.len() implies #[trigger] self@.channels[k]
                == want.channels[k] by {
                if k != c {
                    assert(self.channels@[k] == old_rows[k]);
                }
            }
            assert(self@.channels =~= want.channels);
            lemma_enqueue_keeps_wf(before, channel as int, stream, added);
        }
        true
    }

    /// Takes the frame that is to go on the wire next, if any waits.
    pub fn next_frame(&mut self) -> (r: Option<Frame>)
        requires
            old(self).wf(),
        ensures
            final(self).wf(),
            final(self)@ == send_step(old(self)@).0,
            match r {
                Some(f) => send_step(old(self)@).1 == Some(f@),
                None => send_step(old(self)@).1 is None,
            },
    {
        let ghost before = self@;
        let ghost old_rows = self.channels@;
        let n: usize = self.channels.len();
        let found = match self.scan(self.cursor, n) {
            Some(c) => Some(c),
            None => self.scan(0, self.cursor),
        };
        let c: usize = match found {
            Some(c) => c,
            None => {
                return None;
            },
        };
        proof {
            lemma_next_channel(before);
            assert(next_channel(before) == Some(c as int));
            assert(before.channels[c as int][0].wf(c as int));
        }
        let frame = send_from_row(&mut self.channels[c]);
        self.cursor = if c + 1 == n {
            0
        } else {
            c + 1
        };
        proof {
            let want = send_step(before).0;
            assert forall|k: int| 0 <= k < self@.channels.len() implies #[trigger] self@.channels[k]
                == want.channels[k] by {
                if k != c {
                    assert(self.channels@[k] == old_rows[k]);
                }
            }
            assert(self@.channels =~= want.channels);
            lemma_send_step_is_fair(before, c as int, 0);
        }
        Some(frame)
    }
}

} // verus!
