//! One end of a connection as a whole: the frames that go out, the
//! frames that come in, and the calls that wait in between.
//!
//! The three parts fail together. Whatever breaks the connection (a frame
//! for a channel that does not exist, bytes on the call channel that are
//! no response, a response that nobody waits for, or the loss of the
//! connection itself) ends every channel and every call of the session,
//! and nothing is taken in or sent afterwards.

use crate::demux::{accept_step, lemma_accept_step_keeps_wf, DemuxView, Reassembler};
use crate::error::ConnectionError;
use crate::frame::{message_frames, Frame, FrameView};
use crate::ids::{RpcId, StreamID, RESERVED_CHANNEL_IDS};
use crate::message::RPCRequest;
use crate::mux::{enqueue_step, send_step, Scheduler, SchedulerView};
use crate::rpc::{
    begin_step, receive_step, Delivery, DeliveryView, PendingCalls, PendingView, Refusal, Slot,
};
use crate::wire::request_bytes;
use vstd::prelude::*;

verus! {

/// What a frame that has come in leads to.
pub enum Event<W> {
    /// A response has been matched to its call.
    Call(Delivery<W>),
    /// A message has become whole on a stream of another channel.
    Message { channel: u8, stream: StreamID, bytes: Vec<u8> },
}

/// An `Event` as plain values.
pub enum EventView<W> {
    Call(DeliveryView<W>),
    Message { channel: u8, stream: StreamID, bytes: Seq<u8> },
}

impl<W> View for Event<W> {
    type V = EventView<W>;

    open spec fn view(&self) -> EventView<W> {
        match self {
            Event::Call(d) => EventView::Call(d@),
            Event::Message { channel, stream, bytes } => EventView::Message {
                channel: *channel,
                stream: *stream,
                bytes: bytes@,
            },
        }
    }
}

/// The events that a list of events holds, as plain values.
pub open spec fn events_view<W>(events: Seq<Event<W>>) -> Seq<EventView<W>> {
    Seq::new(events.len(), |i: int| events[i]@)
}

/// The state of one end of a connection.
pub struct SessionView<W> {
    pub sender: SchedulerView,
    pub receiver: DemuxView,
    pub calls: PendingView<W>,
}

impl<W> SessionView<W> {
    /// Both directions are in order and have the same channels, and the
    /// parts agree on whether the session has failed, and how.
    pub open spec fn wf(self) -> bool {
        &&& self.sender.wf()
        &&& self.receiver.wf()
        &&& self.sender.channels.len() == self.receiver.channels
        &&& self.receiver.failure == self.calls.failure
    }

    /// The failure that ended the session, if it has ended.
    pub open spec fn failure(self) -> Option<ConnectionError> {
        self.calls.failure
    }
}

/// What taking in the messages of the call channel does, one after
/// another, up to the first that fails the session: the state afterwards
/// and what became of the messages that went before.
pub open spec fn receive_all<W>(calls: PendingView<W>, messages: Seq<Seq<u8>>) -> (
    PendingView<W>,
    Seq<EventView<W>>,
)
    decreases messages.len(),
{
    if messages.len() == 0 {
        (calls, Seq::empty())
    } else {
        let (after, r) = receive_step(calls, messages.first());
        match r {
            Ok(d) => {
                let (end, more) = receive_all(after, messages.drop_first());
                (end, seq![EventView::Call(d)] + more)
            },
            Err(_) => (after, Seq::empty()),
        }
    }
}

/// What the arrival of a frame does to a session: the state afterwards
/// and the events that the frame leads to. A frame that fails the
/// session, or a message in it that does, fails every part of it.
pub open spec fn frame_step<W>(s: SessionView<W>, f: FrameView) -> (
    SessionView<W>,
    Seq<EventView<W>>,
) {
    let (receiver, accepted) = accept_step(s.receiver, f);
    match accepted {
        Err(e) => (
            SessionView { receiver, calls: crate::rpc::failed(s.calls, e), ..s },
            Seq::empty(),
        ),
        Ok(messages) => if f.channel == 0 {
            let (calls, events) = receive_all(s.calls, messages);
            (
                SessionView {
                    receiver: match calls.failure {
                        Some(e) => crate::demux::failed(receiver, e),
                        None => receiver,
                    },
                    calls,
                    ..s
                },
                events,
            )
        } else {
            (
                SessionView { receiver, ..s },
                Seq::new(
                    messages.len(),
                    |i: int|
                        EventView::Message {
                            channel: f.channel,
                            stream: f.stream,
                            bytes: messages[i],
                        },
                ),
            )
        },
    }
}

/// A session that has failed takes in no message.
pub proof fn lemma_receive_all_after_failure<W>(calls: PendingView<W>, messages: Seq<Seq<u8>>)
    requires
        calls.failure is Some,
    ensures
        receive_all(calls, messages) == (calls, Seq::<EventView<W>>::empty()),
{
}

/// The arrival of a frame keeps the session in order, and leaves alone
/// what waits to be sent.
pub proof fn lemma_frame_step_keeps_wf<W>(s: SessionView<W>, f: FrameView)
    requires
        s.wf(),
    ensures
        frame_step(s, f).0.wf(),
        frame_step(s, f).0.sender == s.sender,
{
    lemma_accept_step_keeps_wf(s.receiver, f);
}

/// Once a session has failed, it has failed on every channel: whatever
/// frame comes in, on whichever channel, nothing is taken in and nothing
/// changes; and no call is begun.
pub proof fn lemma_failure_ends_every_channel<W>(
    s: SessionView<W>,
    f: FrameView,
    id: RpcId,
    waiter: W,
)
    requires
        s.wf(),
        s.failure() is Some,
    ensures
        frame_step(s, f).0 == s,
        frame_step(s, f).1.len() == 0,
        begin_step(s.calls, id, waiter) == (
            s.calls,
            Err::<(), Refusal>(Refusal::SessionFailed(s.failure()->Some_0)),
        ),
{
}

/// Whatever fails a session while a frame is taken in fails all of it:
/// the side that takes frames in and the calls agree on the failure.
pub proof fn lemma_failure_reaches_every_part<W>(s: SessionView<W>, f: FrameView)
    requires
        s.wf(),
    ensures
        frame_step(s, f).0.receiver.failure == frame_step(s, f).0.calls.failure,
{
    lemma_frame_step_keeps_wf(s, f);
}

/// Why a message could not be queued.
#[derive(Debug, PartialEq, Eq, Clone, Copy, Structural)]
pub enum SendRefusal {
    /// The session has failed.
    SessionFailed(ConnectionError),
    /// The session has no channel of that number.
    NoSuchChannel,
}

/// What queueing a message on a stream does: refused once the session
/// has failed, and for a channel that does not exist.
pub open spec fn send_step_of<W>(
    s: SessionView<W>,
    channel: u8,
    stream: StreamID,
    message: Seq<u8>,
) -> (SessionView<W>, Result<(), SendRefusal>) {
    match s.failure() {
        Some(e) => (s, Err(SendRefusal::SessionFailed(e))),
        None => if channel >= s.sender.channels.len() {
            (s, Err(SendRefusal::NoSuchChannel))
        } else {
            (
                SessionView {
                    sender: enqueue_step(
                        s.sender,
                        channel as int,
                        stream,
                        message_frames(channel, stream, message),
                    ),
                    ..s
                },
                Ok(()),
            )
        },
    }
}

/// What starting a call does: the waiter is registered under the id of
/// the request, and the encoded request is queued on the call channel.
pub open spec fn call_step<W>(
    s: SessionView<W>,
    stream: StreamID,
    req: crate::message::RPCRequestView,
    waiter: W,
) -> (SessionView<W>, Result<(), Refusal>) {
    let (calls, r) = begin_step(s.calls, req.id, waiter);
    match r {
        Ok(()) => (
            SessionView {
                calls,
                sender: enqueue_step(
                    s.sender,
                    0,
                    stream,
                    message_frames(0, stream, request_bytes(req)),
                ),
                ..s
            },
            Ok(()),
        ),
        Err(why) => (s, Err(why)),
    }
}

/// What taking the next frame for the wire does: nothing goes out once
/// the session has failed.
pub open spec fn next_frame_step<W>(s: SessionView<W>) -> (SessionView<W>, Option<FrameView>) {
    match s.failure() {
        Some(_) => (s, None),
        None => (SessionView { sender: send_step(s.sender).0, ..s }, send_step(s.sender).1),
    }
}

/// One end of a connection.
pub struct Session<W> {
    sender: Scheduler,
    receiver: Reassembler,
    calls: PendingCalls<W>,
}

impl<W> View for Session<W> {
    type V = SessionView<W>;

    closed spec fn view(&self) -> SessionView<W> {
        SessionView { sender: self.sender@, receiver: self.receiver@, calls: self.calls@ }
    }
}

impl<W> Session<W> {
    /// The session is in order. Every value that `new` made and the
    /// methods below changed is so.
    pub closed spec fn wf(&self) -> bool {
        &&& self@.wf()
        &&& self.receiver.wf()
        &&& self.calls.wf()
    }

    /// What is in order as a value is in order as a state.
    pub proof fn lemma_view_wf(&self)
        requires
            self.wf(),
        ensures
            self@.wf(),
    {
    }

    /// A session of `channels` channels on which nothing has happened
    /// yet. There is none for fewer channels than the core ones, nor for
    /// more than the 256 that a frame can name.
    pub fn new(channels: usize) -> (r: Option<Self>)
        ensures
            r is Some <==> RESERVED_CHANNEL_IDS <= channels <= 256,
            r matches Some(s) ==> s.wf() && s@.failure() is None && s@.calls.calls == Map::<
                RpcId,
                Slot<W>,
            >::empty() && s@.sender.channels.len() == channels && s@.receiver.pending
                == Map::<crate::demux::StreamKey, Seq<u8>>::empty(),
    {
        let sender = match Scheduler::new(channels) {
            Some(s) => s,
            None => {
                return None;
            },
        };
        let receiver = match Reassembler::new(channels) {
            Some(r) => r,
            None => {
                return None;
            },
        };
        Some(Session { sender, receiver, calls: PendingCalls::new() })
    }

    /// The failure that ended the session, if it has ended.
    pub fn failure(&self) -> (r: Option<ConnectionError>)
        ensures
            r == self@.failure(),
    {
        self.calls.failure()
    }

    /// Starts a call. Where it is refused nothing is queued and the
    /// waiter comes back.
    pub fn call(&mut self, stream: StreamID, req: &RPCRequest, waiter: W) -> (r: Result<
        (),
        (Refusal, W),
    >)
        requires
            old(self).wf(),
        ensures
            final(self).wf(),
            final(self)@ == call_step(old(self)@, stream, req@, waiter).0,
            match r {
                Ok(()) => call_step(old(self)@, stream, req@, waiter).1 == Ok::<(), Refusal>(()),
                Err((why, back)) => call_step(old(self)@, stream, req@, waiter).1 == Err::<
                    (),
                    Refusal,
                >(why) && back == waiter,
            },
    {
        self.calls.call(&mut self.sender, stream, req, waiter)
    }

    /// Queues a message on a stream of a channel.
    pub fn send(&mut self, channel: u8, stream: StreamID, message: &[u8]) -> (r: Result<
        (),
        SendRefusal,
    >)
        requires
            old(self).wf(),
        ensures
            final(self).wf(),
            (final(self)@, r) == send_step_of(old(self)@, channel, stream, message@),
    {
        if let Some(e) = self.calls.failure() {
            return Err(SendRefusal::SessionFailed(e));
        }
        if self.sender.enqueue_message(channel, stream, message) {
            Ok(())
        } else {
            Err(SendRefusal::NoSuchChannel)
        }
    }

    /// Takes the frame that is to go on the wire next, if any waits and
    /// the session has not failed.
    pub fn next_frame(&mut self) -> (r: Option<Frame>)
        requires
            old(self).wf(),
        ensures
            final(self).wf(),
            final(self)@ == next_frame_step(old(self)@).0,
            match r {
                Some(f) => next_frame_step(old(self)@).1 == Some(f@),
                None => next_frame_step(old(self)@).1 is None,
            },
    {
        if self.calls.failure().is_some() {
            return None;
        }
        proof {
            crate::mux::lemma_send_step_keeps_wf(self.sender@);
        }
        self.sender.next_frame()
    }

    /// Takes in a frame and says what it leads to: responses matched to
    /// their calls, or messages that have become whole on other
    /// channels. Where the frame fails the session, `failure` tells.
    pub fn on_frame(&mut self, frame: Frame) -> (r: Vec<Event<W>>)
        requires
            old(self).wf(),
        ensures
            final(self).wf(),
            (final(self)@, events_view(r@)) == frame_step(old(self)@, frame@),
    {
        let ghost before = self@;
        let ghost f = frame@;
        let channel = frame.channel;
        let stream = frame.stream;
        proof {
            lemma_frame_step_keeps_wf(before, f);
        }
        let messages = match self.receiver.accept(frame) {
            Ok(m) => m,
            Err(e) => {
                self.calls.mark_failed(e);
                let none: Vec<Event<W>> = Vec::new();
                assert(events_view(none@) =~= Seq::<EventView<W>>::empty());
                return none;
            },
        };
        let ghost got = Seq::new(messages@.len(), |i: int| messages@[i]@);
        let ghost receiver = self.receiver@;
        let mut events: Vec<Event<W>> = Vec::new();
        if channel != 0 {
            let ghost all = messages@;
            for m in it: messages
                invariant
                    it.seq() == all,
                    events@.len() == it.index(),
                    forall|k: int|
                        0 <= k < events@.len() ==> (#[trigger] events@[k])@ == (
                        EventView::<W>::Message { channel, stream, bytes: all[k]@ }),
            {
                events.push(Event::Message { channel, stream, bytes: m });
            }
            assert(events_view(events@) =~= frame_step(before, f).1);
            return events;
        }
        let ghost calls0 = self.calls@;
        let ghost target = frame_step(before, f);
        let n: usize = messages.len();
        let mut i: usize = 0;
        proof {
            assert(got.skip(0) =~= got);
            assert(events_view(events@) + receive_all(calls0, got).1 =~= receive_all(
                calls0,
                got,
            ).1);
        }
        while i < n
            invariant
                i <= n == messages@.len(),
                got == Seq::new(messages@.len(), |k: int| messages@[k]@),
                self.calls.wf(),
                self.receiver.wf(),
                self.receiver@ == receiver,
                self.sender@ == before.sender,
                self.calls@.failure is None,
                target == frame_step(old(self)@, frame@),
                target.0.wf(),
                target.0.sender == before.sender,
                target.0.calls == receive_all(calls0, got).0,
                target.0.receiver == match target.0.calls.failure {
                    Some(e) => crate::demux::failed(receiver, e),
                    None => receiver,
                },
                target.1 == receive_all(calls0, got).1,
                receiver.failure is None,
                receive_all(calls0, got).0 == receive_all(self.calls@, got.skip(i as int)).0,
                receive_all(calls0, got).1 == events_view(events@) + receive_all(
                    self.calls@,
                    got.skip(i as int),
                ).1,
            decreases n - i,
        {
            let ghost left = got.skip(i as int);
            let ghost done = events_view(events@);
            proof {
                assert(left.first() == messages@[i as int]@);
                assert(left.drop_first() =~= got.skip(i + 1));
            }
            match self.calls.receive(messages[i].as_slice()) {
                Ok(d) => {
                    let ghost dv = d@;
                    events.push(Event::Call(d));
                    proof {
                        let more = receive_all(self.calls@, got.skip(i + 1)).1;
                        assert(events_view(events@) =~= done.push(EventView::Call(dv)));
                        assert(done + (seq![EventView::Call(dv)] + more) =~= done.push(
                            EventView::Call(dv),
                        ) + more);
                        assert(self.calls@.failure is None);
                    }
                },
                Err(e) => {
                    self.receiver.fail(e);
                    proof {
                        assert(done + Seq::<EventView<W>>::empty() =~= done);
                    }
                    return events;
                },
            }
            i += 1;
        }
        proof {
            assert(got.skip(n as int).len() == 0);
            assert(events_view(events@) + Seq::<EventView<W>>::empty() =~= events_view(events@));
        }
        events
    }

    /// Ends the session with `err`, unless it has ended before, and hands
    /// out every call that was still waiting, so that each caller can be
    /// told. Nothing is taken in or sent from now on.
    pub fn fail(&mut self, err: ConnectionError) -> (r: Vec<(RpcId, W)>)
        requires
            old(self).wf(),
        ensures
            final(self).wf(),
            final(self)@.failure() == Some(
                match old(self)@.failure() {
                    Some(e) => e,
                    None => err,
                },
            ),
            final(self)@.sender == old(self)@.sender,
            final(self)@.receiver == crate::demux::failed(old(self)@.receiver, err),
            final(self)@.calls.calls == Map::<RpcId, Slot<W>>::empty(),
            forall|i: int|
                0 <= i < r@.len() ==> old(self)@.calls.calls.contains_key((#[trigger] r@[i]).0)
                    && old(self)@.calls.calls[r@[i].0] == Slot::Waiting(r@[i].1),
            forall|i: int, j: int|
                0 <= i < j < r@.len() ==> (#[trigger] r@[i]).0 != (#[trigger] r@[j]).0,
            forall|id: RpcId|
                old(self)@.calls.calls.contains_key(id) && old(self)@.calls.calls[id] is Waiting
                    ==> exists|i: int| 0 <= i < r@.len() && (#[trigger] r@[i]).0 == id,
    {
        self.receiver.fail(err);
        self.calls.fail(err)
    }
}

} // verus!
