//! The runner's end of a connection: requests come in, responses go out.
//!
//! A runner serves each request once. It may send any number of slow-log
//! notes while it works on a request, and one response that ends it;
//! after that the id of the request stands for nothing until it is used
//! again. A request under an id that is still being served breaks the
//! protocol, as do bytes on the call channel that are no request.

use crate::demux::{accept_step, lemma_accept_step_keeps_wf, DemuxView, Reassembler};
use crate::error::ConnectionError;
use crate::frame::{message_frames, Frame, FrameView};
use crate::ids::{RpcId, StreamID, RESERVED_CHANNEL_IDS};
use crate::message::{RPCRequest, RPCRequestView, RPCResponse, RPCResponseView};
use crate::mux::{enqueue_step, lemma_send_step_keeps_wf, send_step, Scheduler, SchedulerView};
use crate::session::SendRefusal;
use crate::table::Table;
use crate::wire::{
    decode_request, encode_response, lemma_request_bytes_injective, request_bytes,
    response_bytes,
};
use vstd::prelude::*;

verus! {

/// What a frame that has come in leads to.
pub enum Arrival {
    /// A request to serve.
    Request(RPCRequest),
    /// A message that has become whole on a stream of another channel.
    Message { channel: u8, stream: StreamID, bytes: Vec<u8> },
}

/// An `Arrival` as plain values.
pub enum ArrivalView {
    Request(RPCRequestView),
    Message { channel: u8, stream: StreamID, bytes: Seq<u8> },
}

impl View for Arrival {
    type V = ArrivalView;

    open spec fn view(&self) -> ArrivalView {
        match self {
            Arrival::Request(r) => ArrivalView::Request(r@),
            Arrival::Message { channel, stream, bytes } => ArrivalView::Message {
                channel: *channel,
                stream: *stream,
                bytes: bytes@,
            },
        }
    }
}

/// The arrivals that a list holds, as plain values.
pub open spec fn arrivals_view(arrivals: Seq<Arrival>) -> Seq<ArrivalView> {
    Seq::new(arrivals.len(), |i: int| arrivals[i]@)
}

/// Why a response could not be sent.
#[derive(Debug, PartialEq, Eq, Clone, Copy, Structural)]
pub enum RespondRefusal {
    /// The session has failed.
    SessionFailed(ConnectionError),
    /// No request under that id is being served: none came, or the
    /// response that ended it has been sent.
    NotServing,
}

/// The state of a runner's end of a connection.
pub struct RunnerView {
    pub sender: SchedulerView,
    pub receiver: DemuxView,
    /// The ids of the requests that are being served.
    pub serving: Set<RpcId>,
}

impl RunnerView {
    /// Both directions are in order and have the same channels.
    pub open spec fn wf(self) -> bool {
        &&& self.sender.wf()
        &&& self.receiver.wf()
        &&& self.sender.channels.len() == self.receiver.channels
    }

    /// The failure that ended the session, if it has ended.
    pub open spec fn failure(self) -> Option<ConnectionError> {
        self.receiver.failure
    }
}

/// The valid request that `bytes` encode, if they encode one.
pub open spec fn decoded_request(bytes: Seq<u8>) -> Option<RPCRequestView> {
    if exists|v: RPCRequestView| v.wf() && #[trigger] request_bytes(v) == bytes {
        Some(choose|v: RPCRequestView| v.wf() && #[trigger] request_bytes(v) == bytes)
    } else {
        None
    }
}

/// The bytes of a valid request are taken in as the request itself.
pub proof fn lemma_decoded_request(req: RPCRequestView)
    requires
        req.wf(),
    ensures
        decoded_request(request_bytes(req)) == Some(req),
{
    let got = decoded_request(request_bytes(req))->Some_0;
    lemma_request_bytes_injective(req, got);
}

/// What became of the messages of the call channel.
pub struct Intake {
    /// The ids that are being served afterwards.
    pub serving: Set<RpcId>,
    /// The requests to serve, in the order in which they came.
    pub arrivals: Seq<ArrivalView>,
    /// What failed the session, if a message did.
    pub failure: Option<ConnectionError>,
}

/// What taking in the messages of the call channel does, one after
/// another, up to the first that fails the session. Bytes that are no
/// request fail it, and so does a request under an id that is being
/// served.
pub open spec fn take_requests(serving: Set<RpcId>, messages: Seq<Seq<u8>>) -> Intake
    decreases messages.len(),
{
    if messages.len() == 0 {
        Intake { serving, arrivals: Seq::empty(), failure: None }
    } else {
        match decoded_request(messages.first()) {
            None => Intake {
                serving,
                arrivals: Seq::empty(),
                failure: Some(ConnectionError::MalformedMessage),
            },
            Some(req) => if serving.contains(req.id) {
                Intake {
                    serving,
                    arrivals: Seq::empty(),
                    failure: Some(ConnectionError::RequestIdInUse),
                }
            } else {
                let more = take_requests(serving.insert(req.id), messages.drop_first());
                Intake { arrivals: seq![ArrivalView::Request(req)] + more.arrivals, ..more }
            },
        }
    }
}

/// What the arrival of a frame does to a runner's session: the state
/// afterwards and what the frame leads to.
pub open spec fn frame_step(s: RunnerView, f: FrameView) -> (RunnerView, Seq<ArrivalView>) {
    let (receiver, accepted) = accept_step(s.receiver, f);
    match accepted {
        Err(e) => (RunnerView { receiver, ..s }, Seq::empty()),
        Ok(messages) => if f.channel == 0 {
            let intake = take_requests(s.serving, messages);
            (
                RunnerView {
                    receiver: match intake.failure {
                        Some(e) => crate::demux::failed(receiver, e),
                        None => receiver,
                    },
                    serving: intake.serving,
                    ..s
                },
                intake.arrivals,
            )
        } else {
            (
                RunnerView { receiver, ..s },
                Seq::new(
                    messages.len(),
                    |i: int|
                        ArrivalView::Message {
                            channel: f.channel,
                            stream: f.stream,
                            bytes: messages[i],
                        },
                ),
            )
        },
    }
}

/// What sending a response does. It is refused once the session has
/// failed and where no request under its id is being served. A slow-log
/// note leaves the request being served; any other response ends it.
pub open spec fn respond_step(s: RunnerView, stream: StreamID, resp: RPCResponseView) -> (
    RunnerView,
    Result<(), RespondRefusal>,
) {
    match s.failure() {
        Some(e) => (s, Err(RespondRefusal::SessionFailed(e))),
        None => if !s.serving.contains(resp.id) {
            (s, Err(RespondRefusal::NotServing))
        } else {
            (
                RunnerView {
                    sender: enqueue_step(
                        s.sender,
                        0,
                        stream,
                        message_frames(0, stream, response_bytes(resp)),
                    ),
                    serving: if resp.data.is_terminal() {
                        s.serving.remove(resp.id)
                    } else {
                        s.serving
                    },
                    ..s
                },
                Ok(()),
            )
        },
    }
}

/// What queueing a message on a stream does: refused once the session
/// has failed, and for a channel that does not exist.
pub open spec fn send_message_step(
    s: RunnerView,
    channel: u8,
    stream: StreamID,
    message: Seq<u8>,
) -> (RunnerView, Result<(), SendRefusal>) {
    match s.failure() {
        Some(e) => (s, Err(SendRefusal::SessionFailed(e))),
        None => if channel >= s.sender.channels.len() {
            (s, Err(SendRefusal::NoSuchChannel))
        } else {
            (
                RunnerView {
                    sender: enqueue_step(
                        s.sender,
                        channel as int,
                        stream,
                        message_frames(channel, stream, message),
                    ),
                    ..s
                },
                Ok(()),
            )
        },
    }
}

/// What taking the next frame for the wire does: nothing goes out once
/// the session has failed.
pub open spec fn next_frame_step(s: RunnerView) -> (RunnerView, Option<FrameView>) {
    match s.failure() {
        Some(_) => (s, None),
        None => (RunnerView { sender: send_step(s.sender).0, ..s }, send_step(s.sender).1),
    }
}

/// The arrival of a frame keeps the session in order.
pub proof fn lemma_frame_step_keeps_wf(s: RunnerView, f: FrameView)
    requires
        s.wf(),
    ensures
        frame_step(s, f).0.wf(),
        frame_step(s, f).0.sender == s.sender,
{
    lemma_accept_step_keeps_wf(s.receiver, f);
}

/// A request is answered at most once. After the response that ends it,
/// every further response under its id is refused, slow-log notes too,
/// until a request under that id comes in again.
pub proof fn lemma_one_response_ends_a_request(
    s: RunnerView,
    stream: StreamID,
    resp: RPCResponseView,
    again: RPCResponseView,
)
    requires
        s.failure() is None,
        s.serving.contains(resp.id),
        resp.data.is_terminal(),
        again.id == resp.id,
    ensures
        respond_step(s, stream, resp).1 is Ok,
        respond_step(respond_step(s, stream, resp).0, stream, again) == (
            respond_step(s, stream, resp).0,
            Err::<(), RespondRefusal>(RespondRefusal::NotServing),
        ),
{
}

/// While a request is being served, slow-log notes can be sent, however
/// many, and the request goes on being served.
pub proof fn lemma_notes_leave_request_served(
    s: RunnerView,
    stream: StreamID,
    note: RPCResponseView,
)
    requires
        s.failure() is None,
        s.serving.contains(note.id),
        !note.data.is_terminal(),
    ensures
        respond_step(s, stream, note).1 is Ok,
        respond_step(s, stream, note).0.serving == s.serving,
        respond_step(s, stream, note).0.failure() is None,
{
}

/// The runner's end of a connection.
pub struct RunnerSession {
    sender: Scheduler,
    receiver: Reassembler,
    serving: Table<()>,
}

impl View for RunnerSession {
    type V = RunnerView;

    closed spec fn view(&self) -> RunnerView {
        RunnerView {
            sender: self.sender@,
            receiver: self.receiver@,
            serving: self.serving@.dom(),
        }
    }
}

impl RunnerSession {
    /// The session is in order. Every value that `new` made and the
    /// methods below changed is so.
    pub closed spec fn wf(&self) -> bool {
        &&& self@.wf()
        &&& self.receiver.wf()
        &&& self.serving.wf()
    }

    /// What is in order as a value is in order as a state.
    pub proof fn lemma_view_wf(&self)
        requires
            self.wf(),
        ensures
            self@.wf(),
    {
    }

    /// A session of `channels` channels on which nothing has happened
    /// yet. There is none for fewer channels than the core ones, nor for
    /// more than the 256 that a frame can name.
    pub fn new(channels: usize) -> (r: Option<Self>)
        ensures
            r is Some <==> RESERVED_CHANNEL_IDS <= channels <= 256,
            r matches Some(s) ==> s.wf() && s@.failure() is None && s@.serving == Set::<
                RpcId,
            >::empty() && s@.sender.channels.len() == channels && s@.receiver.pending
                == Map::<crate::demux::StreamKey, Seq<u8>>::empty(),
    {
        let sender = match Scheduler::new(channels) {
            Some(s) => s,
            None => {
                return None;
            },
        };
        let receiver = match Reassembler::new(channels) {
            Some(r) => r,
            None => {
                return None;
            },
        };
        let s = RunnerSession { sender, receiver, serving: Table::new() };
        assert(s@.serving =~= Set::<RpcId>::empty());
        Some(s)
    }

    /// The failure that ended the session, if it has ended.
    pub fn failure(&self) -> (r: Option<ConnectionError>)
        ensures
            r == self@.failure(),
    {
        self.receiver.failure()
    }

    /// Whether a request under `id` is being served.
    pub fn is_serving(&self, id: RpcId) -> (r: bool)
        ensures
            r == self@.serving.contains(id),
    {
        self.serving.contains_key(id)
    }

    /// Takes in a frame and says what it leads to: requests to serve, or
    /// messages that have become whole on other channels. Where the
    /// frame fails the session, `failure` tells.
    pub fn on_frame(&mut self, frame: Frame) -> (r: Vec<Arrival>)
        requires
            old(self).wf(),
        ensures
            final(self).wf(),
            (final(self)@, arrivals_view(r@)) == frame_step(old(self)@, frame@),
    {
        let ghost before = self@;
        let ghost f = frame@;
        let channel = frame.channel;
        let stream = frame.stream;
        proof {
            lemma_frame_step_keeps_wf(before, f);
        }
        let messages = match self.receiver.accept(frame) {
            Ok(m) => m,
            Err(_) => {
                let none: Vec<Arrival> = Vec::new();
                assert(arrivals_view(none@) =~= Seq::<ArrivalView>::empty());
                return none;
            },
        };
        let ghost got = Seq::new(messages@.len(), |i: int| messages@[i]@);
        let ghost receiver = self.receiver@;
        let mut arrivals: Vec<Arrival> = Vec::new();
        if channel != 0 {
            let ghost all = messages@;
            for m in it: messages
                invariant
                    it.seq() == all,
                    arrivals@.len() == it.index(),
                    forall|k: int|
                        0 <= k < arrivals@.len() ==> (#[trigger] arrivals@[k])@ == (
                        ArrivalView::Message { channel, stream, bytes: all[k]@ }),
            {
                arrivals.push(Arrival::Message { channel, stream, bytes: m });
            }
            assert(arrivals_view(arrivals@) =~= frame_step(before, f).1);
            return arrivals;
        }
        let ghost serving0 = before.serving;
        let ghost target = frame_step(before, f);
        let ghost want = take_requests(serving0, got);
        let n: usize = messages.len();
        let mut i: usize = 0;
        proof {
            assert(got.skip(0) =~= got);
            assert(arrivals_view(arrivals@) + want.arrivals =~= want.arrivals);
        }
        while i < n
            invariant
                i <= n == messages@.len(),
                got == Seq::new(messages@.len(), |k: int| messages@[k]@),
                self.serving.wf(),
                self.receiver.wf(),
                self.receiver@ == receiver,
                self.sender@ == before.sender,
                receiver.failure is None,
                target == frame_step(old(self)@, frame@),
                target.0.wf(),
                target.0.sender == before.sender,
                target.0.serving == want.serving,
                target.0.receiver == match want.failure {
                    Some(e) => crate::demux::failed(receiver, e),
                    None => receiver,
                },
                target.1 == want.arrivals,
                want.serving == take_requests(self@.serving, got.skip(i as int)).serving,
                want.failure == take_requests(self@.serving, got.skip(i as int)).failure,
                want.arrivals == arrivals_view(arrivals@) + take_requests(
                    self@.serving,
                    got.skip(i as int),
                ).arrivals,
            decreases n - i,
        {
            let ghost left = got.skip(i as int);
            let ghost done = arrivals_view(arrivals@);
            let ghost here = self@.serving;
            proof {
                assert(left.first() == messages@[i as int]@);
                assert(left.drop_first() =~= got.skip(i + 1));
            }
            let req = match decode_request(messages[i].as_slice()) {
                Ok(req) => req,
                Err(_) => {
                    self.receiver.fail(ConnectionError::MalformedMessage);
                    proof {
                        assert(done + Seq::<ArrivalView>::empty() =~= done);
                    }
                    return arrivals;
                },
            };
            proof {
                let got_req = decoded_request(left.first())->Some_0;
                lemma_request_bytes_injective(req@, got_req);
            }
            match self.serving.insert(req.id, ()) {
                Ok(()) => {},
                Err(_) => {
                    self.receiver.fail(ConnectionError::RequestIdInUse);
                    proof {
                        assert(done + Seq::<ArrivalView>::empty() =~= done);
                    }
                    return arrivals;
                },
            }
            let ghost rv = req@;
            arrivals.push(Arrival::Request(req));
            proof {
                let more = take_requests(self@.serving, got.skip(i + 1)).arrivals;
                assert(self@.serving =~= here.insert(rv.id));
                assert(arrivals_view(arrivals@) =~= done.push(ArrivalView::Request(rv)));
                assert(done + (seq![ArrivalView::Request(rv)] + more) =~= done.push(
                    ArrivalView::Request(rv),
                ) + more);
            }
            i += 1;
        }
        proof {
            assert(got.skip(n as int).len() == 0);
            assert(arrivals_view(arrivals@) + Seq::<ArrivalView>::empty() =~= arrivals_view(
                arrivals@,
            ));
        }
        arrivals
    }

    /// Sends a response to a request that is being served.
    pub fn respond(&mut self, stream: StreamID, resp: &RPCResponse) -> (r: Result<
        (),
        RespondRefusal,
    >)
        requires
            old(self).wf(),
        ensures
            final(self).wf(),
            (final(self)@, r) == respond_step(old(self)@, stream, resp@),
    {
        if let Some(e) = self.receiver.failure() {
            return Err(RespondRefusal::SessionFailed(e));
        }
        if !self.serving.contains_key(resp.id) {
            return Err(RespondRefusal::NotServing);
        }
        let ghost before = self@;
        let bytes = encode_response(resp);
        let _queued = self.sender.enqueue_message(0, stream, bytes.as_slice());
        if resp.data.is_terminal() {
            let _served = self.serving.remove(resp.id);
            assert(self@.serving =~= before.serving.remove(resp.id));
        }
        Ok(())
    }

    /// Queues a message on a stream of a channel.
    pub fn send(&mut self, channel: u8, stream: StreamID, message: &[u8]) -> (r: Result<
        (),
        SendRefusal,
    >)
        requires
            old(self).wf(),
        ensures
            final(self).wf(),
            (final(self)@, r) == send_message_step(old(self)@, channel, stream, message@),
    {
        if let Some(e) = self.receiver.failure() {
            return Err(SendRefusal::SessionFailed(e));
        }
        if self.sender.enqueue_message(channel, stream, message) {
            Ok(())
        } else {
            Err(SendRefusal::NoSuchChannel)
        }
    }

    /// Takes the frame that is to go on the wire next, if any waits and
    /// the session has not failed.
    pub fn next_frame(&mut self) -> (r: Option<Frame>)
        requires
            old(self).wf(),
        ensures
            final(self).wf(),
            final(self)@ == next_frame_step(old(self)@).0,
            match r {
                Some(f) => next_frame_step(old(self)@).1 == Some(f@),
                None => next_frame_step(old(self)@).1 is None,
            },
    {
        if self.receiver.failure().is_some() {
            return None;
        }
        proof {
            lemma_send_step_keeps_wf(self.sender@);
        }
        self.sender.next_frame()
    }

    /// Ends the session with `err`, unless it has ended before. Nothing
    /// is taken in or sent from now on.
    pub fn fail(&mut self, err: ConnectionError)
        requires
            old(self).wf(),
        ensures
            final(self).wf(),
            final(self)@ == (RunnerView {
                receiver: crate::demux::failed(old(self)@.receiver, err),
                ..old(self)@
            }),
    {
        self.receiver.fail(err);
    }
}

} // verus!
