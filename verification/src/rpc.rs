//! The bookkeeping of calls in flight.
//!
//! A caller picks an id, registers a waiter under it and sends the
//! request. Responses come back in any order. Each is matched to the call
//! that waits under its id: a slow-log note is passed on and the call
//! keeps waiting, any other response ends the call and frees the id. A
//! response under an id that nobody waits for breaks the protocol and
//! fails the whole session.
//!
//! Nothing here sends or receives. The functions take what happened and
//! say what to do; whoever owns the connection does it.

use crate::error::ConnectionError;
use crate::frame::message_frames;
use crate::ids::{RpcId, StreamID};
use crate::message::{
    RPCRequest, RPCResponse, RPCResponseData, RPCResponseDataView, RPCResponseView,
};
use crate::mux::{enqueue_step, Scheduler};
use crate::table::Table;
use crate::wire::{
    decode_response, encode_request, lemma_response_bytes_injective, request_bytes,
    response_bytes,
};
use vstd::prelude::*;

verus! {

/// What the table holds for a call in flight.
pub enum Slot<W> {
    /// The caller waits for the response.
    Waiting(W),
    /// The caller has lost interest. The id stays taken until the
    /// response has come and has been thrown away.
    Abandoned,
}

/// Why a call could not be registered.
#[derive(Debug, PartialEq, Eq, Clone, Copy, Structural)]
pub enum Refusal {
    /// A call under that id is still in flight.
    IdInUse,
    /// The session has failed.
    SessionFailed(ConnectionError),
}

/// What to do with a response that has arrived.
pub enum Delivery<W> {
    /// Pass the note on to the caller of call `id`, who keeps waiting.
    Progress { id: RpcId, note: String },
    /// Hand the outcome to the waiter. The call is over.
    Complete { waiter: W, outcome: RPCResponseData },
    /// Throw the response away: its caller has lost interest.
    Discarded { id: RpcId },
}

/// A `Delivery` as plain values.
pub enum DeliveryView<W> {
    Progress { id: RpcId, note: Seq<char> },
    Complete { waiter: W, outcome: RPCResponseDataView },
    Discarded { id: RpcId },
}

impl<W> View for Delivery<W> {
    type V = DeliveryView<W>;

    open spec fn view(&self) -> DeliveryView<W> {
        match self {
            Delivery::Progress { id, note } => DeliveryView::Progress { id: *id, note: note@ },
            Delivery::Complete { waiter, outcome } => DeliveryView::Complete {
                waiter: *waiter,
                outcome: outcome@,
            },
            Delivery::Discarded { id } => DeliveryView::Discarded { id: *id },
        }
    }
}

/// The state of a session's calls: what is in flight, and whether the
/// session has failed.
pub struct PendingView<W> {
    pub calls: Map<RpcId, Slot<W>>,
    pub failure: Option<ConnectionError>,
}

/// What registering a call does.
pub open spec fn begin_step<W>(s: PendingView<W>, id: RpcId, waiter: W) -> (
    PendingView<W>,
    Result<(), Refusal>,
) {
    match s.failure {
        Some(e) => (s, Err(Refusal::SessionFailed(e))),
        None => if s.calls.contains_key(id) {
            (s, Err(Refusal::IdInUse))
        } else {
            (PendingView { calls: s.calls.insert(id, Slot::Waiting(waiter)), ..s }, Ok(()))
        },
    }
}

/// What the arrival of a response does.
pub open spec fn step<W>(s: PendingView<W>, resp: RPCResponseView) -> (
    PendingView<W>,
    Result<DeliveryView<W>, ConnectionError>,
) {
    match s.failure {
        Some(e) => (s, Err(e)),
        None => if !s.calls.contains_key(resp.id) {
            (
                PendingView { failure: Some(ConnectionError::UnknownResponseId), ..s },
                Err(ConnectionError::UnknownResponseId),
            )
        } else if resp.data is SlowLog {
            match s.calls[resp.id] {
                Slot::Waiting(_) => (
                    s,
                    Ok(DeliveryView::Progress { id: resp.id, note: resp.data->SlowLog_e }),
                ),
                Slot::Abandoned => (s, Ok(DeliveryView::Discarded { id: resp.id })),
            }
        } else {
            let rest = PendingView { calls: s.calls.remove(resp.id), ..s };
            match s.calls[resp.id] {
                Slot::Waiting(w) => (
                    rest,
                    Ok(DeliveryView::Complete { waiter: w, outcome: resp.data }),
                ),
                Slot::Abandoned => (rest, Ok(DeliveryView::Discarded { id: resp.id })),
            }
        },
    }
}

/// The state after the session has failed with `err`: the first failure
/// stands.
pub open spec fn failed<W>(s: PendingView<W>, err: ConnectionError) -> PendingView<W> {
    PendingView {
        failure: Some(
            match s.failure {
                Some(e) => e,
                None => err,
            },
        ),
        ..s
    }
}

/// The valid response that `bytes` encode, if they encode one.
pub open spec fn decoded_response(bytes: Seq<u8>) -> Option<RPCResponseView> {
    if exists|v: RPCResponseView| v.wf() && #[trigger] response_bytes(v) == bytes {
        Some(choose|v: RPCResponseView| v.wf() && #[trigger] response_bytes(v) == bytes)
    } else {
        None
    }
}

/// What the arrival of a message on the call channel does. Bytes that
/// encode no valid response fail the session; a response is taken in as
/// `step` says.
pub open spec fn receive_step<W>(s: PendingView<W>, bytes: Seq<u8>) -> (
    PendingView<W>,
    Result<DeliveryView<W>, ConnectionError>,
) {
    match s.failure {
        Some(e) => (s, Err(e)),
        None => match decoded_response(bytes) {
            Some(resp) => step(s, resp),
            None => (
                PendingView { failure: Some(ConnectionError::MalformedMessage), ..s },
                Err(ConnectionError::MalformedMessage),
            ),
        },
    }
}

/// The bytes of a valid response are taken in as the response itself.
pub proof fn lemma_receive_encoded_response<W>(s: PendingView<W>, resp: RPCResponseView)
    requires
        resp.wf(),
    ensures
        decoded_response(response_bytes(resp)) == Some(resp),
        s.failure is None ==> receive_step(s, response_bytes(resp)) == step(s, resp),
{
    let got = decoded_response(response_bytes(resp))->Some_0;
    lemma_response_bytes_injective(resp, got);
}

/// What the arrival of several responses, one after another, does.
pub open spec fn run<W>(s: PendingView<W>, resps: Seq<RPCResponseView>) -> (
    PendingView<W>,
    Seq<Result<DeliveryView<W>, ConnectionError>>,
)
    decreases resps.len(),
{
    if resps.len() == 0 {
        (s, Seq::empty())
    } else {
        let (s1, d) = step(s, resps.first());
        let (s2, ds) = run(s1, resps.drop_first());
        (s2, seq![d] + ds)
    }
}

/// What registering several calls, one after another, does to the state.
pub open spec fn begin_all<W>(s: PendingView<W>, ids: Seq<RpcId>, waiters: Seq<W>) -> PendingView<
    W,
>
    recommends
        ids.len() == waiters.len(),
    decreases ids.len(),
{
    if ids.len() == 0 {
        s
    } else {
        begin_all(begin_step(s, ids.first(), waiters.first()).0, ids.drop_first(), waiters.drop_first())
    }
}

/// The calls of one session that wait for their responses.
pub struct PendingCalls<W> {
    table: Table<Slot<W>>,
    failure: Option<ConnectionError>,
}

impl<W> View for PendingCalls<W> {
    type V = PendingView<W>;

    closed spec fn view(&self) -> PendingView<W> {
        PendingView { calls: self.table@, failure: self.failure }
    }
}

impl<W> PendingCalls<W> {
    /// The table behind the state is in order. Every value that `new`
    /// made and the methods below changed is so.
    pub closed spec fn wf(&self) -> bool {
        self.table.wf()
    }

    /// A session with no call in flight.
    pub fn new() -> (p: Self)
        ensures
            p.wf(),
            p@ == (PendingView::<W> { calls: Map::empty(), failure: None }),
    {
        PendingCalls { table: Table::new(), failure: None }
    }

    /// The failure that ended the session, if it has ended.
    pub fn failure(&self) -> (r: Option<ConnectionError>)
        ensures
            r == self@.failure,
    {
        self.failure
    }

    /// Whether a call under `id` is in flight.
    pub fn is_pending(&self, id: RpcId) -> (r: bool)
        ensures
            r == self@.calls.contains_key(id),
    {
        self.table.contains_key(id)
    }

    /// Registers a call under `id`. It is refused, and the waiter handed
    /// back, where the session has failed or the id is in use.
    pub fn begin(&mut self, id: RpcId, waiter: W) -> (r: Result<(), (Refusal, W)>)
        requires
            old(self).wf(),
        ensures
            final(self).wf(),
            final(self)@ == begin_step(old(self)@, id, waiter).0,
            match r {
                Ok(()) => begin_step(old(self)@, id, waiter).1 == Ok::<(), Refusal>(()),
                Err((why, back)) => begin_step(old(self)@, id, waiter).1 == Err::<(), Refusal>(
                    why,
                ) && back == waiter,
            },
    {
        if let Some(e) = self.failure {
            return Err((Refusal::SessionFailed(e), waiter));
        }
        match self.table.insert(id, Slot::Waiting(waiter)) {
            Ok(()) => Ok(()),
            Err(Slot::Waiting(back)) => Err((Refusal::IdInUse, back)),
            Err(Slot::Abandoned) => vstd::pervasive::unreached(),
        }
    }

    /// Gives up the call under `id`. Its waiter comes back, and the id
    /// stays taken until the response arrives and is thrown away. Where
    /// no caller waits under `id`, nothing changes.
    pub fn abandon(&mut self, id: RpcId) -> (r: Option<W>)
        requires
            old(self).wf(),
        ensures
            final(self).wf(),
            match r {
                Some(w) => old(self)@.calls.contains_key(id) && old(self)@.calls[id]
                    == Slot::Waiting(w) && final(self)@ == (PendingView {
                    calls: old(self)@.calls.insert(id, Slot::Abandoned),
                    ..old(self)@
                }),
                None => !(old(self)@.calls.contains_key(id) && old(self)@.calls[id] is Waiting)
                    && final(self)@ == old(self)@,
            },
    {
        let ghost before = self@.calls;
        match self.table.remove(id) {
            None => None,
            Some(Slot::Abandoned) => {
                let _kept = self.table.insert(id, Slot::Abandoned);
                proof {
                    assert(self@.calls =~= before);
                }
                None
            },
            Some(Slot::Waiting(w)) => {
                let _kept = self.table.insert(id, Slot::Abandoned);
                proof {
                    assert(self@.calls =~= before.insert(id, Slot::Abandoned));
                }
                Some(w)
            },
        }
    }

    /// Takes in a response and says what to do with it.
    pub fn dispatch(&mut self, resp: RPCResponse) -> (r: Result<Delivery<W>, ConnectionError>)
        requires
            old(self).wf(),
        ensures
            final(self).wf(),
            final(self)@ == step(old(self)@, resp@).0,
            match r {
                Ok(d) => step(old(self)@, resp@).1 == Ok::<DeliveryView<W>, ConnectionError>(d@),
                Err(e) => step(old(self)@, resp@).1 == Err::<DeliveryView<W>, ConnectionError>(e),
            },
    {
        if let Some(e) = self.failure {
            return Err(e);
        }
        let id = resp.id;
        match resp.data {
            RPCResponseData::SlowLog { e } => match self.table.get(id) {
                None => {
                    self.failure = Some(ConnectionError::UnknownResponseId);
                    Err(ConnectionError::UnknownResponseId)
                },
                Some(Slot::Waiting(_)) => Ok(Delivery::Progress { id, note: e }),
                Some(Slot::Abandoned) => Ok(Delivery::Discarded { id }),
            },
            outcome => match self.table.remove(id) {
                None => {
                    self.failure = Some(ConnectionError::UnknownResponseId);
                    Err(ConnectionError::UnknownResponseId)
                },
                Some(Slot::Waiting(waiter)) => Ok(Delivery::Complete { waiter, outcome }),
                Some(Slot::Abandoned) => Ok(Delivery::Discarded { id }),
            },
        }
    }

    /// Notes that the session has failed with `err`, unless it has
    /// failed before. The calls in flight stay where they are until
    /// `fail` hands them out.
    pub fn mark_failed(&mut self, err: ConnectionError)
        requires
            old(self).wf(),
        ensures
            final(self).wf(),
            final(self)@ == failed(old(self)@, err),
    {
        if self.failure.is_none() {
            self.failure = Some(err);
        }
    }

    /// Takes in the bytes of a message that arrived on the call channel
    /// and says what to do with it.
    pub fn receive(&mut self, bytes: &[u8]) -> (r: Result<Delivery<W>, ConnectionError>)
        requires
            old(self).wf(),
        ensures
            final(self).wf(),
            final(self)@ == receive_step(old(self)@, bytes@).0,
            match r {
                Ok(d) => receive_step(old(self)@, bytes@).1 == Ok::<
                    DeliveryView<W>,
                    ConnectionError,
                >(d@),
                Err(e) => receive_step(old(self)@, bytes@).1 == Err::<
                    DeliveryView<W>,
                    ConnectionError,
                >(e),
            },
    {
        if let Some(e) = self.failure {
            return Err(e);
        }
        match decode_response(bytes) {
            Ok(resp) => {
                proof {
                    let got = decoded_response(bytes@)->Some_0;
                    lemma_response_bytes_injective(resp@, got);
                }
                self.dispatch(resp)
            },
            Err(_) => {
                self.failure = Some(ConnectionError::MalformedMessage);
                Err(ConnectionError::MalformedMessage)
            },
        }
    }

    /// Starts a call: registers the waiter under the id of the request
    /// and queues the encoded request on the call channel, as a message
    /// of the stream `stream`. Where the call is refused nothing is
    /// queued and the waiter comes back.
    pub fn call(
        &mut self,
        scheduler: &mut Scheduler,
        stream: StreamID,
        req: &RPCRequest,
        waiter: W,
    ) -> (r: Result<(), (Refusal, W)>)
        requires
            old(self).wf(),
            old(scheduler).wf(),
        ensures
            final(self).wf(),
            final(scheduler).wf(),
            final(self)@ == begin_step(old(self)@, req.id, waiter).0,
            match r {
                Ok(()) => begin_step(old(self)@, req.id, waiter).1 == Ok::<(), Refusal>(())
                    && final(scheduler)@ == enqueue_step(
                    old(scheduler)@,
                    0,
                    stream,
                    message_frames(0, stream, request_bytes(req@)),
                ),
                Err((why, back)) => begin_step(old(self)@, req.id, waiter).1 == Err::<
                    (),
                    Refusal,
                >(why) && back == waiter && final(scheduler)@ == old(scheduler)@,
            },
    {
        match self.begin(req.id, waiter) {
            Ok(()) => {
                let bytes = encode_request(req);
                let _queued = scheduler.enqueue_message(0, stream, bytes.as_slice());
                Ok(())
            },
            Err(refused) => Err(refused),
        }
    }

    /// Ends the session with `err`, unless it has ended before, and hands
    /// out every call that was still waiting, so that each caller can be
    /// told. No call is in flight afterwards.
    pub fn fail(&mut self, err: ConnectionError) -> (r: Vec<(RpcId, W)>)
        requires
            old(self).wf(),
        ensures
            final(self).wf(),
            final(self)@.calls == Map::<RpcId, Slot<W>>::empty(),
            final(self)@.failure == Some(
                match old(self)@.failure {
                    Some(e) => e,
                    None => err,
                },
            ),
            forall|i: int|
                0 <= i < r@.len() ==> old(self)@.calls.contains_key((#[trigger] r@[i]).0) && old(self)@.calls[r@[i].0] == Slot::Waiting(r@[i].1),
            forall|i: int, j: int|
                0 <= i < j < r@.len() ==> (#[trigger] r@[i]).0 != (#[trigger] r@[j]).0,
            forall|id: RpcId|
                old(self)@.calls.contains_key(id) && old(self)@.calls[id] is Waiting
                    ==> exists|i: int| 0 <= i < r@.len() && (#[trigger] r@[i]).0 == id,
    {
        if self.failure.is_none() {
            self.failure = Some(err);
        }
        let ghost before = old(self)@.calls;
        let mut out: Vec<(RpcId, W)> = Vec::new();
        loop
            invariant
                self.wf(),
                self@.failure == Some(
                    match old(self)@.failure {
                        Some(e) => e,
                        None => err,
                    },
                ),
                forall|id: RpcId| #[trigger]
                    self@.calls.contains_key(id) ==> before.contains_key(id) && before[id]
                        == self@.calls[id],
                forall|i: int|
                    0 <= i < out@.len() ==> before.contains_key((#[trigger] out@[i]).0)
                        && before[out@[i].0] == Slot::Waiting(out@[i].1) && !self@.calls.contains_key(
                        out@[i].0,
                    ),
                forall|i: int, j: int|
                    0 <= i < j < out@.len() ==> (#[trigger] out@[i]).0 != (#[trigger] out@[j]).0,
                forall|id: RpcId|
                    before.contains_key(id) && before[id] is Waiting ==> self@.calls.contains_key(
                        id,
                    ) || exists|i: int| 0 <= i < out@.len() && (#[trigger] out@[i]).0 == id,
            ensures
                self@.calls == Map::<RpcId, Slot<W>>::empty(),
            decreases self.table.spec_len(),
        {
            let ghost calls = self@.calls;
            let ghost done = out@;
            match self.table.pop() {
                None => {
                    break ;
                },
                Some((id, slot)) => {
                    proof {
                        assert forall|k: RpcId| #[trigger]
                            self@.calls.contains_key(k) implies before.contains_key(k)
                            && before[k] == self@.calls[k] by {
                            assert(calls.contains_key(k));
                        }
                    }
                    match slot {
                        Slot::Waiting(w) => {
                            out.push((id, w));
                            proof {
                                assert forall|k: RpcId|
                                    before.contains_key(k) && before[k] is Waiting implies self@.calls.contains_key(
                                k) || exists|i: int|
                                    0 <= i < out@.len() && (#[trigger] out@[i]).0 == k by {
                                    if !self@.calls.contains_key(k) {
                                        if k == id {
                                            assert(out@[done.len() as int].0 == k);
                                        } else {
                                            assert(calls.contains_key(k) || exists|i: int|
                                                0 <= i < done.len() && (#[trigger] done[i]).0
                                                    == k);
                                            let i = choose|i: int|
                                                0 <= i < done.len() && (#[trigger] done[i]).0
                                                    == k;
                                            assert(out@[i].0 == k);
                                        }
                                    }
                                }
                            }
                        },
                        Slot::Abandoned => {},
                    }
                },
            }
        }
        out
    }
}

/// Responses that arrive one after another have the effect of the first
/// ones followed by that of the others.
pub proof fn lemma_run_concat<W>(s: PendingView<W>, a: Seq<RPCResponseView>, b: Seq<RPCResponseView>)
    ensures
        run(s, a + b).0 == run(run(s, a).0, b).0,
        run(s, a + b).1 == run(s, a).1 + run(run(s, a).0, b).1,
    decreases a.len(),
{
    if a.len() == 0 {
        assert(a + b =~= b);
        assert(run(s, a).1 + run(s, b).1 =~= run(s, b).1);
    } else {
        let s1 = step(s, a.first()).0;
        assert((a + b).first() == a.first());
        assert((a + b).drop_first() =~= a.drop_first() + b);
        lemma_run_concat(s1, a.drop_first(), b);
        let d = step(s, a.first()).1;
        assert(seq![d] + (run(s1, a.drop_first()).1 + run(run(s, a).0, b).1) =~= (seq![d] + run(
            s1,
            a.drop_first(),
        ).1) + run(run(s, a).0, b).1);
    }
}

/// The slow-log notes `notes`, each as a response to call `id`.
pub open spec fn note_responses(id: RpcId, notes: Seq<Seq<char>>) -> Seq<RPCResponseView> {
    Seq::new(
        notes.len(),
        |i: int| RPCResponseView { id, data: RPCResponseDataView::SlowLog { e: notes[i] } },
    )
}

/// Slow-log notes for a waiting call are passed on one by one and change
/// nothing: the call keeps waiting.
pub proof fn lemma_notes_leave_call_waiting<W>(
    s: PendingView<W>,
    id: RpcId,
    notes: Seq<Seq<char>>,
)
    requires
        s.failure is None,
        s.calls.contains_key(id),
        s.calls[id] is Waiting,
    ensures
        run(s, note_responses(id, notes)).0 == s,
        run(s, note_responses(id, notes)).1 == Seq::new(
            notes.len(),
            |i: int|
                Ok::<DeliveryView<W>, ConnectionError>(
                    DeliveryView::Progress { id, note: notes[i] },
                ),
        ),
    decreases notes.len(),
{
    let rs = note_responses(id, notes);
    let want = Seq::new(
        notes.len(),
        |i: int|
            Ok::<DeliveryView<W>, ConnectionError>(DeliveryView::Progress { id, note: notes[i] }),
    );
    if notes.len() == 0 {
        assert(run(s, rs).1 =~= want);
    } else {
        let tail = notes.drop_first();
        assert(rs.drop_first() =~= note_responses(id, tail));
        lemma_notes_leave_call_waiting(s, id, tail);
        assert(run(s, rs).1 =~= want);
    }
}

/// A call that sees any number of slow-log notes and then one other
/// response is completed by that response alone: each note is passed on
/// while the call stays in flight, and only the last response hands the
/// outcome to the waiter and frees the id.
pub proof fn lemma_only_the_outcome_completes<W>(
    s: PendingView<W>,
    id: RpcId,
    notes: Seq<Seq<char>>,
    outcome: RPCResponseDataView,
)
    requires
        s.failure is None,
        s.calls.contains_key(id),
        s.calls[id] is Waiting,
        outcome.is_terminal(),
    ensures
        ({
            let last = RPCResponseView { id, data: outcome };
            let (end, out) = run(s, note_responses(id, notes).push(last));
            &&& run(s, note_responses(id, notes)).0 == s
            &&& out.len() == notes.len() + 1
            &&& forall|k: int|
                0 <= k < notes.len() ==> #[trigger] out[k] == Ok::<
                    DeliveryView<W>,
                    ConnectionError,
                >(DeliveryView::Progress { id, note: notes[k] })
            &&& out[notes.len() as int] == Ok::<DeliveryView<W>, ConnectionError>(
                DeliveryView::Complete { waiter: s.calls[id]->Waiting_0, outcome },
            )
            &&& end == (PendingView { calls: s.calls.remove(id), ..s })
        }),
{
    let last = RPCResponseView { id, data: outcome };
    let rs = note_responses(id, notes);
    lemma_notes_leave_call_waiting(s, id, notes);
    assert(rs.push(last) =~= rs + seq![last]);
    lemma_run_concat(s, rs, seq![last]);
    let one = seq![last];
    let d = step(s, last).1;
    let s1 = step(s, last).0;
    let none = Seq::<RPCResponseView>::empty();
    assert(one.len() == 1 && one.first() == last);
    assert(one.drop_first() =~= none);
    assert(run(s1, none).0 == s1 && run(s1, none).1 =~= Seq::empty());
    assert(run(s, one).0 == s1);
    assert(run(s, one).1 =~= seq![d]);
    let out = run(s, rs.push(last)).1;
    assert(out =~= run(s, rs).1 + seq![d]);
    assert forall|k: int| 0 <= k < notes.len() implies #[trigger] out[k] == Ok::<
        DeliveryView<W>,
        ConnectionError,
    >(DeliveryView::Progress { id, note: notes[k] }) by {
        assert(out[k] == run(s, rs).1[k]);
    }
}

/// Responses that end calls, each for another waiting call: whatever
/// their order, each hands its outcome to the waiter registered under its
/// id, and afterwards just those calls are gone.
pub proof fn lemma_run_outcomes<W>(s: PendingView<W>, resps: Seq<RPCResponseView>)
    requires
        s.failure is None,
        forall|k: int|
            0 <= k < resps.len() ==> (#[trigger] resps[k]).data.is_terminal()
                && s.calls.contains_key(resps[k].id) && s.calls[resps[k].id] is Waiting,
        forall|j: int, k: int|
            0 <= j < k < resps.len() ==> (#[trigger] resps[j]).id != (#[trigger] resps[k]).id,
    ensures
        run(s, resps).0.failure is None,
        run(s, resps).1.len() == resps.len(),
        forall|k: int|
            0 <= k < resps.len() ==> #[trigger] run(s, resps).1[k] == Ok::<
                DeliveryView<W>,
                ConnectionError,
            >(
                DeliveryView::Complete {
                    waiter: s.calls[resps[k].id]->Waiting_0,
                    outcome: resps[k].data,
                },
            ),
        forall|id: RpcId| #[trigger]
            run(s, resps).0.calls.contains_key(id) <==> s.calls.contains_key(id) && !exists|
                k: int,
            |
                0 <= k < resps.len() && (#[trigger] resps[k]).id == id,
        forall|id: RpcId| #[trigger]
            run(s, resps).0.calls.contains_key(id) ==> run(s, resps).0.calls[id] == s.calls[id],
    decreases resps.len(),
{
    if resps.len() > 0 {
        let first = resps.first();
        let tail = resps.drop_first();
        let s1 = step(s, first).0;
        assert(first == resps[0]);
        assert forall|k: int| 0 <= k < tail.len() implies (#[trigger] tail[k]).data.is_terminal()
            && s1.calls.contains_key(tail[k].id) && s1.calls[tail[k].id] is Waiting by {
            assert(tail[k] == resps[k + 1]);
            assert(resps[0].id != resps[k + 1].id);
        }
        assert forall|j: int, k: int| 0 <= j < k < tail.len() implies (#[trigger] tail[j]).id != (
        #[trigger] tail[k]).id by {
            assert(tail[j] == resps[j + 1]);
            assert(tail[k] == resps[k + 1]);
        }
        lemma_run_outcomes(s1, tail);
        let out = run(s, resps).1;
        let end = run(s, resps).0;
        assert forall|k: int| 0 <= k < resps.len() implies #[trigger] out[k] == Ok::<
            DeliveryView<W>,
            ConnectionError,
        >(
            DeliveryView::Complete {
                waiter: s.calls[resps[k].id]->Waiting_0,
                outcome: resps[k].data,
            },
        ) by {
            if k > 0 {
                assert(tail[k - 1] == resps[k]);
                assert(resps[0].id != resps[k].id);
                assert(out[k] == run(s1, tail).1[k - 1]);
            }
        }
        assert forall|id: RpcId| #[trigger]
            end.calls.contains_key(id) <==> s.calls.contains_key(id) && !exists|k: int|
                0 <= k < resps.len() && (#[trigger] resps[k]).id == id by {
            if end.calls.contains_key(id) {
                if exists|k: int| 0 <= k < resps.len() && (#[trigger] resps[k]).id == id {
                    let k = choose|k: int| 0 <= k < resps.len() && (#[trigger] resps[k]).id == id;
                    if k > 0 {
                        assert(tail[k - 1] == resps[k]);
                    }
                }
            }
            if s.calls.contains_key(id) && !exists|k: int|
                0 <= k < resps.len() && (#[trigger] resps[k]).id == id {
                assert(resps[0].id != id);
                assert forall|k: int| 0 <= k < tail.len() implies (#[trigger] tail[k]).id
                    != id by {
                    assert(tail[k] == resps[k + 1]);
                }
            }
        }
    }
}

/// After calls have been registered under fresh ids, no two alike, each
/// id holds its waiter, and nothing else has changed.
pub proof fn lemma_begin_all<W>(s: PendingView<W>, ids: Seq<RpcId>, waiters: Seq<W>)
    requires
        s.failure is None,
        ids.len() == waiters.len(),
        forall|i: int| 0 <= i < ids.len() ==> !s.calls.contains_key(#[trigger] ids[i]),
        forall|i: int, j: int| 0 <= i < j < ids.len() ==> ids[i] != ids[j],
    ensures
        begin_all(s, ids, waiters).failure is None,
        forall|i: int|
            0 <= i < ids.len() ==> begin_all(s, ids, waiters).calls.contains_key(
                #[trigger] ids[i],
            ) && begin_all(s, ids, waiters).calls[ids[i]] == Slot::Waiting(waiters[i]),
        forall|id: RpcId|
            s.calls.contains_key(id) ==> #[trigger] begin_all(s, ids, waiters).calls.contains_key(
                id,
            ) && begin_all(s, ids, waiters).calls[id] == s.calls[id],
    decreases ids.len(),
{
    if ids.len() > 0 {
        let s1 = begin_step(s, ids.first(), waiters.first()).0;
        let ti = ids.drop_first();
        let tw = waiters.drop_first();
        assert(!s.calls.contains_key(ids[0]));
        assert forall|i: int| 0 <= i < ti.len() implies !s1.calls.contains_key(
            #[trigger] ti[i],
        ) by {
            assert(ti[i] == ids[i + 1]);
            assert(ids[0] != ids[i + 1]);
        }
        assert forall|i: int, j: int| 0 <= i < j < ti.len() implies ti[i] != ti[j] by {
            assert(ti[i] == ids[i + 1]);
            assert(ti[j] == ids[j + 1]);
        }
        lemma_begin_all(s1, ti, tw);
        let end = begin_all(s, ids, waiters);
        assert(end == begin_all(s1, ti, tw));
        assert forall|i: int| 0 <= i < ids.len() implies end.calls.contains_key(
            #[trigger] ids[i],
        ) && end.calls[ids[i]] == Slot::Waiting(waiters[i]) by {
            if i == 0 {
                assert(s1.calls.contains_key(ids[0]));
            } else {
                assert(ti[i - 1] == ids[i]);
                assert(tw[i - 1] == waiters[i]);
            }
        }
        assert forall|id: RpcId| s.calls.contains_key(id) implies #[trigger] end.calls.contains_key(
            id,
        ) && end.calls[id] == s.calls[id] by {
            assert(s1.calls.contains_key(id));
        }
    }
}

/// Calls issued side by side under ids of their own get their own
/// responses: whatever the order in which the responses arrive, each
/// outcome goes to the waiter that was registered under its id.
pub proof fn lemma_each_response_reaches_its_caller<W>(
    s: PendingView<W>,
    ids: Seq<RpcId>,
    waiters: Seq<W>,
    resps: Seq<RPCResponseView>,
)
    requires
        s.failure is None,
        ids.len() == waiters.len(),
        forall|i: int| 0 <= i < ids.len() ==> !s.calls.contains_key(#[trigger] ids[i]),
        forall|i: int, j: int| 0 <= i < j < ids.len() ==> ids[i] != ids[j],
        forall|k: int|
            0 <= k < resps.len() ==> (#[trigger] resps[k]).data.is_terminal() && ids.contains(
                resps[k].id,
            ),
        forall|j: int, k: int|
            0 <= j < k < resps.len() ==> (#[trigger] resps[j]).id != (#[trigger] resps[k]).id,
    ensures
        ({
            let out = run(begin_all(s, ids, waiters), resps).1;
            &&& out.len() == resps.len()
            &&& forall|i: int, k: int|
                0 <= i < ids.len() && 0 <= k < resps.len() && ids[i] == (#[trigger] resps[k]).id
                    ==> out[k] == Ok::<DeliveryView<W>, ConnectionError>(
                    DeliveryView::Complete { waiter: #[trigger] waiters[i], outcome: resps[k].data },
                )
        }),
{
    let s1 = begin_all(s, ids, waiters);
    lemma_begin_all(s, ids, waiters);
    assert forall|k: int| 0 <= k < resps.len() implies (#[trigger] resps[k]).data.is_terminal()
        && s1.calls.contains_key(resps[k].id) && s1.calls[resps[k].id] is Waiting by {
        let i = choose|i: int| 0 <= i < ids.len() && ids[i] == resps[k].id;
        assert(s1.calls.contains_key(ids[i]));
    }
    lemma_run_outcomes(s1, resps);
    let out = run(s1, resps).1;
    assert forall|i: int, k: int|
        0 <= i < ids.len() && 0 <= k < resps.len() && ids[i] == (
        #[trigger] resps[k]).id implies out[k] == Ok::<DeliveryView<W>, ConnectionError>(
        DeliveryView::Complete { waiter: #[trigger] waiters[i], outcome: resps[k].data },
    ) by {
        assert(s1.calls.contains_key(ids[i]));
        assert(s1.calls[ids[i]] == Slot::Waiting(waiters[i]));
    }
}

} // verus!
