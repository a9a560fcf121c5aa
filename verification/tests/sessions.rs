use carton_runner_interface::frame::{split_message, Frame};
use carton_runner_interface::rpc::{Delivery, Refusal};
use carton_runner_interface::runner::{Arrival, RespondRefusal};
use carton_runner_interface::seal::SealCache;
use carton_runner_interface::session::{Event, SendRefusal};
use carton_runner_interface::wire::{encode_request, encode_response};
use carton_runner_interface::{
    ConnectionError, FdId, Handle, RPCRequest, RPCRequestData, RPCResponse, RPCResponseData,
    RunnerSession, SealHandle, Session, StreamID, TensorMap,
};

fn request(id: u64) -> RPCRequest {
    RPCRequest { id, data: RPCRequestData::InferWithHandle { handle: SealHandle(id) } }
}

fn response_frames(id: u64, data: RPCResponseData) -> Vec<Frame> {
    split_message(0, StreamID(0), &encode_response(&RPCResponse { id, data }))
}

#[test]
fn a_session_has_the_core_channels_at_least() {
    assert!(Session::<u8>::new(2).is_none());
    assert!(Session::<u8>::new(3).is_some());
    assert!(Session::<u8>::new(256).is_some());
    assert!(Session::<u8>::new(257).is_none());
}

#[test]
fn an_orchestrator_and_a_runner_seal_and_infer() {
    let mut here: Session<&'static str> = Session::new(3).unwrap();
    let mut there = RunnerSession::new(3).unwrap();
    let mut cache = SealCache::new();
    // A stand-in for a model: what it gives depends on its inputs alone.
    let model = |inputs: &TensorMap| -> TensorMap {
        let mut out = TensorMap::new();
        out.insert(format!("{} inputs", inputs.len()), Handle::shared(FdId(1), 8));
        out
    };
    let mut inputs = TensorMap::new();
    inputs.insert("x".to_string(), Handle::shared(FdId(0), 64));
    let seal = RPCRequest { id: 1, data: RPCRequestData::Seal { tensors: inputs } };
    assert!(here.call(StreamID(0), &seal, "seal").is_ok());
    assert_eq!(here.send(2, StreamID(9), b"tensor bytes"), Ok(()));
    assert_eq!(here.send(3, StreamID(9), b"nowhere"), Err(SendRefusal::NoSuchChannel));
    let mut outcomes = Vec::new();
    let mut data = Vec::new();
    for _ in 0..2 {
        // Over to the runner.
        while let Some(f) = here.next_frame() {
            for arrival in there.on_frame(f) {
                match arrival {
                    Arrival::Message { channel, stream, bytes } => {
                        data.push((channel, stream, bytes))
                    },
                    Arrival::Request(req) => {
                        assert!(there.is_serving(req.id));
                        let answer = match req.data {
                            RPCRequestData::Seal { tensors } => RPCResponseData::Seal {
                                handle: cache.seal(tensors).ok().unwrap(),
                            },
                            other => match cache.input(&other) {
                                Ok(t) => RPCResponseData::Infer { tensors: model(t) },
                                Err(e) => RPCResponseData::Error { e: format!("{:?}", e) },
                            },
                        };
                        let note = RPCResponse {
                            id: req.id,
                            data: RPCResponseData::SlowLog { e: "working".to_string() },
                        };
                        assert_eq!(there.respond(StreamID(0), &note), Ok(()));
                        let done = RPCResponse { id: req.id, data: answer };
                        assert_eq!(there.respond(StreamID(0), &done), Ok(()));
                        assert_eq!(
                            there.respond(StreamID(0), &done),
                            Err(RespondRefusal::NotServing)
                        );
                        assert!(!there.is_serving(req.id));
                    },
                }
            }
        }
        // And back.
        while let Some(f) = there.next_frame() {
            for event in here.on_frame(f) {
                match event {
                    Event::Call(Delivery::Complete { waiter, outcome }) => {
                        if let RPCResponseData::Seal { handle } = &outcome {
                            let by_handle = RPCRequest {
                                id: 2,
                                data: RPCRequestData::InferWithHandle { handle: *handle },
                            };
                            assert!(here.call(StreamID(0), &by_handle, "by handle").is_ok());
                            let stranger = RPCRequest {
                                id: 3,
                                data: RPCRequestData::InferWithHandle { handle: SealHandle(77) },
                            };
                            assert!(here.call(StreamID(0), &stranger, "stranger").is_ok());
                        }
                        outcomes.push(format!("{}: {:?}", waiter, outcome));
                    },
                    Event::Call(Delivery::Progress { .. }) => {},
                    _ => panic!("nothing else was sent"),
                }
            }
        }
    }
    assert_eq!(data, vec![(2, StreamID(9), b"tensor bytes".to_vec())]);
    let mut want_out = TensorMap::new();
    want_out.insert("1 inputs".to_string(), Handle::shared(FdId(1), 8));
    assert_eq!(
        outcomes,
        vec![
            "seal: Seal { handle: SealHandle(0) }".to_string(),
            format!("by handle: {:?}", RPCResponseData::Infer { tensors: want_out }),
            "stranger: Error { e: \"UnknownHandle\" }".to_string(),
        ]
    );
    assert_eq!(here.failure(), None);
    assert_eq!(there.failure(), None);
}

#[test]
fn a_request_under_an_id_being_served_fails_the_runner() {
    let mut there = RunnerSession::new(3).unwrap();
    let bytes = encode_request(&request(4));
    for f in split_message(0, StreamID(0), &bytes) {
        assert_eq!(there.on_frame(f).len(), 1);
    }
    assert!(there.is_serving(4));
    for f in split_message(0, StreamID(0), &bytes) {
        assert!(there.on_frame(f).is_empty());
    }
    assert_eq!(there.failure(), Some(ConnectionError::RequestIdInUse));
    let done = RPCResponse { id: 4, data: RPCResponseData::Seal { handle: SealHandle(0) } };
    assert_eq!(
        there.respond(StreamID(0), &done),
        Err(RespondRefusal::SessionFailed(ConnectionError::RequestIdInUse))
    );
    assert!(there.next_frame().is_none());
    assert_eq!(
        there.send(1, StreamID(0), b"x"),
        Err(SendRefusal::SessionFailed(ConnectionError::RequestIdInUse))
    );
}

#[test]
fn bytes_that_are_no_request_fail_the_runner() {
    let mut there = RunnerSession::new(3).unwrap();
    for f in split_message(0, StreamID(0), &[1, 2, 3]) {
        assert!(there.on_frame(f).is_empty());
    }
    assert_eq!(there.failure(), Some(ConnectionError::MalformedMessage));
    let mut other = RunnerSession::new(3).unwrap();
    let stray = Frame { channel: 3, stream: StreamID(0), payload: vec![] };
    assert!(other.on_frame(stray).is_empty());
    assert_eq!(other.failure(), Some(ConnectionError::MalformedFrame));
    let mut third = RunnerSession::new(3).unwrap();
    third.fail(ConnectionError::Closed);
    third.fail(ConnectionError::MalformedFrame);
    assert_eq!(third.failure(), Some(ConnectionError::Closed));
}

#[test]
fn a_runner_answers_only_what_it_serves() {
    let mut there = RunnerSession::new(3).unwrap();
    let done = RPCResponse { id: 4, data: RPCResponseData::Seal { handle: SealHandle(0) } };
    assert_eq!(there.respond(StreamID(0), &done), Err(RespondRefusal::NotServing));
    assert!(there.next_frame().is_none());
    for f in split_message(0, StreamID(0), &encode_request(&request(4))) {
        there.on_frame(f);
    }
    assert_eq!(there.respond(StreamID(0), &done), Ok(()));
    assert!(there.next_frame().is_some());
    // The id is free again once its request has been answered.
    for f in split_message(0, StreamID(0), &encode_request(&request(4))) {
        assert_eq!(there.on_frame(f).len(), 1);
    }
    assert_eq!(there.failure(), None);
}

#[test]
fn responses_complete_their_calls_and_other_channels_give_messages() {
    let mut s: Session<&'static str> = Session::new(4).unwrap();
    assert!(s.call(StreamID(0), &request(1), "first").is_ok());
    assert!(s.call(StreamID(0), &request(2), "second").is_ok());
    assert_eq!(s.call(StreamID(0), &request(2), "again").unwrap_err(), (Refusal::IdInUse, "again"));
    let mut incoming = Vec::new();
    incoming.extend(response_frames(2, RPCResponseData::SlowLog { e: "working".to_string() }));
    incoming.extend(split_message(2, StreamID(7), b"bulk"));
    incoming.extend(response_frames(2, RPCResponseData::Seal { handle: SealHandle(5) }));
    incoming.extend(response_frames(1, RPCResponseData::Error { e: "no".to_string() }));
    let mut seen = Vec::new();
    for f in incoming {
        for e in s.on_frame(f) {
            seen.push(match e {
                Event::Call(Delivery::Progress { id, note }) => format!("note {} {}", id, note),
                Event::Call(Delivery::Complete { waiter, outcome }) => {
                    format!("done {} {:?}", waiter, outcome)
                },
                Event::Call(Delivery::Discarded { id }) => format!("dropped {}", id),
                Event::Message { channel, stream, bytes } => {
                    format!("message {} {} {:?}", channel, stream.0, bytes)
                },
            });
        }
    }
    assert_eq!(
        seen,
        vec![
            "note 2 working".to_string(),
            "message 2 7 [98, 117, 108, 107]".to_string(),
            "done second Seal { handle: SealHandle(5) }".to_string(),
            "done first Error { e: \"no\" }".to_string(),
        ]
    );
    assert_eq!(s.failure(), None);
}

#[test]
fn a_failure_ends_every_channel_and_every_call() {
    let mut s: Session<u8> = Session::new(3).unwrap();
    assert!(s.call(StreamID(0), &request(1), 10).is_ok());
    assert_eq!(s.send(1, StreamID(3), b"stat"), Ok(()));
    let stray = Frame { channel: 200, stream: StreamID(1), payload: vec![] };
    assert!(s.on_frame(stray).is_empty());
    assert_eq!(s.failure(), Some(ConnectionError::MalformedFrame));
    // Nothing comes in any more, on any channel.
    for f in response_frames(1, RPCResponseData::Seal { handle: SealHandle(0) }) {
        assert!(s.on_frame(f).is_empty());
    }
    for f in split_message(2, StreamID(1), b"late") {
        assert!(s.on_frame(f).is_empty());
    }
    // Nothing goes out, and nothing new is begun.
    assert!(s.next_frame().is_none());
    assert_eq!(
        s.send(1, StreamID(3), b"more"),
        Err(SendRefusal::SessionFailed(ConnectionError::MalformedFrame))
    );
    assert_eq!(
        s.call(StreamID(0), &request(2), 20).unwrap_err(),
        (Refusal::SessionFailed(ConnectionError::MalformedFrame), 20)
    );
    // Every caller is told, once.
    assert_eq!(s.fail(ConnectionError::Closed), vec![(1, 10)]);
    assert!(s.fail(ConnectionError::Closed).is_empty());
    assert_eq!(s.failure(), Some(ConnectionError::MalformedFrame));
}

#[test]
fn what_came_before_a_failure_is_still_handed_out() {
    let mut s: Session<u8> = Session::new(3).unwrap();
    assert!(s.call(StreamID(0), &request(1), 10).is_ok());
    assert!(s.call(StreamID(0), &request(2), 20).is_ok());
    // Three messages in one frame: a response, one for nobody, a response.
    let mut payload = Vec::new();
    for id in [1u64, 9, 2] {
        let bytes = encode_response(&RPCResponse {
            id,
            data: RPCResponseData::Seal { handle: SealHandle(id) },
        });
        payload.extend_from_slice(&(bytes.len() as u64).to_le_bytes());
        payload.extend_from_slice(&bytes);
    }
    let events = s.on_frame(Frame { channel: 0, stream: StreamID(0), payload });
    assert_eq!(events.len(), 1);
    assert!(matches!(&events[0], Event::Call(Delivery::Complete { waiter: 10, .. })));
    assert_eq!(s.failure(), Some(ConnectionError::UnknownResponseId));
    assert_eq!(s.fail(ConnectionError::Closed), vec![(2, 20)]);
}

#[test]
fn losing_the_connection_fails_the_session() {
    let mut s: Session<u8> = Session::new(3).unwrap();
    assert!(s.call(StreamID(0), &request(1), 10).is_ok());
    assert!(s.call(StreamID(0), &request(2), 20).is_ok());
    let mut told = s.fail(ConnectionError::Closed);
    told.sort();
    assert_eq!(told, vec![(1, 10), (2, 20)]);
    assert_eq!(s.failure(), Some(ConnectionError::Closed));
    assert!(s.next_frame().is_none());
    for f in split_message(1, StreamID(1), b"late") {
        assert!(s.on_frame(f).is_empty());
    }
}
