use carton_runner_interface::demux::Reassembler;
use carton_runner_interface::mux::Scheduler;
use carton_runner_interface::rpc::{Delivery, PendingCalls, Refusal};
use carton_runner_interface::wire::{decode_request, encode_response};
use carton_runner_interface::{
    ConnectionError, RPCRequest, RPCRequestData, RPCResponse, RPCResponseData, SealHandle,
    StreamID,
};

fn sealed(id: u64, handle: u64) -> RPCResponse {
    RPCResponse { id, data: RPCResponseData::Seal { handle: SealHandle(handle) } }
}

fn note(id: u64, text: &str) -> RPCResponse {
    RPCResponse { id, data: RPCResponseData::SlowLog { e: text.to_string() } }
}

#[test]
fn responses_reach_their_callers_in_any_order() {
    let mut calls: PendingCalls<&'static str> = PendingCalls::new();
    assert!(calls.begin(1, "one").is_ok());
    assert!(calls.begin(2, "two").is_ok());
    assert!(calls.begin(3, "three").is_ok());
    for (id, who) in [(3u64, "three"), (1, "one"), (2, "two")] {
        match calls.dispatch(sealed(id, id * 10)).unwrap() {
            Delivery::Complete { waiter, outcome } => {
                assert_eq!(waiter, who);
                assert!(matches!(
                    outcome,
                    RPCResponseData::Seal { handle } if handle == SealHandle(id * 10)
                ));
            },
            _ => panic!("call {} was not completed", id),
        }
        assert!(!calls.is_pending(id));
    }
    assert_eq!(calls.failure(), None);
}

#[test]
fn an_id_in_use_is_refused() {
    let mut calls: PendingCalls<u8> = PendingCalls::new();
    assert!(calls.begin(5, 1).is_ok());
    assert_eq!(calls.begin(5, 2).unwrap_err(), (Refusal::IdInUse, 2));
    assert!(calls.dispatch(sealed(5, 0)).is_ok());
    assert!(calls.begin(5, 3).is_ok());
}

#[test]
fn only_the_outcome_completes_a_call() {
    let mut calls: PendingCalls<u8> = PendingCalls::new();
    calls.begin(8, 42).unwrap();
    for text in ["resolving", "downloading", "building"] {
        match calls.dispatch(note(8, text)).unwrap() {
            Delivery::Progress { id, note } => {
                assert_eq!(id, 8);
                assert_eq!(note, text);
            },
            _ => panic!("a note was taken for something else"),
        }
        assert!(calls.is_pending(8));
    }
    let done = RPCResponse { id: 8, data: RPCResponseData::Pack { output_path: "out".to_string() } };
    match calls.dispatch(done).unwrap() {
        Delivery::Complete { waiter, outcome } => {
            assert_eq!(waiter, 42);
            assert!(matches!(outcome, RPCResponseData::Pack { output_path } if output_path == "out"));
        },
        _ => panic!("the outcome did not complete the call"),
    }
    assert!(!calls.is_pending(8));
}

#[test]
fn an_error_response_ends_one_call_and_not_the_session() {
    let mut calls: PendingCalls<u8> = PendingCalls::new();
    calls.begin(1, 10).unwrap();
    calls.begin(2, 20).unwrap();
    let failed = RPCResponse {
        id: 1,
        data: RPCResponseData::Error { e: "no runner satisfies the version".to_string() },
    };
    match calls.dispatch(failed).unwrap() {
        Delivery::Complete { waiter, outcome } => {
            assert_eq!(waiter, 10);
            assert!(!matches!(outcome, RPCResponseData::SlowLog { .. }));
            assert!(matches!(outcome, RPCResponseData::Error { .. }));
        },
        _ => panic!("the error did not complete the call"),
    }
    assert_eq!(calls.failure(), None);
    assert!(calls.is_pending(2));
    assert!(calls.begin(3, 30).is_ok());
}

#[test]
fn a_response_nobody_waits_for_fails_the_session() {
    let mut calls: PendingCalls<u8> = PendingCalls::new();
    calls.begin(1, 10).unwrap();
    assert!(matches!(calls.dispatch(sealed(9, 0)), Err(ConnectionError::UnknownResponseId)));
    assert_eq!(calls.failure(), Some(ConnectionError::UnknownResponseId));
    assert!(matches!(calls.dispatch(sealed(1, 0)), Err(ConnectionError::UnknownResponseId)));
    assert_eq!(
        calls.begin(2, 20).unwrap_err(),
        (Refusal::SessionFailed(ConnectionError::UnknownResponseId), 20)
    );
    assert_eq!(calls.fail(ConnectionError::Closed), vec![(1, 10)]);
    assert_eq!(calls.failure(), Some(ConnectionError::UnknownResponseId));
}

#[test]
fn a_response_that_comes_twice_fails_the_session() {
    let mut calls: PendingCalls<u8> = PendingCalls::new();
    calls.begin(1, 10).unwrap();
    assert!(calls.dispatch(sealed(1, 0)).is_ok());
    assert!(matches!(calls.dispatch(sealed(1, 0)), Err(ConnectionError::UnknownResponseId)));
}

#[test]
fn a_note_nobody_waits_for_fails_the_session() {
    let mut calls: PendingCalls<u8> = PendingCalls::new();
    assert!(matches!(calls.dispatch(note(4, "x")), Err(ConnectionError::UnknownResponseId)));
}

#[test]
fn an_abandoned_call_keeps_its_id_until_the_response_comes() {
    let mut calls: PendingCalls<u8> = PendingCalls::new();
    calls.begin(1, 10).unwrap();
    assert_eq!(calls.abandon(1), Some(10));
    assert_eq!(calls.abandon(1), None);
    assert_eq!(calls.abandon(2), None);
    assert!(calls.is_pending(1));
    assert_eq!(calls.begin(1, 11).unwrap_err(), (Refusal::IdInUse, 11));
    assert!(matches!(calls.dispatch(note(1, "x")).unwrap(), Delivery::Discarded { id: 1 }));
    assert!(calls.is_pending(1));
    assert!(matches!(calls.dispatch(sealed(1, 0)).unwrap(), Delivery::Discarded { id: 1 }));
    assert!(!calls.is_pending(1));
    assert!(calls.begin(1, 12).is_ok());
    assert_eq!(calls.failure(), None);
}

#[test]
fn failing_hands_out_every_waiting_call() {
    let mut calls: PendingCalls<u8> = PendingCalls::new();
    calls.begin(1, 10).unwrap();
    calls.begin(2, 20).unwrap();
    calls.begin(3, 30).unwrap();
    calls.abandon(2);
    let mut told = calls.fail(ConnectionError::Closed);
    told.sort();
    assert_eq!(told, vec![(1, 10), (3, 30)]);
    assert_eq!(calls.failure(), Some(ConnectionError::Closed));
    assert!(!calls.is_pending(1));
    assert!(!calls.is_pending(2));
    assert!(calls.fail(ConnectionError::MalformedFrame).is_empty());
    assert_eq!(calls.failure(), Some(ConnectionError::Closed));
    assert!(matches!(calls.dispatch(sealed(1, 0)), Err(ConnectionError::Closed)));
}

#[test]
fn a_call_goes_out_on_the_call_channel_and_its_response_comes_back() {
    let mut calls: PendingCalls<u8> = PendingCalls::new();
    let mut wire = Scheduler::new(3).unwrap();
    let req = RPCRequest { id: 11, data: RPCRequestData::InferWithHandle { handle: SealHandle(4) } };
    assert!(calls.call(&mut wire, StreamID(0), &req, 7).is_ok());
    assert!(calls.is_pending(11));
    // The runner's side: frames in, request out.
    let mut runner = Reassembler::new(3).unwrap();
    let mut seen = Vec::new();
    while let Some(f) = wire.next_frame() {
        assert_eq!(f.channel, 0);
        seen.extend(runner.accept(f).unwrap());
    }
    assert_eq!(seen.len(), 1);
    let got = decode_request(&seen[0]).unwrap();
    assert_eq!(format!("{:?}", got), format!("{:?}", req));
    // Back at the caller.
    let answer = RPCResponse { id: 11, data: RPCResponseData::Error { e: "unknown handle".to_string() } };
    match calls.receive(&encode_response(&answer)).unwrap() {
        Delivery::Complete { waiter, outcome } => {
            assert_eq!(waiter, 7);
            assert!(matches!(outcome, RPCResponseData::Error { e } if e == "unknown handle"));
        },
        _ => panic!("the response did not complete the call"),
    }
    assert!(!calls.is_pending(11));
    assert_eq!(calls.failure(), None);
}

#[test]
fn a_refused_call_queues_nothing() {
    let mut calls: PendingCalls<u8> = PendingCalls::new();
    let mut wire = Scheduler::new(3).unwrap();
    let req = RPCRequest { id: 1, data: RPCRequestData::InferWithHandle { handle: SealHandle(4) } };
    assert!(calls.call(&mut wire, StreamID(0), &req, 1).is_ok());
    assert!(wire.next_frame().is_some());
    assert!(wire.is_idle());
    assert_eq!(calls.call(&mut wire, StreamID(0), &req, 2).unwrap_err(), (Refusal::IdInUse, 2));
    assert!(wire.is_idle());
}

#[test]
fn bytes_that_are_no_response_fail_the_session() {
    let mut calls: PendingCalls<u8> = PendingCalls::new();
    calls.begin(1, 10).unwrap();
    assert!(matches!(calls.receive(&[1, 2, 3]), Err(ConnectionError::MalformedMessage)));
    assert_eq!(calls.failure(), Some(ConnectionError::MalformedMessage));
    let late = RPCResponse { id: 1, data: RPCResponseData::Seal { handle: SealHandle(0) } };
    assert!(matches!(
        calls.receive(&encode_response(&late)),
        Err(ConnectionError::MalformedMessage)
    ));
    assert_eq!(calls.fail(ConnectionError::Closed), vec![(1, 10)]);
}
