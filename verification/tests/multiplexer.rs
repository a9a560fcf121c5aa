use carton_runner_interface::demux::{drain_messages, Reassembler};
use carton_runner_interface::frame::{
    read_frame, split_message, write_frame, Frame, FrameRead, FRAME_HEADER_LEN, MAX_FRAME_PAYLOAD,
};
use carton_runner_interface::mux::Scheduler;
use carton_runner_interface::{ChannelId, ConnectionError, StreamID};

fn payload(n: usize) -> Vec<u8> {
    (0..n).map(|i| (i * 7 % 256) as u8).collect()
}

#[test]
fn frame_bytes_are_header_and_payload() {
    let f = Frame { channel: 2, stream: StreamID(0x0102), payload: vec![9, 8, 7] };
    let mut out = vec![0xaa];
    write_frame(&mut out, &f);
    assert_eq!(
        out,
        vec![0xaa, 2, 2, 1, 0, 0, 0, 0, 0, 0, 3, 0, 0, 0, 0, 0, 0, 0, 9, 8, 7]
    );
    assert_eq!(FRAME_HEADER_LEN, 17);
    match read_frame(&out, 1) {
        FrameRead::Complete { frame, end } => {
            assert_eq!(frame.channel, 2);
            assert_eq!(frame.stream, StreamID(0x0102));
            assert_eq!(frame.payload, vec![9, 8, 7]);
            assert_eq!(end, out.len());
        },
        _ => panic!("the frame was not read"),
    }
}

#[test]
fn a_frame_that_has_not_arrived_whole_is_waited_for() {
    let f = Frame { channel: 0, stream: StreamID(1), payload: payload(50) };
    let mut out = Vec::new();
    write_frame(&mut out, &f);
    for n in 0..out.len() {
        assert!(matches!(read_frame(&out[..n], 0), FrameRead::Incomplete));
    }
    out.extend_from_slice(&[1, 2, 3]);
    assert!(matches!(read_frame(&out, 0), FrameRead::Complete { end: 67, .. }));
    assert!(matches!(read_frame(&out, 67), FrameRead::Incomplete));
    assert!(matches!(read_frame(&out, out.len()), FrameRead::Incomplete));
}

#[test]
fn a_header_that_announces_too_much_is_malformed() {
    let mut out = vec![0u8; 9];
    out.extend_from_slice(&((MAX_FRAME_PAYLOAD as u64) + 1).to_le_bytes());
    assert!(matches!(read_frame(&out, 0), FrameRead::Malformed));
    let mut out = vec![0u8; 9];
    out.extend_from_slice(&u64::MAX.to_le_bytes());
    assert!(matches!(read_frame(&out, 0), FrameRead::Malformed));
    let mut out = vec![0u8; 9];
    out.extend_from_slice(&(MAX_FRAME_PAYLOAD as u64).to_le_bytes());
    assert!(matches!(read_frame(&out, 0), FrameRead::Incomplete));
    out.extend_from_slice(&vec![0; MAX_FRAME_PAYLOAD]);
    assert!(matches!(read_frame(&out, 0), FrameRead::Complete { .. }));
}

#[test]
fn a_message_is_cut_into_bounded_frames() {
    assert_eq!(MAX_FRAME_PAYLOAD, 16384);
    for (len, count) in [(0usize, 1usize), (1, 1), (16376, 1), (16377, 2), (40000, 3), (32760, 2), (32761, 3)] {
        let message = payload(len);
        let frames = split_message(1, StreamID(5), &message);
        assert_eq!(frames.len(), count, "frames for {} bytes", len);
        let mut carried = Vec::new();
        for (i, f) in frames.iter().enumerate() {
            assert_eq!(f.channel, 1);
            assert_eq!(f.stream, StreamID(5));
            assert!(f.payload.len() <= MAX_FRAME_PAYLOAD);
            if i + 1 < frames.len() {
                assert_eq!(f.payload.len(), MAX_FRAME_PAYLOAD);
            }
            carried.extend_from_slice(&f.payload);
        }
        let mut want = (len as u64).to_le_bytes().to_vec();
        want.extend_from_slice(&message);
        assert_eq!(carried, want);
    }
}

#[test]
fn the_wire_goes_round_the_channels() {
    assert!(Scheduler::new(2).is_none());
    assert!(Scheduler::new(257).is_none());
    assert!(Scheduler::new(256).is_some());
    let mut s = Scheduler::new(3).unwrap();
    assert_eq!(s.channels(), 3);
    assert!(s.is_idle());
    assert!(s.next_frame().is_none());
    assert!(s.enqueue_message(2, StreamID(1), &payload(40000)));
    assert!(s.enqueue_message(0, StreamID(2), b"ping"));
    assert!(s.enqueue_message(0, StreamID(3), b"pong"));
    assert!(s.enqueue_message(1, StreamID(4), b"stat"));
    assert!(!s.enqueue_message(3, StreamID(4), b"none"));
    assert!(!s.is_idle());
    let order: Vec<(u8, u64)> =
        std::iter::from_fn(|| s.next_frame()).map(|f| (f.channel, f.stream.0)).collect();
    assert_eq!(order, vec![(0, 2), (1, 4), (2, 1), (0, 3), (2, 1), (2, 1)]);
    assert!(s.is_idle());
}

#[test]
fn a_small_message_does_not_wait_for_a_large_one() {
    for size in [100_000usize, 1_000_000, 5_000_000] {
        let mut s = Scheduler::new(3).unwrap();
        assert!(s.enqueue_message(ChannelId::CartonData.id(), StreamID(1), &payload(size)));
        // The large transfer has the wire.
        assert_eq!(s.next_frame().unwrap().channel, 2);
        assert_eq!(s.next_frame().unwrap().channel, 2);
        for round in 0..20u64 {
            assert!(s.enqueue_message(ChannelId::Rpc.id(), StreamID(round), b"ping"));
            let mut before = 0;
            loop {
                let f = s.next_frame().unwrap();
                if f.channel == 0 {
                    assert_eq!(f.stream, StreamID(round));
                    break;
                }
                assert!(f.payload.len() <= MAX_FRAME_PAYLOAD);
                before += 1;
            }
            assert!(before <= 2, "{} frames went first", before);
        }
    }
}

#[test]
fn a_small_message_does_not_wait_behind_a_large_one_on_its_channel() {
    let mut s = Scheduler::new(3).unwrap();
    assert!(s.enqueue_message(2, StreamID(1), &payload(1_000_000)));
    assert!(s.enqueue_message(2, StreamID(2), &payload(100_000)));
    assert_eq!(s.next_frame().unwrap().stream, StreamID(1));
    assert_eq!(s.next_frame().unwrap().stream, StreamID(2));
    for round in 10..30u64 {
        assert!(s.enqueue_message(2, StreamID(round), b"small"));
        let mut before = 0;
        loop {
            let f = s.next_frame().unwrap();
            assert_eq!(f.channel, 2);
            if f.stream == StreamID(round) {
                assert_eq!(f.payload, vec![5, 0, 0, 0, 0, 0, 0, 0, b's', b'm', b'a', b'l', b'l']);
                break;
            }
            before += 1;
        }
        assert!(before <= 2, "{} frames went first", before);
    }
}

#[test]
fn the_frames_of_a_stream_stay_in_order() {
    let mut s = Scheduler::new(3).unwrap();
    let first = payload(40_000);
    assert!(s.enqueue_message(1, StreamID(1), &first));
    assert!(s.enqueue_message(1, StreamID(2), b"x"));
    assert!(s.enqueue_message(1, StreamID(1), b"second"));
    let mut carried = Vec::new();
    let mut order = Vec::new();
    while let Some(f) = s.next_frame() {
        order.push(f.stream.0);
        if f.stream == StreamID(1) {
            carried.extend_from_slice(&f.payload);
        }
    }
    assert_eq!(order, vec![1, 2, 1, 1, 1]);
    let mut want = (first.len() as u64).to_le_bytes().to_vec();
    want.extend_from_slice(&first);
    want.extend_from_slice(&[6, 0, 0, 0, 0, 0, 0, 0]);
    want.extend_from_slice(b"second");
    assert_eq!(carried, want);
}

#[test]
fn whole_messages_are_taken_off_a_stream() {
    let mut buf = Vec::new();
    buf.extend_from_slice(&[3, 0, 0, 0, 0, 0, 0, 0, b'a', b'b', b'c']);
    buf.extend_from_slice(&[0, 0, 0, 0, 0, 0, 0, 0]);
    buf.extend_from_slice(&[2, 0, 0, 0, 0, 0, 0, 0, b'x']);
    assert_eq!(drain_messages(&mut buf), vec![b"abc".to_vec(), vec![]]);
    assert_eq!(buf, vec![2, 0, 0, 0, 0, 0, 0, 0, b'x']);
    assert!(drain_messages(&mut buf).is_empty());
    buf.push(b'y');
    assert_eq!(drain_messages(&mut buf), vec![b"xy".to_vec()]);
    assert!(buf.is_empty());
    let mut short = vec![1, 0, 0];
    assert!(drain_messages(&mut short).is_empty());
    assert_eq!(short, vec![1, 0, 0]);
}

#[test]
fn messages_come_out_whole_and_in_order_however_the_frames_mix() {
    let big = payload(50_000);
    let mut sender = Scheduler::new(4).unwrap();
    assert!(sender.enqueue_message(2, StreamID(1), &big));
    assert!(sender.enqueue_message(0, StreamID(1), b"first"));
    assert!(sender.enqueue_message(0, StreamID(1), b"second"));
    assert!(sender.enqueue_message(3, StreamID(8), b""));
    assert!(sender.enqueue_message(2, StreamID(2), b"other stream"));
    let mut wire = Vec::new();
    while let Some(f) = sender.next_frame() {
        write_frame(&mut wire, &f);
    }
    let mut receiver = Reassembler::new(4).unwrap();
    let mut got: Vec<(u8, u64, Vec<u8>)> = Vec::new();
    let mut at = 0;
    loop {
        match read_frame(&wire, at) {
            FrameRead::Complete { frame, end } => {
                let (c, s) = (frame.channel, frame.stream.0);
                for m in receiver.accept(frame).unwrap() {
                    got.push((c, s, m));
                }
                at = end;
            },
            FrameRead::Incomplete => break,
            FrameRead::Malformed => panic!("the sender wrote a malformed frame"),
        }
    }
    assert_eq!(at, wire.len());
    let on = |c: u8, s: u64| -> Vec<Vec<u8>> {
        got.iter().filter(|g| g.0 == c && g.1 == s).map(|g| g.2.clone()).collect()
    };
    assert_eq!(on(0, 1), vec![b"first".to_vec(), b"second".to_vec()]);
    assert_eq!(on(2, 1), vec![big]);
    assert_eq!(on(2, 2), vec![b"other stream".to_vec()]);
    assert_eq!(on(3, 8), vec![Vec::<u8>::new()]);
    assert_eq!(got.len(), 5);
    assert_eq!(receiver.failure(), None);
}

#[test]
fn a_frame_for_no_channel_fails_every_channel() {
    assert!(Reassembler::new(2).is_none());
    assert!(Reassembler::new(257).is_none());
    let mut receiver = Reassembler::new(3).unwrap();
    let good = split_message(0, StreamID(1), b"ok");
    let stray = Frame { channel: 3, stream: StreamID(1), payload: vec![] };
    assert_eq!(receiver.accept(stray).unwrap_err(), ConnectionError::MalformedFrame);
    assert_eq!(receiver.failure(), Some(ConnectionError::MalformedFrame));
    for f in good {
        assert_eq!(receiver.accept(f).unwrap_err(), ConnectionError::MalformedFrame);
    }
}

#[test]
fn a_failed_session_takes_in_nothing() {
    let mut receiver = Reassembler::new(3).unwrap();
    receiver.fail(ConnectionError::Closed);
    receiver.fail(ConnectionError::MalformedFrame);
    assert_eq!(receiver.failure(), Some(ConnectionError::Closed));
    for f in split_message(1, StreamID(1), b"late") {
        assert_eq!(receiver.accept(f).unwrap_err(), ConnectionError::Closed);
    }
}
