use stegoshare::transport::{
    ack_bytes, batch_start, build_frames, end_bytes, nack_bytes, parse_feedback, BatchWait,
    Feedback, Receiver, RxStep, SendDecision,
};

fn payload(n: usize) -> Vec<u8> {
    (0..n).map(|i| (i % 251) as u8).collect()
}

#[test]
fn empty_payload_is_a_single_end_frame() {
    let frames = build_frames(&Vec::new());
    assert_eq!(frames.len(), 1);
    assert_eq!(frames[0], vec![0, 0, 0, 0, b'E', b'N', b'D']);
}

#[test]
fn empty_payload_completes_at_once_with_one_terminator_ack() {
    let frames = build_frames(&Vec::new());
    let mut rx = Receiver::new();
    match rx.on_frame(&frames[0]) {
        RxStep::Completed { payload, feedback } => {
            assert_eq!(payload, Vec::<u8>::new());
            assert_eq!(feedback, b"END".to_vec());
        }
        _ => panic!("the lone END frame must complete the transfer"),
    }
}

#[test]
fn exact_multiple_still_sends_one_end_frame() {
    let data = payload(2044 * 3);
    let frames = build_frames(&data);
    assert_eq!(frames.len(), 4);
    // every data frame is full-sized; only the last frame is the terminator
    for (i, f) in frames.iter().take(3).enumerate() {
        assert_eq!(f.len(), 4 + 2044);
        assert_eq!(&f[0..4], &(i as u32).to_be_bytes());
    }
    assert_eq!(frames[3], [&3u32.to_be_bytes()[..], b"END"].concat());
}

#[test]
fn in_order_delivery_reassembles_exactly() {
    let data = payload(5000);
    let frames = build_frames(&data);
    let mut rx = Receiver::new();
    for f in frames.iter().take(frames.len() - 1) {
        match rx.on_frame(f) {
            RxStep::Accepted { .. } => {}
            _ => panic!("in-order chunk must be accepted"),
        }
    }
    match rx.on_frame(&frames[frames.len() - 1]) {
        RxStep::Completed { payload, .. } => assert_eq!(payload, data),
        _ => panic!("END must complete"),
    }
}

#[test]
fn loss_and_reordering_recovered_by_retransmission() {
    let data = payload(2044 * 2 + 100);
    let frames = build_frames(&data);
    let mut rx = Receiver::new();
    // chunk 1 arrives first: refused with NACK 0
    match rx.on_frame(&frames[1]) {
        RxStep::Rejected { feedback } => assert_eq!(feedback, b"NACK 0".to_vec()),
        _ => panic!("gap must be NACKed"),
    }
    // the batch is retransmitted from chunk 0; a duplicate of 0 later is refused
    assert!(matches!(rx.on_frame(&frames[0]), RxStep::Accepted { .. }));
    assert!(matches!(rx.on_frame(&frames[1]), RxStep::Accepted { .. }));
    match rx.on_frame(&frames[0]) {
        RxStep::Rejected { feedback } => assert_eq!(feedback, b"NACK 2".to_vec()),
        _ => panic!("duplicate must be NACKed"),
    }
    assert!(matches!(rx.on_frame(&frames[2]), RxStep::Accepted { .. }));
    match rx.on_frame(&frames[3]) {
        RxStep::Completed { payload, .. } => assert_eq!(payload, data),
        _ => panic!("END must complete"),
    }
}

#[test]
fn ack_every_tenth_chunk() {
    let data = payload(2044 * 10);
    let frames = build_frames(&data);
    let mut rx = Receiver::new();
    for (i, f) in frames.iter().take(10).enumerate() {
        match rx.on_frame(f) {
            RxStep::Accepted { feedback } => {
                if i == 9 {
                    assert_eq!(feedback, Some(b"ACK 9".to_vec()));
                } else {
                    assert_eq!(feedback, None);
                }
            }
            _ => panic!("in-order chunk must be accepted"),
        }
    }
}

#[test]
fn short_frames_are_ignored() {
    let mut rx = Receiver::new();
    assert!(matches!(rx.on_frame(b"abc"), RxStep::Ignored));
    assert!(matches!(rx.on_frame(b""), RxStep::Ignored));
}

#[test]
fn feedback_frames_parse_back() {
    assert_eq!(ack_bytes(7), b"ACK 7".to_vec());
    assert_eq!(nack_bytes(12), b"NACK 12".to_vec());
    assert_eq!(end_bytes(), b"END".to_vec());
    assert!(matches!(parse_feedback(b"ACK 7"), Feedback::Ack(7)));
    assert!(matches!(parse_feedback(b"NACK 3"), Feedback::Nack(3)));
    assert!(matches!(parse_feedback(b"END"), Feedback::TermAck));
    assert!(matches!(parse_feedback(b"ACK x"), Feedback::Other));
    assert!(matches!(parse_feedback(b"hello"), Feedback::Other));
    assert!(matches!(parse_feedback(b"ACK 99999999999"), Feedback::Other));
}

#[test]
fn batch_start_covers_at_most_ten_chunks() {
    assert_eq!(batch_start(0), 0);
    assert_eq!(batch_start(8), 0);
    assert_eq!(batch_start(9), 0);
    assert_eq!(batch_start(10), 1);
    assert_eq!(batch_start(25), 16);
}

#[test]
fn sender_retries_five_times_then_aborts() {
    let mut wait = BatchWait::new(19);
    for _ in 0..4 {
        match wait.on_feedback(&Feedback::Nack(10), false) {
            SendDecision::Resend { from, to } => {
                assert_eq!((from, to), (10, 19));
            }
            _ => panic!("a NACK before the fifth retry must retransmit"),
        }
    }
    assert!(matches!(wait.on_feedback(&Feedback::Other, true), SendDecision::Abort));
}

#[test]
fn sender_proceeds_on_matching_ack() {
    let mut wait = BatchWait::new(9);
    assert!(matches!(
        wait.on_feedback(&Feedback::Ack(5), false),
        SendDecision::KeepWaiting
    ));
    assert!(matches!(wait.on_feedback(&Feedback::Ack(9), false), SendDecision::Proceed));
}
