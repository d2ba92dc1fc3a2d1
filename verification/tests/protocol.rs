use scup::protocol::{
    frame, packets, pop_framed_message, rpc_step, take_frames, unframe, ChannelEvent, FrameError,
    RpcStep, PACKET_SIZE,
};

#[test]
fn a_frame_is_its_length_and_the_message() {
    assert_eq!(frame(vec![9, 8]), vec![2, 0, 0, 0, 9, 8]);
    assert_eq!(frame(vec![]), vec![0, 0, 0, 0]);
    let long = vec![1u8; 0x0102];
    assert_eq!(frame(long)[..4], [2, 1, 0, 0]);
}

#[test]
fn a_framed_message_is_read_back() {
    for m in [vec![], vec![5], vec![1u8; 300]] {
        let mut bytes = frame(m.clone());
        bytes.push(77);
        assert_eq!(unframe(&bytes), Ok(&m[..]));
    }
}

#[test]
fn frames_that_are_not_complete() {
    let e = unframe(&[1, 2, 3]).unwrap_err();
    assert_eq!(e, FrameError::TooShort { length: 3 });
    assert_eq!(e.message(), "framed message too short: 3 bytes");
    let e = unframe(&[5, 0, 0, 0, 1, 2]).unwrap_err();
    assert_eq!(e, FrameError::Incomplete { expected: 5, got: 2 });
    assert_eq!(e.message(), "incomplete framed message: expected 5 bytes, got 2");
}

#[test]
fn messages_are_taken_out_one_by_one() {
    let mut buf = frame(vec![1]);
    buf.extend(frame(vec![2, 3]));
    buf.extend([4, 0, 0, 0, 9]);
    assert_eq!(pop_framed_message(&mut buf), Some(frame(vec![1])));
    assert_eq!(pop_framed_message(&mut buf), Some(frame(vec![2, 3])));
    assert_eq!(pop_framed_message(&mut buf), None);
    assert_eq!(buf, vec![4, 0, 0, 0, 9]);
    let mut short = vec![1, 0];
    assert_eq!(pop_framed_message(&mut short), None);
}

#[test]
fn messages_do_not_depend_on_the_pieces_they_come_in() {
    let messages = vec![vec![1u8; 10], vec![], vec![7, 7, 7]];
    let mut stream = Vec::new();
    for m in &messages {
        stream.extend(frame(m.clone()));
    }
    for piece in [1, 2, 5, 100] {
        let mut pending = Vec::new();
        let mut got = Vec::new();
        for part in stream.chunks(piece) {
            got.extend(take_frames(&mut pending, part));
        }
        let sent: Vec<Vec<u8>> = messages.iter().map(|m| frame(m.clone())).collect();
        assert_eq!(got, sent);
        assert!(pending.is_empty());
    }
}

#[test]
fn steps_of_a_call() {
    let mut raw = Vec::new();
    assert_eq!(rpc_step(&mut raw, ChannelEvent::Data(vec![1, 0, 0])), RpcStep::Wait);
    assert_eq!(rpc_step(&mut raw, ChannelEvent::Other), RpcStep::Wait);
    assert_eq!(rpc_step(&mut raw, ChannelEvent::Eof), RpcStep::PeerEof);
    assert_eq!(rpc_step(&mut raw, ChannelEvent::Closed), RpcStep::ChannelClosed);
    assert_eq!(
        rpc_step(&mut raw, ChannelEvent::Data(vec![0, 42, 9])),
        RpcStep::Frame(vec![1, 0, 0, 0, 42])
    );
    assert_eq!(raw, vec![9]);
}

#[test]
fn packets_have_the_size_of_packets() {
    assert_eq!(packets(&[]), Vec::<Vec<u8>>::new());
    let bytes: Vec<u8> = (0..PACKET_SIZE * 2 + 3).map(|i| i as u8).collect();
    let parts = packets(&bytes);
    assert_eq!(parts.len(), 3);
    assert_eq!(parts[0].len(), PACKET_SIZE);
    assert_eq!(parts[2].len(), 3);
    assert_eq!(parts.concat(), bytes);
    assert_eq!(packets(&bytes[..PACKET_SIZE]).len(), 1);
}
