use signal_relay::{Frame, FrameAction, Registry, Session, SignalingPayload};

fn offer(sdp: &str) -> Frame {
    Frame::Payload(SignalingPayload::Offer { sdp: sdp.to_string() })
}

fn relay(action: FrameAction) -> (Vec<u128>, String) {
    match action {
        FrameAction::Relay { to, text } => (to, text),
        FrameAction::Skip => panic!("skipped"),
        FrameAction::Stop => panic!("stopped"),
    }
}

#[test]
fn peer_text_is_hyphenated_hex() {
    let mut r = Registry::new();
    let s = Session::open(&mut r, "room".to_string(), 0x0123456789abcdef0fedcba987654321).unwrap();
    assert_eq!(s.peer_text(), "01234567-89ab-cdef-0fed-cba987654321");
    assert_eq!(s.peer_id(), 0x0123456789abcdef0fedcba987654321);
    assert_eq!(s.room(), "room");
}

#[test]
fn open_refuses_an_identifier_in_use() {
    let mut r = Registry::new();
    let _a = Session::open(&mut r, "one".to_string(), 5).unwrap();
    assert!(Session::open(&mut r, "two".to_string(), 5).is_none());
    assert!(!r.contains_room(&"two".to_string()));
}

#[test]
fn payload_is_relayed_to_others_with_sender() {
    let mut r = Registry::new();
    let a = Session::open(&mut r, "r".to_string(), 1).unwrap();
    let _b = Session::open(&mut r, "r".to_string(), 2).unwrap();
    let _c = Session::open(&mut r, "r".to_string(), 3).unwrap();
    let _d = Session::open(&mut r, "other".to_string(), 4).unwrap();
    let (to, text) = relay(a.on_frame(&r, offer("s")));
    assert_eq!(to, vec![2, 3]);
    assert_eq!(
        text,
        r#"{"from":"00000000-0000-0000-0000-000000000001","payload":{"type":"offer","sdp":"s"}}"#
    );
}

#[test]
fn malformed_frame_is_dropped_and_session_goes_on() {
    let mut r = Registry::new();
    let a = Session::open(&mut r, "r".to_string(), 1).unwrap();
    let b = Session::open(&mut r, "r".to_string(), 2).unwrap();
    assert!(matches!(a.on_frame(&r, Frame::Malformed), FrameAction::Skip));
    let (to, _) = relay(a.on_frame(&r, offer("x")));
    assert_eq!(to, vec![2]);
    let (to, _) = relay(b.on_frame(&r, offer("y")));
    assert_eq!(to, vec![1]);
}

#[test]
fn close_stops_the_session() {
    let mut r = Registry::new();
    let a = Session::open(&mut r, "r".to_string(), 1).unwrap();
    assert!(matches!(a.on_frame(&r, Frame::Close), FrameAction::Stop));
    a.finish(&mut r);
    assert!(!r.contains_room(&"r".to_string()));
}

#[test]
fn messages_of_one_sender_keep_their_order() {
    let mut r = Registry::new();
    let a = Session::open(&mut r, "r".to_string(), 1).unwrap();
    let _b = Session::open(&mut r, "r".to_string(), 2).unwrap();
    let (to1, t1) = relay(a.on_frame(&r, offer("first")));
    let (to2, t2) = relay(a.on_frame(&r, offer("second")));
    assert_eq!(to1, to2);
    assert!(t1.contains("first"));
    assert!(t2.contains("second"));
}

#[test]
fn end_to_end_gate_seven() {
    let mut r = Registry::new();
    let room = "gate-7".to_string();
    let a = Session::start(&mut r, room.clone()).unwrap();
    let b = Session::start(&mut r, room.clone()).unwrap();
    assert_ne!(a.peer_id(), b.peer_id());
    assert_eq!(a.peer_text().len(), 36);

    let (to, text) = relay(a.on_frame(&r, offer("v=0...")));
    assert_eq!(to, vec![b.peer_id()]);
    assert_eq!(
        text,
        format!(r#"{{"from":"{}","payload":{{"type":"offer","sdp":"v=0..."}}}}"#, a.peer_text())
    );

    let answer = Frame::Payload(SignalingPayload::Answer { sdp: "v=0...".to_string() });
    let (to, text) = relay(b.on_frame(&r, answer));
    assert_eq!(to, vec![a.peer_id()]);
    assert_eq!(
        text,
        format!(r#"{{"from":"{}","payload":{{"type":"answer","sdp":"v=0..."}}}}"#, b.peer_text())
    );

    a.finish(&mut r);
    assert!(r.contains_room(&room));
    let candidate = Frame::Payload(SignalingPayload::Candidate {
        candidate: "candidate:0".to_string(),
        sdp_mid: Some("0".to_string()),
        sdp_m_line_index: Some(0),
    });
    let (to, _) = relay(b.on_frame(&r, candidate));
    assert!(to.is_empty());

    b.finish(&mut r);
    assert!(!r.contains_room(&room));
}
