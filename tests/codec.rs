use signal_relay::{SignalingMessage, SignalingPayload};

#[test]
fn offer_encodes_with_type_first() {
    let p = SignalingPayload::Offer { sdp: "v=0...".to_string() };
    assert_eq!(p.encode(), r#"{"type":"offer","sdp":"v=0..."}"#);
}

#[test]
fn answer_encodes_with_type_first() {
    let p = SignalingPayload::Answer { sdp: "v=0 a".to_string() };
    assert_eq!(p.encode(), r#"{"type":"answer","sdp":"v=0 a"}"#);
}

#[test]
fn candidate_without_optional_fields_writes_nulls() {
    let p = SignalingPayload::Candidate {
        candidate: "candidate:1 1 udp 2122260223 10.0.0.1 50000 typ host".to_string(),
        sdp_mid: None,
        sdp_m_line_index: None,
    };
    assert_eq!(
        p.encode(),
        r#"{"type":"candidate","candidate":"candidate:1 1 udp 2122260223 10.0.0.1 50000 typ host","sdp_mid":null,"sdp_m_line_index":null}"#
    );
}

#[test]
fn candidate_with_optional_fields() {
    let p = SignalingPayload::Candidate {
        candidate: "c".to_string(),
        sdp_mid: Some("0".to_string()),
        sdp_m_line_index: Some(4294967295),
    };
    assert_eq!(
        p.encode(),
        r#"{"type":"candidate","candidate":"c","sdp_mid":"0","sdp_m_line_index":4294967295}"#
    );
}

#[test]
fn candidate_index_zero() {
    let p = SignalingPayload::Candidate {
        candidate: String::new(),
        sdp_mid: Some(String::new()),
        sdp_m_line_index: Some(0),
    };
    assert_eq!(
        p.encode(),
        r#"{"type":"candidate","candidate":"","sdp_mid":"","sdp_m_line_index":0}"#
    );
}

#[test]
fn strings_are_escaped() {
    let p = SignalingPayload::Offer { sdp: "a\"b\\c\r\nd".to_string() };
    assert_eq!(p.encode(), r#"{"type":"offer","sdp":"a\"b\\c\r\nd"}"#);
}

#[test]
fn message_wraps_payload_with_sender() {
    let m = SignalingMessage {
        from: "peer-a".to_string(),
        payload: SignalingPayload::Answer { sdp: "x".to_string() },
    };
    assert_eq!(
        m.encode(),
        r#"{"from":"peer-a","payload":{"type":"answer","sdp":"x"}}"#
    );
}

#[test]
fn control_characters_are_escaped() {
    let p = SignalingPayload::Answer { sdp: "\u{1}\u{8}\t\u{c}\u{1f}\u{7f}é".to_string() };
    assert_eq!(p.encode(), "{\"type\":\"answer\",\"sdp\":\"\\u0001\\b\\t\\f\\u001f\u{7f}é\"}");
}
