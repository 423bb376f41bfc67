//! Wire encoding of negotiation payloads and of the relayed envelope.

use vstd::prelude::*;
use vstd::string::*;

verus! {

/// One negotiation message, as a client sends it.
pub enum SignalingPayload {
    Offer { sdp: String },
    Answer { sdp: String },
    Candidate { candidate: String, sdp_mid: Option<String>, sdp_m_line_index: Option<u32> },
}

/// A relayed message: the payload together with the identifier of its sender.
pub struct SignalingMessage {
    pub from: String,
    pub payload: SignalingPayload,
}

/// The lowercase hexadecimal digit for `d`, which is below sixteen.
pub open spec fn hex_digit(d: nat) -> char {
    seq!['0', '1', '2', '3', '4', '5', '6', '7', '8', '9', 'a', 'b', 'c', 'd', 'e', 'f'][d as int]
}

/// How one character stands inside a JSON string literal: the quote, the
/// backslash and the control characters below U+0020 are escaped, the short
/// forms where JSON has one and `\u00XX` otherwise; any other character
/// stands for itself.
pub open spec fn escaped_char(c: char) -> Seq<char> {
    if c == '"' {
        seq!['\\', '"']
    } else if c == '\\' {
        seq!['\\', '\\']
    } else if c == '\u{8}' {
        seq!['\\', 'b']
    } else if c == '\t' {
        seq!['\\', 't']
    } else if c == '\n' {
        seq!['\\', 'n']
    } else if c == '\u{c}' {
        seq!['\\', 'f']
    } else if c == '\r' {
        seq!['\\', 'r']
    } else if (c as u32) < 0x20 {
        seq!['\\', 'u', '0', '0', hex_digit((c as u32) as nat / 16), hex_digit((c as u32) as nat % 16)]
    } else {
        seq![c]
    }
}

/// The characters of `s`, each escaped.
pub open spec fn escaped(s: Seq<char>) -> Seq<char>
    decreases s.len(),
{
    if s.len() == 0 {
        Seq::empty()
    } else {
        escaped(s.drop_last()) + escaped_char(s.last())
    }
}

/// The JSON string literal of `s`: its escaped characters between quotes.
pub open spec fn json_quote(s: Seq<char>) -> Seq<char> {
    seq!['"'] + escaped(s) + seq!['"']
}

/// The decimal digit for `d`, which is below ten.
pub open spec fn digit(d: nat) -> char {
    seq!['0', '1', '2', '3', '4', '5', '6', '7', '8', '9'][d as int]
}

/// The decimal numeral of `n`, without leading zeros.
pub open spec fn decimal(n: nat) -> Seq<char>
    decreases n,
{
    if n < 10 {
        seq![digit(n)]
    } else {
        decimal(n / 10).push(digit(n % 10))
    }
}

/// Relies on serde_json::to_string on a `str`: it writes the string as a JSON
/// string literal, escaping as `escaped_char` says, into a `Vec`, a writer
/// that never fails.
#[verifier::external_body]
fn quote(s: &str) -> (r: String)
    ensures
        r@ == json_quote(s@),
{
    serde_json::to_string(s).unwrap_or_default()
}

/// Relies on serde_json::to_string on a `u32`: a JSON number is written as
/// its plain decimal numeral.
#[verifier::external_body]
fn numeral(n: u32) -> (r: String)
    ensures
        r@ == decimal(n as nat),
{
    serde_json::to_string(&n).unwrap_or_default()
}

/// The JSON value of an optional string: the literal, or `null`.
pub open spec fn optional_text_json(o: Option<String>) -> Seq<char> {
    match o {
        Some(s) => json_quote(s@),
        None => "null"@,
    }
}

/// The JSON value of an optional number: the numeral, or `null`.
pub open spec fn optional_number_json(o: Option<u32>) -> Seq<char> {
    match o {
        Some(n) => decimal(n as nat),
        None => "null"@,
    }
}

/// The wire text of a payload: an object whose `type` field names the variant,
/// followed by the variant's fields in order.
pub open spec fn payload_json(p: SignalingPayload) -> Seq<char> {
    match p {
        SignalingPayload::Offer { sdp } => "{\"type\":\"offer\",\"sdp\":"@ + json_quote(sdp@) + "}"@,
        SignalingPayload::Answer { sdp } => "{\"type\":\"answer\",\"sdp\":"@ + json_quote(sdp@)
            + "}"@,
        SignalingPayload::Candidate { candidate, sdp_mid, sdp_m_line_index } =>
            "{\"type\":\"candidate\",\"candidate\":"@ + json_quote(candidate@) + ",\"sdp_mid\":"@
            + optional_text_json(sdp_mid) + ",\"sdp_m_line_index\":"@ + optional_number_json(
            sdp_m_line_index) + "}"@,
    }
}

/// The wire text of a relayed message: `{"from":...,"payload":...}`.
pub open spec fn message_json(from: Seq<char>, p: SignalingPayload) -> Seq<char> {
    "{\"from\":"@ + json_quote(from) + ",\"payload\":"@ + payload_json(p) + "}"@
}

impl SignalingPayload {
    /// Writes the payload in its wire form.
    pub fn encode(&self) -> (r: String)
        ensures
            r@ == payload_json(*self),
    {
        match self {
            SignalingPayload::Offer { sdp } => {
                let mut r = String::from_str("{\"type\":\"offer\",\"sdp\":");
                r.append(quote(sdp.as_str()).as_str());
                r.append("}");
                r
            },
            SignalingPayload::Answer { sdp } => {
                let mut r = String::from_str("{\"type\":\"answer\",\"sdp\":");
                r.append(quote(sdp.as_str()).as_str());
                r.append("}");
                r
            },
            SignalingPayload::Candidate { candidate, sdp_mid, sdp_m_line_index } => {
                let mut r = String::from_str("{\"type\":\"candidate\",\"candidate\":");
                r.append(quote(candidate.as_str()).as_str());
                r.append(",\"sdp_mid\":");
                match sdp_mid {
                    Some(m) => r.append(quote(m.as_str()).as_str()),
                    None => r.append("null"),
                }
                r.append(",\"sdp_m_line_index\":");
                match sdp_m_line_index {
                    Some(n) => r.append(numeral(*n).as_str()),
                    None => r.append("null"),
                }
                r.append("}");
                r
            },
        }
    }
}

impl SignalingMessage {
    /// Writes the envelope in its wire form, the sender first.
    pub fn encode(&self) -> (r: String)
        ensures
            r@ == message_json(self.from@, self.payload),
    {
        let mut r = String::from_str("{\"from\":");
        r.append(quote(self.from.as_str()).as_str());
        r.append(",\"payload\":");
        r.append(self.payload.encode().as_str());
        r.append("}");
        r
    }
}

} // verus!
