//! A peer's session: joining its room, deciding what to do with each inbound
//! frame, and leaving its room at the end.

use vstd::prelude::*;
use crate::codec::{hex_digit, message_json, SignalingMessage, SignalingPayload};
use crate::registry::{holds_peer, joined, left, recipients, Registry};

verus! {

/// The `n` lowest hexadecimal digits of `x`, the most significant first.
pub open spec fn hex_digits(x: nat, n: nat) -> Seq<char>
    decreases n,
{
    if n == 0 {
        Seq::empty()
    } else {
        hex_digits(x / 16, (n - 1) as nat).push(hex_digit(x % 16))
    }
}

/// The hyphenated text of a 128-bit identifier: its 32 hexadecimal digits,
/// most significant first, in groups of 8, 4, 4, 4 and 12.
pub open spec fn hyphenated(id: nat) -> Seq<char> {
    hex_digits(id / 0x1_0000_0000_0000_0000_0000_0000, 8) + "-"@ + hex_digits(
        id / 0x1_0000_0000_0000_0000_0000,
        4,
    ) + "-"@ + hex_digits(id / 0x1_0000_0000_0000_0000, 4) + "-"@ + hex_digits(
        id / 0x1_0000_0000_0000,
        4,
    ) + "-"@ + hex_digits(id, 12)
}

/// Relies on uuid::Uuid::new_v4: a random version-4 identifier, as its 128 bits.
/// Nothing is promised of its value.
#[verifier::external_body]
fn fresh_peer_id() -> (r: u128) {
    uuid::Uuid::new_v4().as_u128()
}

/// Relies on uuid::Uuid::from_u128 and uuid's `Display`, which writes the
/// hyphenated lowercase form of the identifier's big-endian bytes.
#[verifier::external_body]
fn peer_text_of(id: u128) -> (r: String)
    ensures
        r@ == hyphenated(id as nat),
{
    uuid::Uuid::from_u128(id).to_string()
}

/// What arrived on a peer's inbound stream, text frames already decoded.
pub enum Frame {
    /// A text frame that decoded to a payload.
    Payload(SignalingPayload),
    /// A text frame that did not decode.
    Malformed,
    /// A close frame, a frame that is not text, a read error, or the end of
    /// the stream.
    Close,
}

/// What a session does with an inbound frame.
pub enum FrameAction {
    /// Deliver `text` to each peer of `to`.
    Relay { to: Vec<u128>, text: String },
    /// Drop the frame and go on reading.
    Skip,
    /// End the session.
    Stop,
}

/// What handling one frame does, as the rest of the room sees it.
pub enum Effect {
    /// The text is delivered to each peer of the set.
    Deliver(Set<u128>, Seq<char>),
    /// The peer leaves its room.
    Leave,
}

/// The effect of `frame` on a session of `peer` in room `room`, against the
/// rooms `v`: a payload goes, wrapped, to the other members; a malformed
/// frame has none; anything else makes the peer leave.
pub open spec fn frame_effect(v: Map<Seq<char>, Set<u128>>, room: Seq<char>, peer: u128, frame: Frame) -> Option<Effect> {
    match frame {
        Frame::Payload(p) => Some(
            Effect::Deliver(recipients(v, room, peer), message_json(hyphenated(peer as nat), p)),
        ),
        Frame::Malformed => None,
        Frame::Close => Some(Effect::Leave),
    }
}

/// The effect of an action that `Session::on_frame` returned.
pub open spec fn action_effect(a: FrameAction) -> Option<Effect> {
    match a {
        FrameAction::Relay { to, text } => Some(Effect::Deliver(to@.to_set(), text@)),
        FrameAction::Skip => None,
        FrameAction::Stop => Some(Effect::Leave),
    }
}

/// The effects of a session's frames in order, up to and including the
/// first that makes the peer leave; the session reads nothing after it.
pub open spec fn session_effects(v: Map<Seq<char>, Set<u128>>, room: Seq<char>, peer: u128, frames: Seq<Frame>) -> Seq<Effect>
    decreases frames.len(),
{
    if frames.len() == 0 {
        Seq::empty()
    } else {
        let rest = session_effects(v, room, peer, frames.drop_first());
        match frame_effect(v, room, peer, frames[0]) {
            Some(Effect::Leave) => seq![Effect::Leave],
            Some(e) => seq![e] + rest,
            None => rest,
        }
    }
}

/// The frames of `frames` that are not malformed, in order.
pub open spec fn without_malformed(frames: Seq<Frame>) -> Seq<Frame>
    decreases frames.len(),
{
    if frames.len() == 0 {
        Seq::empty()
    } else {
        let rest = without_malformed(frames.drop_first());
        match frames[0] {
            Frame::Malformed => rest,
            _ => seq![frames[0]] + rest,
        }
    }
}

/// Malformed frames change nothing: against the same rooms, a session's
/// frames deliver the same texts to the same peers, in the same order, and
/// end its membership at the same point, as those frames with every
/// malformed one taken out.
pub proof fn lemma_malformed_frames_ignored(
    v: Map<Seq<char>, Set<u128>>,
    room: Seq<char>,
    peer: u128,
    frames: Seq<Frame>,
)
    ensures
        session_effects(v, room, peer, frames) == session_effects(
            v,
            room,
            peer,
            without_malformed(frames),
        ),
    decreases frames.len(),
{
    if frames.len() > 0 {
        lemma_malformed_frames_ignored(v, room, peer, frames.drop_first());
        let kept = without_malformed(frames);
        match frames[0] {
            Frame::Malformed => {},
            _ => {
                assert(kept[0] == frames[0]);
                assert(kept.drop_first() == without_malformed(frames.drop_first()));
            },
        }
    }
}

/// A peer connected to a room.
pub struct Session {
    room: String,
    peer: u128,
    peer_text: String,
}

impl View for Session {
    type V = (Seq<char>, u128);

    /// The room and the peer's identifier.
    closed spec fn view(&self) -> (Seq<char>, u128) {
        (self.room@, self.peer)
    }
}

impl Session {
    /// The session holds the text of its own identifier.
    pub closed spec fn wf(&self) -> bool {
        self.peer_text@ == hyphenated(self.peer as nat)
    }

    /// Joins `room` as `peer`. Where `peer` is already a member of a room,
    /// nothing changes and there is no session.
    pub fn open(registry: &mut Registry, room: String, peer: u128) -> (r: Option<Session>)
        requires
            old(registry).wf(),
        ensures
            final(registry).wf(),
            final(registry)@ == joined(old(registry)@, room@, peer),
            r is Some <==> !holds_peer(old(registry)@, peer),
            r matches Some(s) ==> s.wf() && s@ == (room@, peer),
    {
        if registry.join(&room, peer) {
            let peer_text = peer_text_of(peer);
            Some(Session { room, peer, peer_text })
        } else {
            None
        }
    }

    /// Joins `room` under a freshly drawn identifier. There is no session, and
    /// nothing changes, only where that identifier is already a member.
    pub fn start(registry: &mut Registry, room: String) -> (r: Option<Session>)
        requires
            old(registry).wf(),
        ensures
            final(registry).wf(),
            match r {
                Some(s) => s.wf() && s@.0 == room@ && !holds_peer(old(registry)@, s@.1)
                    && final(registry)@ == joined(old(registry)@, room@, s@.1),
                None => final(registry)@ == old(registry)@,
            },
            r is None ==> exists|q: u128| holds_peer(old(registry)@, q),
    {
        let peer = fresh_peer_id();
        Self::open(registry, room, peer)
    }

    /// The peer's identifier.
    pub fn peer_id(&self) -> (r: u128)
        ensures
            r == self@.1,
    {
        self.peer
    }

    /// The peer's identifier as text, as relayed messages carry it.
    pub fn peer_text(&self) -> (r: &str)
        requires
            self.wf(),
        ensures
            r@ == hyphenated(self@.1 as nat),
    {
        self.peer_text.as_str()
    }

    /// The room's name.
    pub fn room(&self) -> (r: &str)
        ensures
            r@ == self@.0,
    {
        self.room.as_str()
    }

    /// Decides what to do with an inbound frame. A payload is wrapped with
    /// this peer's identifier and relayed to the other members of the room; a
    /// malformed frame is dropped and the session goes on; anything else ends
    /// the session.
    pub fn on_frame(&self, registry: &Registry, frame: Frame) -> (r: FrameAction)
        requires
            self.wf(),
            registry.wf(),
        ensures
            match frame {
                Frame::Payload(p) => match r {
                    FrameAction::Relay { to, text } => {
                        &&& to@.to_set() == recipients(registry@, self@.0, self@.1)
                        &&& to@.no_duplicates()
                        &&& !to@.contains(self@.1)
                        &&& text@ == message_json(hyphenated(self@.1 as nat), p)
                    },
                    _ => false,
                },
                Frame::Malformed => r is Skip,
                Frame::Close => r is Stop,
            },
            action_effect(r) == frame_effect(registry@, self@.0, self@.1, frame),
    {
        match frame {
            Frame::Payload(payload) => {
                let message = SignalingMessage { from: self.peer_text.clone(), payload };
                let text = message.encode();
                let to = registry.broadcast(&self.room, self.peer);
                FrameAction::Relay { to, text }
            },
            Frame::Malformed => FrameAction::Skip,
            Frame::Close => FrameAction::Stop,
        }
    }

    /// Ends the session: the peer leaves its room, and the room is removed if
    /// it has no members left.
    pub fn finish(self, registry: &mut Registry)
        requires
            old(registry).wf(),
        ensures
            final(registry).wf(),
            final(registry)@ == left(old(registry)@, self@.0, self@.1),
    {
        registry.leave(&self.room, self.peer);
    }
}

} // verus!
