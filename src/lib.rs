//! A room-scoped signaling relay: peers join rooms, and each message a peer
//! sends is wrapped with its sender's identifier and fanned out to the other
//! members of its room.

pub mod codec;
pub mod registry;
pub mod session;

pub use codec::{SignalingMessage, SignalingPayload};
pub use registry::Registry;
pub use session::{Frame, FrameAction, Session};
