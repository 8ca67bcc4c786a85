//! Presence synchronisation for a small multiplayer scene: the server's
//! session registry and its fan-out rule, the line protocol's framing, the
//! client's incremental line reader and roster, the sprite compositor that
//! paints a frame, and the ASCII bitmap a client's own sprite is read from.

pub mod geometry;
pub mod compositor;
pub mod registry;
pub mod line_reader;
pub mod codec;
pub mod client;
pub mod bitmap;
pub mod protocol;
