//! Core of a planning-poker service: rooms hold a card menu, a visibility
//! flag and the connected players with their bets and display names. Every
//! mutation is followed by a fan-out of per-recipient, redacted snapshots
//! over bounded subscriber channels; a channel that rejects a send counts as
//! a disconnect and the broadcast is retried on the surviving players.

pub mod api;
pub mod channel;
pub mod nickname;
pub mod registry;
pub mod room;
pub mod state;
pub mod uid;
pub mod username;
