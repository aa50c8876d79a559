//! A chat core: a room-scoped message log with strictly increasing ids,
//! one-to-one rooms keyed by their canonical participant pair, per-user read
//! markers with unread counts, and a fan-out hub whose subscribers each have
//! a bounded buffer and learn explicitly of messages they missed.

pub mod hub;
pub mod laws;
pub mod model;
pub mod participants;
pub mod service;
pub mod state;
pub mod store;
pub mod text;
