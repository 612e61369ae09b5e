//! The signalling side of networked play: just enough JSON and WebSocket to
//! relay messages between peers, the relay's topic table, and the rules of
//! a shared session.
pub mod json;
pub mod ws;
pub mod relay;
pub mod session;
pub mod http;
