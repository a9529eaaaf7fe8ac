//! Core of a small real-time strategy game: the per-unit simulation state
//! machine, the client/server message wire format, and the server's registry
//! of connected users.
pub mod unit;
pub mod user;
pub mod message;
