//! An in-memory key-value service speaking a self-delimiting textual wire
//! protocol: a verified codec (bytes to messages and back), a keyed store
//! with lazy time-based expiry, and a command dispatcher.

pub mod resp;
pub mod store;
pub mod dispatch;
