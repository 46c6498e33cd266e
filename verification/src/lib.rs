//! Recipe hashing, content-addressed build caches and the wire format spoken
//! between the build server, its workers and its clients.

pub mod foreign;
pub mod text;
pub mod ordered;
pub mod duplicate;
pub mod recipe;
pub mod source;
pub mod client;
pub mod dispatch;
pub mod network;
