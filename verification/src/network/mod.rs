//! The messages exchanged with clients and workers.

pub mod client;
pub mod worker;
pub mod conversation;
