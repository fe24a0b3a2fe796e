//! The connection logic of a Bitcoin light-client.

pub mod channel;
pub mod client;
pub mod connmgr;
pub mod laws;
pub mod net;
pub mod peer;
pub mod source;
pub mod state;
pub mod table;
pub mod time;
