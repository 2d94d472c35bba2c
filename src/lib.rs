//! A 9P2000 file server core: the wire codec, an in-memory file tree, the
//! per-connection session of fids, and the message dispatcher.
pub mod wire;
pub mod p2000;
pub mod codec;
pub mod message;
pub mod errors;
pub mod tree;
pub mod session;
pub mod server;
