//! An in-memory key/value server library speaking a framed wire protocol:
//! the frame codec, the keyed store with lazy expiry, the command
//! dispatcher, and the follower handshake steps. I/O stays outside; every
//! function here is a total computation over plain values.
pub mod ascii;
pub mod commands;
pub mod dec;
pub mod decode;
pub mod frame;
pub mod handshake;
pub mod role;
pub mod session;
pub mod store;
