//! The decisions of a small tunnelling proxy: reading request lines and
//! headers, naming sessions, framing replies, and choosing, after each piece
//! of network input, what to do next.

pub mod address;
pub mod args;
pub mod number;
pub mod path;
pub mod proxy;
pub mod reply;
pub mod request;
pub mod session;
pub mod split;
pub mod text;
pub mod tls;
pub mod tunnel;
pub mod wire;
