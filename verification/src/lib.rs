//! Verified decoding core for Open Sound Control (OSC) datagrams.
//!
//! The pipeline turns one raw UDP payload into application messages:
//! a wire framer prepends the 4-byte big-endian length header that the
//! packet grammar expects, a packet parser decodes the OSC 1.0 binary
//! layout (messages and one level of bundles), an address dispatcher maps
//! a message onto the closed set of application message variants, and a
//! bundle flattener applies the dispatcher to each bundle child.
//!
//! Every stage is a pure function over in-memory bytes; sockets and the
//! event loop live outside the library.

pub mod codec;
pub mod dispatch;
pub mod flatten;
pub mod framer;
pub mod packet;
pub mod parser;
