//! Building blocks of a TLS reverse tunnel: the control protocol between the
//! tunnel's client and server, the sniffer that finds the `Host` header of an
//! intercepted request, and the tables the server pairs connections with.

pub mod client;
pub mod http;
pub mod protocol;
pub mod server;
pub mod shared;
pub mod text;
pub mod wire;
