//! The verified core of a prefork HTTP/1.0 server.
//!
//! The library decides and computes; it opens no socket and starts no process.
//! `worker` holds the supervisor of the children as a state machine, `http` the
//! reading and parsing of requests and the writing of responses, `server` the
//! naming of endpoints, the registry of listening sockets and the decisions of
//! the accept loop, `util` the calendar behind the `Date` header, and `text`
//! the handling of texts that the others share.

pub mod args;
pub mod http;
pub mod process;
pub mod server;
pub mod text;
pub mod util;
pub mod worker;
