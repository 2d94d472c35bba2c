//! The server's error kinds.
use vstd::prelude::*;

verus! {

/// How a failed request affects the connection.
#[derive(Debug)]
pub enum ServerError {
    /// The client gets an `Rerror` with `msg` and the session goes on.
    NonFatal { msg: String },
    /// The client gets an `Rerror` with `msg`, then the connection closes.
    NotifiedFatal { msg: String },
    /// The connection closes at once; nothing is sent.
    ImmediateFatal { msg: String },
}

impl ServerError {
    pub open spec fn is_non_fatal(&self) -> bool {
        self is NonFatal
    }
}

/// A non-fatal failure with the message `s`.
pub fn rerr<T>(s: &str) -> (r: Result<T, ServerError>)
    ensures
        r matches Err(ServerError::NonFatal { msg }) && msg@ == s@,
{
    Err(ServerError::NonFatal { msg: s.to_owned() })
}

} // verus!
