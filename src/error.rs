//! The error kinds of the pool, the request parser, the server and the router.
use vstd::prelude::*;

verus! {

/// Failures of the worker pool's queue.
#[derive(Debug, PartialEq, Eq)]
pub enum ThreadPoolError {
    /// The lock on the queue's receiving end was poisoned.
    ReceiverLockError(String),
    /// The queue was closed while a worker waited on it.
    ReceiveError(String),
    /// A job could not be handed to the queue.
    SendError(String),
}

/// Failures of turning request lines into a request.
#[derive(Debug, PartialEq, Eq)]
pub enum RequestError {
    /// The request line holds fewer than three words; it is carried along.
    InvalidRequestLineError(String),
    /// There was no request line at all.
    EmptyRequestError,
}

/// Failures of handling one connection.
#[derive(Debug, PartialEq, Eq)]
pub enum WebServerError {
    StreamFlushError(String),
    IO(String),
    RequestParseError(RequestError),
    InternalServerError(String),
}

/// Failures of the router itself, distinct from the HTTP error responses it produces.
#[derive(Debug, PartialEq, Eq)]
pub enum WebRouterError {
    PathFormatError(String),
}

} // verus!
