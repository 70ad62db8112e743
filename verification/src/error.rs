//! Error kinds of the membership core.
//!
//! Payloads that were foreign types at the system's edges (HTTP errors,
//! codec errors, timeouts) are carried as plain text; the variant is what
//! callers dispatch on.

use vstd::prelude::*;

use crate::data::{HashVal, Uuid};

verus! {

/// Failure of a remote procedure call.
#[derive(Debug)]
pub enum RPCError {
    /// The target node is not in the live set.
    NodeDown(Uuid),
    /// The call did not answer within its deadline.
    Timeout(String),
    /// The transport failed; the text describes it.
    Transport(String),
    /// Encoding or decoding of a message failed.
    Codec(String),
    /// A quorum call ran out of healthy responses.
    TooManyErrors(Vec<String>),
}

/// Error kinds surfaced by the membership core and its callers.
#[derive(Debug)]
pub enum Error {
    /// Disk input or output failed.
    Io(String),
    /// A persisted blob failed its hash check; holds the expected hash.
    CorruptData(HashVal),
    /// A remote call failed.
    Rpc(RPCError),
    /// The named blob or item does not exist.
    NotFound,
    /// The operator's request was invalid.
    BadRequest(String),
    /// The request was valid but refused: layout check failure, or a
    /// replication factor mismatch.
    Forbidden(String),
    /// An RPC message arrived that its endpoint does not handle.
    UnexpectedMessage,
    /// Any other failure, described in text.
    Message(String),
}

impl Error {
    /// The HTTP status code under which this error is reported.
    pub fn http_status_code(&self) -> (r: u16)
        ensures
            r == 400 <==> self is BadRequest,
            r == 404 <==> self is NotFound,
            r == 403 <==> self is Forbidden,
            r == 503 <==> self is Rpc,
            r == 500 <==> !(self is BadRequest || self is NotFound || self is Forbidden
                || self is Rpc),
    {
        match self {
            Error::BadRequest(_) => 400,
            Error::NotFound => 404,
            Error::Forbidden(_) => 403,
            Error::Rpc(_) => 503,
            _ => 500,
        }
    }

    /// The process exit code for a command that failed with this error:
    /// operator mistakes exit 1, server-side failures exit 2, an
    /// unreachable server exits 3.
    pub fn exit_code(&self) -> (r: u8)
        ensures
            r == 1 <==> (self is BadRequest || self is NotFound),
            r == 3 <==> self is Rpc,
            r == 2 <==> !(self is BadRequest || self is NotFound || self is Rpc),
    {
        match self {
            Error::BadRequest(_) => 1,
            Error::NotFound => 1,
            Error::Rpc(_) => 3,
            _ => 2,
        }
    }
}

} // verus!
