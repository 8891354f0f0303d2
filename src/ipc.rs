//! Values exchanged between the daemon and its clients.

use vstd::prelude::*;
use crate::query::QueryOptions;

verus! {

/// An indexed path, and whether it is a directory.
#[derive(Clone, Debug)]
pub struct IndexEntry {
    pub path: String,
    pub directory: bool,
}

/// A request from a client.
#[derive(Clone, Debug)]
pub enum IpcCommand {
    FullIndex,
    Quit,
    Reload,
    GetIndex(Option<String>),
    QueryIndex(QueryOptions),
}

/// The daemon's reply.
#[derive(Clone, Debug)]
pub enum IpcResponse {
    Success,
    NotFound,
    Index(Vec<IndexEntry>),
}

/// Which kinds of entries a client asks for.
#[derive(Clone, Copy, Debug, PartialEq, Eq, Structural)]
pub enum TypeFilter {
    All,
    FilesOnly,
    DirOnly,
}

/// Why a request did not give what was asked.
#[derive(Clone, Copy, Debug, PartialEq, Eq, Structural)]
pub enum ClientError {
    /// The requested path is not a configured root.
    NotFound,
    /// The reply was not of the kind the request calls for.
    Unknown,
}

impl IpcResponse {
    /// The entries of an `Index` reply, for a query.
    pub fn into_query_result(self) -> (r: Result<Vec<IndexEntry>, ClientError>)
        ensures
            match self {
                IpcResponse::Index(v) => r == Ok::<Vec<IndexEntry>, ClientError>(v),
                _ => r == Err::<Vec<IndexEntry>, ClientError>(ClientError::Unknown),
            },
    {
        match self {
            IpcResponse::Index(v) => Ok(v),
            _ => Err(ClientError::Unknown),
        }
    }

    /// The entries of an `Index` reply, for a request of the index; a
    /// `NotFound` reply is an error of its own.
    pub fn into_index(self) -> (r: Result<Vec<IndexEntry>, ClientError>)
        ensures
            match self {
                IpcResponse::Index(v) => r == Ok::<Vec<IndexEntry>, ClientError>(v),
                IpcResponse::NotFound => r == Err::<Vec<IndexEntry>, ClientError>(ClientError::NotFound),
                IpcResponse::Success => r == Err::<Vec<IndexEntry>, ClientError>(ClientError::Unknown),
            },
    {
        match self {
            IpcResponse::Index(v) => Ok(v),
            IpcResponse::NotFound => Err(ClientError::NotFound),
            IpcResponse::Success => Err(ClientError::Unknown),
        }
    }

    /// Whether the reply acknowledges a control request.
    pub fn into_ack(self) -> (r: Result<(), ClientError>)
        ensures
            r == (if self is Success {
                Ok::<(), ClientError>(())
            } else {
                Err::<(), ClientError>(ClientError::Unknown)
            }),
    {
        match self {
            IpcResponse::Success => Ok(()),
            _ => Err(ClientError::Unknown),
        }
    }
}

} // verus!
