//! The requests and replies of the transaction and timestamp services, and the
//! errors that a request can end in.
use vstd::prelude::*;

verus! {

/// A key with the value meant for it; where only the key matters, the value is empty.
#[derive(Debug)]
pub struct Write {
    pub key: Vec<u8>,
    pub value: Vec<u8>,
}

/// Asks for the value of `key` as of `start_ts`.
#[derive(Debug)]
pub struct GetRequest {
    pub key: Vec<u8>,
    pub start_ts: u64,
}

/// The value read; empty where the key has no committed version in sight.
#[derive(Debug)]
pub struct GetResponse {
    pub value: Vec<u8>,
}

/// Asks to reserve `write.key` for the transaction that started at `start_ts` and
/// whose primary key is `primary.key`.
#[derive(Debug)]
pub struct PrewriteRequest {
    pub write: Write,
    pub primary: Write,
    pub start_ts: u64,
}

#[derive(Debug)]
pub struct PrewriteResponse {}

/// Asks to make the prewritten version of `write.key` visible as of `commit_ts`.
#[derive(Debug)]
pub struct CommitRequest {
    pub is_primary: bool,
    pub write: Write,
    pub start_ts: u64,
    pub commit_ts: u64,
}

#[derive(Debug)]
pub struct CommitResponse {}

#[derive(Debug)]
pub struct TimestampRequest {}

/// A timestamp handed out by the oracle.
#[derive(Debug)]
pub struct TimestampResponse {
    pub ts: u64,
}

/// Why a request was turned down.
#[derive(Clone, Copy, Debug, PartialEq, Eq, Structural)]
pub enum TxnError {
    /// A reader met a lock at or below its snapshot and has to try again later.
    Backoff,
    /// A prewrite met a version committed at or after its start.
    WriteConflict,
    /// A prewrite met a lock on its key.
    LockConflict,
    /// A commit of the primary key found its lock gone.
    LockNotFound,
}

impl TxnError {
    /// The tag under which the error travels to the caller.
    pub fn message(&self) -> (s: &'static str)
        ensures
            s@ == match *self {
                TxnError::Backoff => "Backoff"@,
                TxnError::WriteConflict => "write conflict"@,
                TxnError::LockConflict => "key has already locked"@,
                TxnError::LockNotFound => "lock is not found"@,
            },
    {
        match self {
            TxnError::Backoff => "Backoff",
            TxnError::WriteConflict => "write conflict",
            TxnError::LockConflict => "key has already locked",
            TxnError::LockNotFound => "lock is not found",
        }
    }
}

} // verus!
