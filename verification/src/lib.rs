use vstd::prelude::*;

pub mod cache;
pub mod codec;
pub mod db;
pub mod failures;
pub mod identify;
pub mod numbers;
pub mod part;
pub mod reconcile;
pub mod row;
pub mod sources;
pub mod text;

verus! {

/// An I/O failure reported by the surrounding filesystem layer, reduced to
/// the distinctions the library's logic acts on.
#[derive(Clone, Copy, Debug, PartialEq, Eq, Structural)]
pub enum IoError {
    UnexpectedEof,
    NotFound,
    PermissionDenied,
    Other,
}

/// A configuration error that stops the enclosing operation.
#[derive(Debug)]
pub enum Error {
    NoSuchSoftware(String),
    IO(IoError),
}

/// Operational status of a catalog entry.
#[derive(Clone, Copy, Debug, PartialEq, Eq, Structural)]
pub enum Status {
    Working,
    Partial,
    NotWorking,
}

impl Default for Status {
    fn default() -> (r: Self)
        ensures
            r == Status::Working,
    {
        Status::Working
    }
}

} // verus!
