//! Failure signals for bucket operations.

use vstd::prelude::*;

verus! {

/// Why a bucket operation could not proceed.
///
/// `BucketFull`, `IncorrectBucket` and `RepeatedLNode` are produced by the
/// operations in this crate; `LNodeNotFound`, `NodeNotFound` and `IndexError`
/// are reserved for a multi-bucket container built on top of `Bucket`.
#[derive(Clone, Copy, Debug, PartialEq, Eq, Structural)]
pub enum BucketError {
    BucketFull,
    IncorrectBucket,
    RepeatedLNode,
    LNodeNotFound,
    NodeNotFound,
    IndexError,
}

/// The diagnostic line for each error kind.
pub open spec fn spec_message(e: BucketError) -> Seq<char> {
    match e {
        BucketError::BucketFull => "This bucket is full."@,
        BucketError::IncorrectBucket => "The node does not fit."@,
        BucketError::RepeatedLNode => "There already is a local node."@,
        BucketError::LNodeNotFound => "Could not find the local node."@,
        BucketError::NodeNotFound => "Could not find the node."@,
        BucketError::IndexError => "Index is out of bounds."@,
    }
}

impl BucketError {
    /// A short human-readable description of the error.
    pub fn message(&self) -> (r: &'static str)
        ensures
            r@ == spec_message(*self),
    {
        match *self {
            BucketError::BucketFull => "This bucket is full.",
            BucketError::IncorrectBucket => "The node does not fit.",
            BucketError::RepeatedLNode => "There already is a local node.",
            BucketError::LNodeNotFound => "Could not find the local node.",
            BucketError::NodeNotFound => "Could not find the node.",
            BucketError::IndexError => "Index is out of bounds.",
        }
    }
}

} // verus!
