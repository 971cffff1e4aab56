//! Generic commit-verify scheme interfaces.

use vstd::prelude::*;

verus! {

/// Marker trait for commitment protocols: a protocol may supply the 32
/// midstate bytes of a fixed hash-domain tag applied while committing.
pub trait CommitmentProtocol {
    /// Midstate bytes for the protocol-specific tagged hash, if any.
    fn hash_tag_midstate() -> Option<Vec<u8>>;
}

/// Marker type for commitment protocols whose messages are already hashed by
/// the caller; no extra domain tag is applied before committing.
pub struct PrehashedProtocol;

impl CommitmentProtocol for PrehashedProtocol {
    /// Pre-hashed messages carry their own domain tags; none is added here.
    fn hash_tag_midstate() -> (r: Option<Vec<u8>>)
        ensures
            r is None,
    {
        None
    }
}

/// Commit-verify scheme: `commit` deterministically produces a commitment to
/// a message, and `verify` checks a commitment against a message.
pub trait CommitVerify<Msg, P>: Sized {
    /// Creates a commitment to the given message.
    fn commit(msg: &Msg) -> Self;

    /// Verifies the commitment against the message.
    fn verify(&self, msg: &Msg) -> bool;
}

/// Fallible commit-verify scheme: committing may be rejected with an error.
pub trait TryCommitVerify<Msg, P>: Sized {
    /// Error reported when a commitment cannot be created.
    type Error;

    /// Tries to create a commitment to the given message.
    fn try_commit(msg: &Msg) -> Result<Self, Self::Error>;

    /// Tries to verify the commitment against the message.
    fn try_verify(&self, msg: &Msg) -> Result<bool, Self::Error>;
}

} // verus!
