use vstd::prelude::*;

verus! {

/// Why an operation on a container was refused.
#[derive(Clone, Copy, Debug, PartialEq, Eq, Structural)]
pub enum Error {
    /// A size is over its limit, or the identity check did not match.
    Validation,
    /// The source gave fewer bytes than it announced.
    Io,
    /// A fixed-size field or a chunk is cut short.
    Format,
    /// A chunk did not authenticate under the key and stream header.
    Auth,
    /// The descriptor in front of the container is not the sealed one.
    Integrity,
    /// The key does not have the length the cipher needs.
    Key,
    /// The cipher refused to seal a chunk.
    Engine,
}

} // verus!
