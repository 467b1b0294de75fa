use vstd::prelude::*;

verus! {

/// The kinds of failure the pooler distinguishes.
#[derive(Debug, Clone, Copy, PartialEq, Eq, Structural)]
pub enum ConnectionPoolerError {
    /// An accept, dial, read or write on a transport failed.
    IoError,
    /// A frame header carries a length field below four, which cannot count
    /// its own four bytes.
    DecodeError,
    /// A connection was released that the pool does not know as leased.
    PoolStateError,
}

} // verus!
