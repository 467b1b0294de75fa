//! A session-level pooler for database connections: a pool that leases and
//! reclaims backend connections, a decoder that frames the wire protocol from an
//! arbitrarily chunked byte stream, and the decisions of each proxied session.
use vstd::prelude::*;

pub mod errors;
pub mod pool;
pub mod session;
pub mod wire;

verus! {

} // verus!
