use pgpooler::errors::ConnectionPoolerError;
use pgpooler::pool::{ConnState, Outcome, Pool};

#[test]
fn empty_pool_has_nothing_to_lease() {
    let mut pool: Pool<u32> = Pool::new();
    assert!(pool.lease_idle().is_none());
    assert_eq!(pool.idle_count(), 0);
}

#[test]
fn adopt_issues_fresh_active_connections() {
    let mut pool: Pool<u32> = Pool::new();
    let a = pool.adopt(10).unwrap();
    let b = pool.adopt(20).unwrap();
    assert_eq!(a.id(), 0);
    assert_eq!(b.id(), 1);
    assert_eq!(a.state(), ConnState::Active);
    assert_eq!(pool.idle_count(), 0);
}

#[test]
fn clean_release_then_lease_returns_same_connection() {
    let mut pool: Pool<u32> = Pool::new();
    let mut c = pool.adopt(7).unwrap();
    assert_eq!(*c.transport_mut(), 7);
    let id = c.id();
    pool.release(c, Outcome::Clean).unwrap();
    assert_eq!(pool.idle_count(), 1);
    let mut again = pool.lease_idle().unwrap();
    assert_eq!(again.id(), id);
    assert_eq!(again.state(), ConnState::Active);
    assert_eq!(*again.transport_mut(), 7);
    assert_eq!(pool.idle_count(), 0);
}

#[test]
fn broken_release_discards_connection() {
    let mut pool: Pool<u32> = Pool::new();
    let c = pool.adopt(7).unwrap();
    let id = c.id();
    pool.release(c, Outcome::Broken).unwrap();
    assert_eq!(pool.idle_count(), 0);
    assert!(pool.lease_idle().is_none());
    let fresh = pool.adopt(8).unwrap();
    assert_ne!(fresh.id(), id);
}

#[test]
fn marked_broken_is_discarded_even_on_clean_release() {
    let mut pool: Pool<u32> = Pool::new();
    let mut c = pool.adopt(7).unwrap();
    c.mark_broken();
    assert_eq!(c.state(), ConnState::Broken);
    pool.release(c, Outcome::Clean).unwrap();
    assert_eq!(pool.idle_count(), 0);
}

#[test]
fn leases_beyond_idle_count_must_dial() {
    let mut pool: Pool<u32> = Pool::new();
    let a = pool.adopt(1).unwrap();
    let b = pool.adopt(2).unwrap();
    pool.release(a, Outcome::Clean).unwrap();
    pool.release(b, Outcome::Clean).unwrap();
    let first = pool.lease_idle().unwrap();
    let second = pool.lease_idle().unwrap();
    assert!(pool.lease_idle().is_none());
    assert_eq!(first.id(), 1);
    assert_eq!(second.id(), 0);
    let dialed = pool.adopt(3).unwrap();
    assert_eq!(dialed.id(), 2);
}

#[test]
fn release_of_unknown_connection_is_refused() {
    let mut other: Pool<u32> = Pool::new();
    let _ = other.adopt(1).unwrap();
    let stranger = other.adopt(2).unwrap();
    let mut pool: Pool<u32> = Pool::new();
    assert_eq!(pool.release(stranger, Outcome::Clean).unwrap_err(), ConnectionPoolerError::PoolStateError);
    assert_eq!(pool.idle_count(), 0);
}

#[test]
fn release_of_idle_identity_is_refused() {
    let mut pool: Pool<u32> = Pool::new();
    let a = pool.adopt(1).unwrap();
    pool.release(a, Outcome::Clean).unwrap();
    let mut other: Pool<u32> = Pool::new();
    let twin = other.adopt(9).unwrap();
    assert_eq!(twin.id(), 0);
    assert_eq!(pool.release(twin, Outcome::Clean).unwrap_err(), ConnectionPoolerError::PoolStateError);
    assert_eq!(pool.idle_count(), 1);
}
