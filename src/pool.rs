use vstd::prelude::*;

use crate::errors::ConnectionPoolerError;

verus! {

/// Where a backend connection stands in its life.
#[derive(Debug, Clone, Copy, PartialEq, Eq, Structural)]
pub enum ConnState {
    /// Held by the pool, free to be leased.
    Idle,
    /// Leased to one session.
    Active,
    /// Unusable: closed when released, never leased again.
    Broken,
}

/// How a session ended, as reported when it gives its connection back.
#[derive(Debug, Clone, Copy, PartialEq, Eq, Structural)]
pub enum Outcome {
    Clean,
    Broken,
}

/// A connection as seen by the contracts: its identity and its state.
pub struct ConnModel {
    pub id: u64,
    pub state: ConnState,
}

/// One transport to the backend, tagged with an identity that the pool issued.
pub struct BackendConnection<T> {
    id: u64,
    state: ConnState,
    transport: T,
}

impl<T> View for BackendConnection<T> {
    type V = ConnModel;

    closed spec fn view(&self) -> ConnModel {
        ConnModel { id: self.id, state: self.state }
    }
}

impl<T> BackendConnection<T> {
    /// The identity the pool gave this connection.
    pub fn id(&self) -> (r: u64)
        ensures
            r == self@.id,
    {
        self.id
    }

    pub fn state(&self) -> (r: ConnState)
        ensures
            r == self@.state,
    {
        self.state
    }

    /// The transport, for reading and writing.
    pub fn transport_mut(&mut self) -> (r: &mut T)
        ensures
            final(self)@ == old(self)@,
    {
        &mut self.transport
    }

    /// Marks the connection unusable; releasing it then discards it.
    pub fn mark_broken(&mut self)
        ensures
            final(self)@ == (ConnModel { id: old(self)@.id, state: ConnState::Broken }),
    {
        self.state = ConnState::Broken;
    }
}

/// The pool as seen by the contracts: the identities of its idle connections,
/// in the order they were released, and how many identities it has issued.
pub struct PoolModel {
    pub idle: Seq<u64>,
    pub issued: u64,
}

/// What leasing does to the idle identities: the last one released is handed
/// out, or nothing if none is idle and a new transport must be dialed.
pub open spec fn lease_model(idle: Seq<u64>) -> Option<(u64, Seq<u64>)> {
    if idle.len() == 0 {
        None
    } else {
        Some((idle.last(), idle.drop_last()))
    }
}

/// What an accepted release does to the idle identities: a clean connection
/// goes back, a broken one is discarded.
pub open spec fn release_model(idle: Seq<u64>, id: u64, clean: bool) -> Seq<u64> {
    if clean {
        idle.push(id)
    } else {
        idle
    }
}

/// The results of `n` leases in a row from `idle`, with no release between:
/// the identity each one gets, or `None` where it must dial.
pub open spec fn lease_many(idle: Seq<u64>, n: nat) -> Seq<Option<u64>>
    decreases n,
{
    if n == 0 {
        Seq::empty()
    } else {
        match lease_model(idle) {
            Some((id, rest)) => seq![Some(id)] + lease_many(rest, (n - 1) as nat),
            None => seq![None] + lease_many(idle, (n - 1) as nat),
        }
    }
}

/// The backend connections not leased at present, all idle.
pub struct Pool<T> {
    idle: Vec<BackendConnection<T>>,
    next_id: u64,
}

impl<T> View for Pool<T> {
    type V = PoolModel;

    closed spec fn view(&self) -> PoolModel {
        PoolModel {
            idle: self.idle@.map_values(|c: BackendConnection<T>| c.id),
            issued: self.next_id,
        }
    }
}

impl<T> Pool<T> {
    /// No entry twice, every entry issued by this pool and idle.
    pub closed spec fn well_formed(&self) -> bool {
        &&& self@.idle.no_duplicates()
        &&& forall|i: int| 0 <= i < self.idle@.len() ==> #[trigger] self.idle@[i].id < self.next_id
        &&& forall|i: int| 0 <= i < self.idle@.len() ==> #[trigger] self.idle@[i].state == ConnState::Idle
    }

    /// An empty pool.
    pub fn new() -> (r: Pool<T>)
        ensures
            r.well_formed(),
            r@.idle == Seq::<u64>::empty(),
            r@.issued == 0,
    {
        let r = Pool { idle: Vec::new(), next_id: 0 };
        assert(r@.idle =~= Seq::<u64>::empty());
        r
    }

    /// The number of idle connections.
    pub fn idle_count(&self) -> (r: usize)
        ensures
            r == self@.idle.len(),
    {
        self.idle.len()
    }

    /// Takes an idle connection out of the pool and marks it active, or returns
    /// `None` when none is idle: the caller then dials and calls `adopt`.
    pub fn lease_idle(&mut self) -> (r: Option<BackendConnection<T>>)
        requires
            old(self).well_formed(),
        ensures
            final(self).well_formed(),
            final(self)@.issued == old(self)@.issued,
            match lease_model(old(self)@.idle) {
                None => r is None && final(self)@.idle == old(self)@.idle,
                Some((id, rest)) => r is Some && r->0@ == (ConnModel {
                    id,
                    state: ConnState::Active,
                }) && final(self)@.idle == rest,
            },
    {
        let ghost before = self.idle@;
        match self.idle.pop() {
            None => None,
            Some(mut c) => {
                proof {
                    assert(self.idle@ =~= before.drop_last());
                    assert(self@.idle =~= old(self)@.idle.drop_last());
                    assert forall|i: int, j: int|
                        0 <= i < self@.idle.len() && 0 <= j < self@.idle.len() && i != j implies
                        self@.idle[i] != self@.idle[j] by {
                        assert(self@.idle[i] == old(self)@.idle[i]);
                        assert(self@.idle[j] == old(self)@.idle[j]);
                    }
                    assert(forall|i: int| 0 <= i < self.idle@.len() ==> #[trigger] self.idle@[i] == before[i]);
                }
                c.state = ConnState::Active;
                Some(c)
            },
        }
    }

    /// Gives a freshly dialed transport an identity of its own, marked active
    /// and not held by the pool. Fails only when every identity has been issued.
    pub fn adopt(&mut self, transport: T) -> (r: Result<BackendConnection<T>, ConnectionPoolerError>)
        requires
            old(self).well_formed(),
        ensures
            final(self).well_formed(),
            final(self)@.idle == old(self)@.idle,
            old(self)@.issued < u64::MAX ==> r is Ok && r->Ok_0@ == (ConnModel {
                id: old(self)@.issued,
                state: ConnState::Active,
            }) && final(self)@.issued == old(self)@.issued + 1,
            old(self)@.issued == u64::MAX ==> r == Err::<BackendConnection<T>, _>(
                ConnectionPoolerError::PoolStateError,
            ) && final(self)@ == old(self)@,
    {
        if self.next_id == u64::MAX {
            return Err(ConnectionPoolerError::PoolStateError);
        }
        let id = self.next_id;
        self.next_id = self.next_id + 1;
        Ok(BackendConnection { id, state: ConnState::Active, transport })
    }

    /// Whether a connection with identity `id` is idle in the pool.
    fn holds(&self, id: u64) -> (r: bool)
        ensures
            r == self@.idle.contains(id),
    {
        let mut i: usize = 0;
        while i < self.idle.len()
            invariant
                i <= self.idle@.len(),
                forall|j: int| 0 <= j < i ==> #[trigger] self.idle@[j].id != id,
            decreases self.idle@.len() - i,
        {
            if self.idle[i].id == id {
                assert(self@.idle[i as int] == id);
                return true;
            }
            i = i + 1;
        }
        assert forall|j: int| 0 <= j < self@.idle.len() implies self@.idle[j] != id by {
            assert(self@.idle[j] == self.idle@[j].id);
        }
        false
    }

    /// Takes a connection back. A clean one that was not marked broken becomes
    /// idle again; a broken one is closed and discarded. A connection this pool
    /// did not issue, or one already idle in it, is refused and dropped.
    pub fn release(&mut self, conn: BackendConnection<T>, outcome: Outcome) -> (r: Result<(), ConnectionPoolerError>)
        requires
            old(self).well_formed(),
        ensures
            final(self).well_formed(),
            final(self)@.issued == old(self)@.issued,
            conn@.id < old(self)@.issued && !old(self)@.idle.contains(conn@.id) ==> r is Ok
                && final(self)@.idle == release_model(
                old(self)@.idle,
                conn@.id,
                outcome == Outcome::Clean && conn@.state != ConnState::Broken,
            ),
            !(conn@.id < old(self)@.issued && !old(self)@.idle.contains(conn@.id)) ==> r == Err::<
                (),
                _,
            >(ConnectionPoolerError::PoolStateError) && final(self)@ == old(self)@,
    {
        if conn.id >= self.next_id || self.holds(conn.id) {
            return Err(ConnectionPoolerError::PoolStateError);
        }
        if outcome == Outcome::Broken || conn.state == ConnState::Broken {
            return Ok(());
        }
        let mut c = conn;
        c.state = ConnState::Idle;
        let ghost before = self.idle@;
        self.idle.push(c);
        proof {
            assert(self@.idle =~= old(self)@.idle.push(c.id));
            assert forall|i: int, j: int|
                0 <= i < self@.idle.len() && 0 <= j < self@.idle.len() && i != j implies
                self@.idle[i] != self@.idle[j] by {
                if i < before.len() && j < before.len() {
                    assert(self@.idle[i] == old(self)@.idle[i]);
                    assert(self@.idle[j] == old(self)@.idle[j]);
                } else if i < before.len() {
                    assert(self@.idle[i] == old(self)@.idle[i]);
                } else {
                    assert(self@.idle[j] == old(self)@.idle[j]);
                }
            }
            assert(forall|i: int| 0 <= i < before.len() ==> #[trigger] self.idle@[i] == before[i]);
        }
        Ok(())
    }
}

/// Releasing a connection clean and leasing again, with no release between,
/// hands back that same connection and leaves the pool as it was.
pub proof fn lemma_release_clean_then_lease(idle: Seq<u64>, id: u64)
    ensures
        lease_model(release_model(idle, id, true)) == Some((id, idle)),
{
    assert(idle.push(id).drop_last() =~= idle);
}

/// A connection released broken is not idle afterwards, so no later lease
/// hands it out; if no other connection was idle, the next lease must dial.
/// A dialed connection cannot be it either: `adopt` issues identities that
/// were never issued before.
pub proof fn lemma_broken_never_returns(idle: Seq<u64>, id: u64, n: nat)
    requires
        !idle.contains(id),
    ensures
        !release_model(idle, id, false).contains(id),
        !lease_many(release_model(idle, id, false), n).contains(Some(id)),
        idle.len() == 0 ==> lease_model(release_model(idle, id, false)) is None,
{
    lemma_lease_many_from(idle, id, n);
}

/// Leasing from a pool that does not hold `id` never yields `id`.
proof fn lemma_lease_many_from(idle: Seq<u64>, id: u64, n: nat)
    requires
        !idle.contains(id),
    ensures
        !lease_many(idle, n).contains(Some(id)),
    decreases n,
{
    if n > 0 {
        let outs = lease_many(idle, n);
        match lease_model(idle) {
            Some((x, rest)) => {
                assert(idle[idle.len() - 1] == x);
                assert(!rest.contains(id)) by {
                    if rest.contains(id) {
                        let k = choose|k: int| 0 <= k < rest.len() && rest[k] == id;
                        assert(idle[k] == id);
                    }
                }
                lemma_lease_many_from(rest, id, (n - 1) as nat);
                let tail = lease_many(rest, (n - 1) as nat);
                assert(outs =~= seq![Some(x)] + tail);
                if outs.contains(Some(id)) {
                    let k = choose|k: int| 0 <= k < outs.len() && outs[k] == Some(id);
                    assert(k > 0);
                    assert(tail[k - 1] == Some(id));
                }
            },
            None => {
                lemma_lease_many_from(idle, id, (n - 1) as nat);
                let tail = lease_many(idle, (n - 1) as nat);
                if outs.contains(Some(id)) {
                    let k = choose|k: int| 0 <= k < outs.len() && outs[k] == Some(id);
                    assert(outs[k] == tail[k - 1]);
                }
            },
        }
    }
}

/// The shape of `n` leases in a row: the idle connections, last released
/// first, then `None` for each lease that must dial.
proof fn lemma_lease_many_shape(idle: Seq<u64>, n: nat)
    requires
        n >= idle.len(),
    ensures
        lease_many(idle, n).len() == n,
        forall|i: int| 0 <= i < idle.len() ==> #[trigger] lease_many(idle, n)[i] == Some(idle[idle.len() - 1 - i]),
        forall|i: int| idle.len() <= i < n ==> #[trigger] lease_many(idle, n)[i] is None,
    decreases n,
{
    if n > 0 {
        let outs = lease_many(idle, n);
        if idle.len() > 0 {
            let rest = idle.drop_last();
            lemma_lease_many_shape(rest, (n - 1) as nat);
            let tail = lease_many(rest, (n - 1) as nat);
            assert(outs =~= seq![Some(idle.last())] + tail);
            assert forall|i: int| 0 <= i < idle.len() implies #[trigger] outs[i] == Some(idle[idle.len() - 1 - i]) by {
                if i > 0 {
                    assert(outs[i] == tail[i - 1]);
                }
            }
            assert forall|i: int| idle.len() <= i < n implies #[trigger] outs[i] is None by {
                assert(outs[i] == tail[i - 1]);
            }
        } else {
            lemma_lease_many_shape(idle, (n - 1) as nat);
            let tail = lease_many(idle, (n - 1) as nat);
            assert forall|i: int| 0 <= i < n implies #[trigger] outs[i] is None by {
                if i > 0 {
                    assert(outs[i] == tail[i - 1]);
                }
            }
        }
    }
}

/// `n` leases against a pool of `m < n` idle connections: the first `m` reuse
/// every idle connection once, the other `n - m` must dial, and no connection
/// goes to two callers.
pub proof fn lemma_concurrent_leases(idle: Seq<u64>, n: nat)
    requires
        idle.no_duplicates(),
        n > idle.len(),
    ensures
        lease_many(idle, n).len() == n,
        forall|i: int| 0 <= i < idle.len() ==> #[trigger] lease_many(idle, n)[i] is Some,
        forall|i: int| idle.len() <= i < n ==> #[trigger] lease_many(idle, n)[i] is None,
        forall|k: int| 0 <= k < idle.len() ==> lease_many(idle, n).contains(Some(#[trigger] idle[k])),
        forall|i: int, j: int|
            0 <= i < n && 0 <= j < n && i != j && lease_many(idle, n)[i] is Some
                ==> #[trigger] lease_many(idle, n)[i] != #[trigger] lease_many(idle, n)[j],
{
    lemma_lease_many_shape(idle, n);
    let outs = lease_many(idle, n);
    let m = idle.len() as int;
    assert forall|k: int| 0 <= k < m implies outs.contains(Some(#[trigger] idle[k])) by {
        assert(outs[m - 1 - k] == Some(idle[k]));
    }
    assert forall|i: int, j: int|
        0 <= i < n && 0 <= j < n && i != j && outs[i] is Some implies #[trigger] outs[i] != #[trigger] outs[j] by {
        if j < m {
            assert(idle[m - 1 - i] != idle[m - 1 - j]);
        }
    }
}

} // verus!
