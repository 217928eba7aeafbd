//! The cluster configuration: the root object of the harness. It composes the
//! naming registry, the persistence continuity manager, the network topology
//! state, the server lifecycle slots, the client sessions and the test
//! metrics, and exposes the operations a test author drives.

use vstd::prelude::*;

use crate::clock;
use crate::errors::Error;
use crate::ids::IdSource;
use crate::network::Network;
use crate::persist;
use crate::persist::Persister;
use crate::shuffling;

verus! {

/// One live simulated server: the pair of consensus and service actors for a
/// peer index. The ghost fields record the durable bytes the instance was
/// constructed with.
pub struct ServerSlot {
    pub index: usize,
    pub init_state: Ghost<Seq<u8>>,
    pub init_snapshot: Ghost<Seq<u8>>,
}

/// The bookkeeping for one client session: its name and its private endpoint
/// names, one per server index, in index order.
pub struct ClerkEntry {
    pub name: u64,
    pub endnames: Vec<u64>,
}

/// A client session handle: its name and its endpoint names in the session's
/// own shuffled preference order.
pub struct Clerk {
    pub name: u64,
    pub ends: Vec<u64>,
}

/// The statistics reported at the end of a test phase.
pub struct EndStats {
    pub elapsed_millis: u128,
    pub npeers: usize,
    pub nrpc: usize,
    pub nops: usize,
}

/// The root harness object.
pub struct Config {
    pub net: Network,
    pub n: usize,
    pub ids: IdSource,
    pub kvservers: Vec<Option<ServerSlot>>,
    pub saved: Vec<Persister>,
    pub endnames: Vec<Vec<u64>>,
    pub clerks: Vec<ClerkEntry>,
    pub next_client_id: usize,
    pub maxraftstate: u64,
    pub start: std::time::Instant,
    pub t0: std::time::Instant,
    pub rpcs0: usize,
    pub ops: usize,
}

impl Config {
    /// The outgoing endpoint name from server `i` to server `j`.
    pub open spec fn sname(self, i: int, j: int) -> u64 {
        self.endnames@[i]@[j]
    }

    /// The endpoint name of clerk record `c` toward server `j`.
    pub open spec fn cname(self, c: int, j: int) -> u64 {
        self.clerks@[c].endnames@[j]
    }

    /// Whether row `i` of the endpoint-name matrix is populated.
    pub open spec fn row_full(self, i: int) -> bool {
        self.endnames@[i]@.len() == self.n
    }

    /// Whether every row of the endpoint-name matrix is populated.
    pub open spec fn fully_named(self) -> bool {
        forall|i: int| 0 <= i < self.n ==> self.row_full(i)
    }

    /// Whether a server slot is currently live at index `i`.
    pub open spec fn live(self, i: int) -> bool {
        self.kvservers@[i] is Some
    }

    /// Whether the directed link from server `i` to server `j` is enabled.
    pub open spec fn link_on(self, i: int, j: int) -> bool {
        self.net.enabled_of(self.sname(i, j))
    }

    /// Whether the link from clerk record `c` to server `j` is enabled.
    pub open spec fn clerk_link(self, c: int, j: int) -> bool {
        self.net.enabled_of(self.cname(c, j))
    }

    /// Whether a clerk record of this name exists.
    pub open spec fn has_clerk(self, name: u64) -> bool {
        exists|c: int| 0 <= c < self.clerks@.len() && self.clerks@[c].name == name
    }

    /// The index of the clerk record of this name (meaningful when
    /// `has_clerk`).
    pub open spec fn clerk_idx(self, name: u64) -> int {
        choose|c: int| 0 <= c < self.clerks@.len() && self.clerks@[c].name == name
    }

    pub open spec fn dims_ok(self) -> bool {
        &&& 1 <= self.n
        &&& self.kvservers@.len() == self.n
        &&& self.saved@.len() == self.n
        &&& self.endnames@.len() == self.n
        &&& self.net.servers@.len() == self.n
    }

    pub open spec fn rows_ok(self) -> bool {
        forall|i: int|
            0 <= i < self.n ==> (#[trigger] self.endnames@[i]@.len() == self.n
                || self.endnames@[i]@.len() == 0)
    }

    /// Every populated server endpoint name is registered with the network
    /// and addressed to the right server.
    pub open spec fn server_names_reg(self) -> bool {
        forall|i: int, j: int|
            0 <= i < self.n && 0 <= j < self.n && self.row_full(i)
                ==> self.net.has_name(#[trigger] self.sname(i, j)) && self.net.target_of(
                self.sname(i, j),
            ) == Some(j as usize)
    }

    /// Distinct matrix positions hold distinct endpoint names.
    pub open spec fn server_names_distinct(self) -> bool {
        forall|i1: int, j1: int, i2: int, j2: int|
            0 <= i1 < self.n && 0 <= j1 < self.n && 0 <= i2 < self.n && 0 <= j2 < self.n
                && self.row_full(i1) && self.row_full(i2) && (i1 != i2 || j1 != j2)
                ==> #[trigger] self.sname(i1, j1) != #[trigger] self.sname(i2, j2)
    }

    pub open spec fn clerks_ok(self) -> bool {
        forall|c: int|
            0 <= c < self.clerks@.len() ==> (#[trigger] self.clerks@[c].endnames)@.len() == self.n
    }

    /// Every clerk endpoint name is registered and addressed to its server.
    pub open spec fn clerk_names_reg(self) -> bool {
        forall|c: int, j: int|
            0 <= c < self.clerks@.len() && 0 <= j < self.n ==> self.net.has_name(
                #[trigger] self.cname(c, j),
            ) && self.net.target_of(self.cname(c, j)) == Some(j as usize)
    }

    /// Distinct clerk endpoint positions hold distinct names.
    pub open spec fn clerk_names_distinct(self) -> bool {
        forall|c1: int, j1: int, c2: int, j2: int|
            0 <= c1 < self.clerks@.len() && 0 <= j1 < self.n && 0 <= c2 < self.clerks@.len() && 0
                <= j2 < self.n && (c1 != c2 || j1 != j2) ==> #[trigger] self.cname(c1, j1)
                != #[trigger] self.cname(c2, j2)
    }

    /// No clerk endpoint name collides with a server endpoint name.
    pub open spec fn cross_distinct(self) -> bool {
        forall|c: int, j: int, i: int, k: int|
            0 <= c < self.clerks@.len() && 0 <= j < self.n && 0 <= i < self.n && 0 <= k < self.n
                && self.row_full(i) ==> #[trigger] self.cname(c, j) != #[trigger] self.sname(i, k)
    }

    /// Clerk records carry pairwise distinct session names.
    pub open spec fn clerk_ids_distinct(self) -> bool {
        forall|c1: int, c2: int|
            0 <= c1 < self.clerks@.len() && 0 <= c2 < self.clerks@.len() && c1 != c2
                ==> (#[trigger] self.clerks@[c1].name) != (#[trigger] self.clerks@[c2].name)
    }

    /// Every name stored anywhere lies below the next fresh identifier.
    pub open spec fn dominated(self) -> bool {
        &&& forall|i: int, j: int|
            0 <= i < self.n && 0 <= j < self.n && self.row_full(i) ==> #[trigger] self.sname(i, j)
                < self.ids.val()
        &&& forall|c: int, j: int|
            0 <= c < self.clerks@.len() && 0 <= j < self.n ==> #[trigger] self.cname(c, j)
                < self.ids.val()
        &&& forall|c: int|
            0 <= c < self.clerks@.len() ==> (#[trigger] self.clerks@[c].name) < self.ids.val()
        &&& self.net.names_below(self.ids.val())
    }

    pub open spec fn slots_ok(self) -> bool {
        forall|i: int|
            0 <= i < self.n ==> ((#[trigger] self.kvservers@[i]) matches Some(s) ==> s.index
                == i)
    }

    /// The whole well-formedness invariant of the harness.
    pub open spec fn wf(self) -> bool {
        &&& self.dims_ok()
        &&& self.rows_ok()
        &&& self.net.wf()
        &&& self.server_names_reg()
        &&& self.server_names_distinct()
        &&& self.clerks_ok()
        &&& self.clerk_names_reg()
        &&& self.clerk_names_distinct()
        &&& self.cross_distinct()
        &&& self.clerk_ids_distinct()
        &&& self.dominated()
        &&& self.slots_ok()
        &&& self.rpcs0 <= self.net.count
    }

    /// Everything but the network is unchanged between two states.
    pub open spec fn same_core(a: Config, b: Config) -> bool {
        &&& b.n == a.n
        &&& b.ids == a.ids
        &&& b.kvservers == a.kvservers
        &&& b.saved == a.saved
        &&& b.endnames == a.endnames
        &&& b.clerks == a.clerks
        &&& b.next_client_id == a.next_client_id
        &&& b.maxraftstate == a.maxraftstate
        &&& b.start == a.start
        &&& b.t0 == a.t0
        &&& b.rpcs0 == a.rpcs0
        &&& b.ops == a.ops
    }

    /// Only enable flags of endpoints may differ between the two states.
    pub open spec fn topo_frame(a: Config, b: Config) -> bool {
        &&& Config::same_core(a, b)
        &&& b.net.servers == a.net.servers
        &&& b.net.count == a.net.count
        &&& b.net.reliable == a.net.reliable
        &&& b.net.clients@.len() == a.net.clients@.len()
        &&& forall|k: int|
            0 <= k < a.net.clients@.len() ==> (#[trigger] b.net.clients@[k]).name
                == a.net.clients@[k].name && b.net.clients@[k].target == a.net.clients@[k].target
        &&& forall|m: u64| #![trigger b.net.has_name(m)] b.net.has_name(m) == a.net.has_name(m)
        &&& forall|m: u64| #![trigger b.net.target_of(m)] b.net.target_of(m) == a.net.target_of(m)
    }

    /// The structural well-formedness clauses that do not depend on the
    /// enable flags, re-established on the second of two states whose name
    /// structure agrees.
    pub proof fn lemma_wf_structure(a: Config, b: Config)
        requires
            a.wf(),
            b.n == a.n,
            b.ids == a.ids,
            b.kvservers@.len() == a.kvservers@.len(),
            b.slots_ok(),
            b.endnames == a.endnames,
            b.clerks == a.clerks,
            b.saved@.len() == a.saved@.len(),
            b.net.servers@.len() == a.net.servers@.len(),
            b.rpcs0 <= b.net.count,
            b.net.wf(),
            forall|m: u64| #![trigger b.net.has_name(m)] b.net.has_name(m) == a.net.has_name(m),
            forall|m: u64| #![trigger b.net.target_of(m)] b.net.target_of(m) == a.net.target_of(m),
            b.net.names_below(b.ids.val()),
        ensures
            b.wf(),
    {
        assert(b.dims_ok());
        assert forall|i: int| 0 <= i < b.n implies (#[trigger] b.endnames@[i]@.len() == b.n
            || b.endnames@[i]@.len() == 0) by {
            assert(a.endnames@[i]@.len() == a.n || a.endnames@[i]@.len() == 0);
        }
        assert forall|i: int, j: int|
            0 <= i < b.n && 0 <= j < b.n && b.row_full(i) implies b.net.has_name(
            #[trigger] b.sname(i, j),
        ) && b.net.target_of(b.sname(i, j)) == Some(j as usize) by {
            assert(b.sname(i, j) == a.sname(i, j));
            assert(a.net.has_name(a.sname(i, j)));
            assert(a.net.target_of(a.sname(i, j)) == Some(j as usize));
        }
        assert forall|i1: int, j1: int, i2: int, j2: int|
            0 <= i1 < b.n && 0 <= j1 < b.n && 0 <= i2 < b.n && 0 <= j2 < b.n && b.row_full(i1)
                && b.row_full(i2) && (i1 != i2 || j1 != j2) implies #[trigger] b.sname(i1, j1)
            != #[trigger] b.sname(i2, j2) by {
            assert(a.sname(i1, j1) != a.sname(i2, j2));
        }
        assert forall|c: int| 0 <= c < b.clerks@.len() implies (
        #[trigger] b.clerks@[c].endnames)@.len() == b.n by {
            assert(a.clerks@[c].endnames@.len() == a.n);
        }
        assert forall|c: int, j: int|
            0 <= c < b.clerks@.len() && 0 <= j < b.n implies b.net.has_name(
            #[trigger] b.cname(c, j),
        ) && b.net.target_of(b.cname(c, j)) == Some(j as usize) by {
            assert(b.cname(c, j) == a.cname(c, j));
            assert(a.net.has_name(a.cname(c, j)));
            assert(a.net.target_of(a.cname(c, j)) == Some(j as usize));
        }
        assert forall|c1: int, j1: int, c2: int, j2: int|
            0 <= c1 < b.clerks@.len() && 0 <= j1 < b.n && 0 <= c2 < b.clerks@.len() && 0 <= j2
                < b.n && (c1 != c2 || j1 != j2) implies #[trigger] b.cname(c1, j1)
            != #[trigger] b.cname(c2, j2) by {
            assert(a.cname(c1, j1) != a.cname(c2, j2));
        }
        assert forall|c: int, j: int, i: int, k: int|
            0 <= c < b.clerks@.len() && 0 <= j < b.n && 0 <= i < b.n && 0 <= k < b.n
                && b.row_full(i) implies #[trigger] b.cname(c, j) != #[trigger] b.sname(i, k) by {
            assert(a.cname(c, j) != a.sname(i, k));
        }
        assert forall|c1: int, c2: int|
            0 <= c1 < b.clerks@.len() && 0 <= c2 < b.clerks@.len() && c1 != c2 implies (
        #[trigger] b.clerks@[c1].name) != (#[trigger] b.clerks@[c2].name) by {
            assert(a.clerks@[c1].name != a.clerks@[c2].name);
        }
        assert forall|i: int, j: int|
            0 <= i < b.n && 0 <= j < b.n && b.row_full(i) implies #[trigger] b.sname(i, j)
            < b.ids.val() by {
            assert(a.sname(i, j) < a.ids.val());
        }
        assert forall|c: int, j: int|
            0 <= c < b.clerks@.len() && 0 <= j < b.n implies #[trigger] b.cname(c, j)
            < b.ids.val() by {
            assert(a.cname(c, j) < a.ids.val());
        }
        assert forall|c: int| 0 <= c < b.clerks@.len() implies (#[trigger] b.clerks@[c].name)
            < b.ids.val() by {
            assert(a.clerks@[c].name < a.ids.val());
        }
    }

    /// A state differing only in enable flags and administrative counters
    /// from a well-formed state is well-formed.
    pub proof fn lemma_topo_frame_wf(a: Config, b: Config)
        requires
            a.wf(),
            Config::topo_frame(a, b),
            b.net.wf(),
        ensures
            b.wf(),
    {
        assert(b.net.names_below(b.ids.val())) by {
            assert forall|k: int| 0 <= k < b.net.clients@.len() implies (
            #[trigger] b.net.clients@[k]).name < b.ids.val() by {
                assert(a.net.clients@[k].name < a.ids.val());
            }
        }
        assert forall|i: int|
            0 <= i < b.n implies ((#[trigger] b.kvservers@[i]) matches Some(s) ==> s.index
            == i) by {
            assert(b.kvservers@[i] == a.kvservers@[i]);
        }
        Config::lemma_wf_structure(a, b);
    }

    /// A state with the same endpoint entries, name structure and bounds as a
    /// well-formed state is well-formed.
    pub proof fn lemma_wf_same_clients(a: Config, b: Config)
        requires
            a.wf(),
            b.n == a.n,
            b.ids == a.ids,
            b.kvservers == a.kvservers,
            b.endnames == a.endnames,
            b.clerks == a.clerks,
            b.saved@.len() == a.saved@.len(),
            b.net.servers@.len() == a.net.servers@.len(),
            b.net.clients == a.net.clients,
            b.rpcs0 <= b.net.count,
        ensures
            b.wf(),
    {
        Network::lemma_same_clients(a.net, b.net);
        assert forall|i: int|
            0 <= i < b.n implies ((#[trigger] b.kvservers@[i]) matches Some(s) ==> s.index
            == i) by {
            assert(b.kvservers@[i] == a.kvservers@[i]);
        }
        Config::lemma_wf_structure(a, b);
    }

    /// The indices of every peer, in order.
    pub fn all(&self) -> (r: Vec<usize>)
        ensures
            r@.len() == self.n,
            forall|k: int| 0 <= k < self.n ==> r@[k] == k,
    {
        let mut r: Vec<usize> = Vec::new();
        let mut i: usize = 0;
        while i < self.n
            invariant
                i <= self.n,
                r@.len() == i,
                forall|k: int| 0 <= k < i ==> r@[k] == k,
            decreases self.n - i,
        {
            r.push(i);
            i = i + 1;
        }
        r
    }

    /// The total number of messages the network has carried so far.
    pub fn rpc_total(&self) -> (r: usize)
        ensures
            r == self.net.count,
    {
        self.net.total_count()
    }

    /// Records one completed client operation.
    pub fn op(&mut self)
        requires
            old(self).ops < usize::MAX,
        ensures
            final(self).ops == old(self).ops + 1,
            final(self).net == old(self).net,
            final(self).n == old(self).n,
            final(self).ids == old(self).ids,
            final(self).kvservers == old(self).kvservers,
            final(self).saved == old(self).saved,
            final(self).endnames == old(self).endnames,
            final(self).clerks == old(self).clerks,
            final(self).rpcs0 == old(self).rpcs0,
            old(self).wf() ==> final(self).wf(),
    {
        self.ops = self.ops + 1;
        proof {
            if old(self).wf() {
                Config::lemma_wf_same_clients(*old(self), *self);
            }
        }
    }

    /// Records one sent message on behalf of the delivery simulator.
    pub fn record_rpc(&mut self)
        requires
            old(self).net.count < usize::MAX,
        ensures
            final(self).net.count == old(self).net.count + 1,
            final(self).net.clients == old(self).net.clients,
            final(self).net.servers == old(self).net.servers,
            final(self).n == old(self).n,
            final(self).ids == old(self).ids,
            final(self).kvservers == old(self).kvservers,
            final(self).saved == old(self).saved,
            final(self).endnames == old(self).endnames,
            final(self).clerks == old(self).clerks,
            final(self).rpcs0 == old(self).rpcs0,
            final(self).ops == old(self).ops,
            old(self).wf() ==> final(self).wf(),
    {
        self.net.record_rpc();
        proof {
            if old(self).wf() {
                Config::lemma_wf_same_clients(*old(self), *self);
            }
        }
    }

    /// Durably saves log-state and snapshot bytes for peer `i`, as the live
    /// server instance does through its persisted-state handle.
    pub fn persist(&mut self, i: usize, state: Vec<u8>, snapshot: Vec<u8>)
        requires
            i < old(self).saved@.len(),
        ensures
            final(self).saved@[i as int].state@ == state@,
            final(self).saved@[i as int].snapshot@ == snapshot@,
            final(self).saved@.len() == old(self).saved@.len(),
            forall|k: int|
                0 <= k < old(self).saved@.len() && k != i ==> final(self).saved@[k]
                    == old(self).saved@[k],
            final(self).net == old(self).net,
            final(self).n == old(self).n,
            final(self).ids == old(self).ids,
            final(self).kvservers == old(self).kvservers,
            final(self).endnames == old(self).endnames,
            final(self).clerks == old(self).clerks,
            final(self).rpcs0 == old(self).rpcs0,
            final(self).ops == old(self).ops,
            old(self).wf() ==> final(self).wf(),
    {
        let mut p = Persister::new();
        p.save_state_and_snapshot(state, snapshot);
        self.saved[i] = p;
        proof {
            if old(self).wf() {
                Config::lemma_wf_same_clients(*old(self), *self);
            }
        }
    }

    /// The current durable log-state bytes of peer `i`.
    pub fn raft_state(&self, i: usize) -> (r: &Vec<u8>)
        requires
            i < self.saved@.len(),
        ensures
            r@ == self.saved@[i as int].state@,
    {
        self.saved[i].raft_state()
    }

    /// The current durable snapshot bytes of peer `i`.
    pub fn snapshot(&self, i: usize) -> (r: &Vec<u8>)
        requires
            i < self.saved@.len(),
        ensures
            r@ == self.saved@[i as int].snapshot@,
    {
        self.saved[i].snapshot()
    }

    /// The maximum durable log-state size across all peers, whether their
    /// servers are live or down.
    pub fn log_size(&self) -> (r: usize)
        ensures
            forall|k: int| 0 <= k < self.saved@.len() ==> self.saved@[k].state@.len() <= r,
            r == 0 || exists|k: int|
                0 <= k < self.saved@.len() && self.saved@[k].state@.len() == r,
    {
        let mut logsize: usize = 0;
        let mut k: usize = 0;
        while k < self.saved.len()
            invariant
                k <= self.saved@.len(),
                forall|t: int| 0 <= t < k ==> self.saved@[t].state@.len() <= logsize,
                logsize == 0 || exists|t: int|
                    0 <= t < k && self.saved@[t].state@.len() == logsize,
            decreases self.saved@.len() - k,
        {
            let len = self.saved[k].raft_state().len();
            if len > logsize {
                logsize = len;
            }
            k = k + 1;
        }
        logsize
    }

    /// The maximum durable snapshot size across all peers.
    pub fn snapshot_size(&self) -> (r: usize)
        ensures
            forall|k: int| 0 <= k < self.saved@.len() ==> self.saved@[k].snapshot@.len() <= r,
            r == 0 || exists|k: int|
                0 <= k < self.saved@.len() && self.saved@[k].snapshot@.len() == r,
    {
        let mut snapshotsize: usize = 0;
        let mut k: usize = 0;
        while k < self.saved.len()
            invariant
                k <= self.saved@.len(),
                forall|t: int| 0 <= t < k ==> self.saved@[t].snapshot@.len() <= snapshotsize,
                snapshotsize == 0 || exists|t: int|
                    0 <= t < k && self.saved@[t].snapshot@.len() == snapshotsize,
            decreases self.saved@.len() - k,
        {
            let len = self.saved[k].snapshot().len();
            if len > snapshotsize {
                snapshotsize = len;
            }
            k = k + 1;
        }
        snapshotsize
    }

    /// Scans the live server slots in index order and returns the first whose
    /// consensus actor reports itself leader; `reports[i]` is that actor's
    /// answer for peer `i`. With no live slot reporting leadership, the
    /// transient `NoLeader` error is returned, never a panic.
    pub fn leader(&self, reports: &Vec<bool>) -> (r: Result<usize, Error>)
        requires
            self.kvservers@.len() == self.n,
            reports@.len() == self.n,
        ensures
            (r is Ok) == exists|i: int| 0 <= i < self.n && self.live(i) && reports@[i],
            r matches Ok(i) ==> 0 <= i < self.n && self.live(i as int) && reports@[i as int]
                && forall|k: int| 0 <= k < i ==> !(self.live(k) && reports@[k]),
            r matches Err(e) ==> e == Error::NoLeader,
    {
        let mut i: usize = 0;
        while i < self.n
            invariant
                i <= self.n,
                self.kvservers@.len() == self.n,
                reports@.len() == self.n,
                forall|k: int| 0 <= k < i ==> !(self.live(k) && reports@[k]),
            decreases self.n - i,
        {
            if self.kvservers[i].is_some() && reports[i] {
                proof {
                    assert(self.live(i as int) && reports@[i as int]);
                }
                return Ok(i);
            }
            i = i + 1;
        }
        Err(Error::NoLeader)
    }
}


/// Whether the unordered pair `(a, b)` is one of the links the operation
/// `connect(i, to)` or `disconnect(i, to)` addresses.
pub open spec fn pair_touched(i: int, to: Seq<usize>, a: int, b: int) -> bool {
    (a == i && to.contains(b as usize)) || (b == i && to.contains(a as usize))
}

/// Whether endpoint name `x` is among the first `t1` outgoing and first `t2`
/// incoming names that `connect(i, to)` enables.
pub open spec fn conn_hit(pre: Config, i: int, to: Seq<usize>, x: u64, t1: int, t2: int) -> bool {
    (exists|t: int| 0 <= t < t1 && x == pre.sname(i, (#[trigger] to[t]) as int)) || (exists|t: int|
        0 <= t < t2 && x == pre.sname((#[trigger] to[t]) as int, i))
}

/// Whether endpoint name `x` is among the first `t1` outgoing and first `t2`
/// incoming names that `disconnect(i, to)` disables; rows that are not
/// populated are skipped.
pub open spec fn disc_hit(pre: Config, i: int, to: Seq<usize>, x: u64, t1: int, t2: int) -> bool {
    (pre.row_full(i) && exists|t: int|
        0 <= t < t1 && x == pre.sname(i, (#[trigger] to[t]) as int)) || (exists|t: int|
        0 <= t < t2 && pre.row_full(to[t] as int) && x == pre.sname((#[trigger] to[t]) as int, i))
}

impl Config {
    /// Attaches server `i` to the servers listed in `to`: enables the
    /// outgoing link from `i` to each of them and the link back from each of
    /// them to `i`. Idempotent; every other link keeps its state.
    pub fn connect(&mut self, i: usize, to: &Vec<usize>)
        requires
            old(self).wf(),
            i < old(self).n,
            old(self).row_full(i as int),
            forall|t: int|
                0 <= t < to@.len() ==> (#[trigger] to@[t]) < old(self).n && old(self).row_full(
                    to@[t] as int,
                ),
        ensures
            final(self).wf(),
            Config::topo_frame(*old(self), *final(self)),
            forall|a: int, b: int|
                #![trigger final(self).link_on(a, b)]
                0 <= a < old(self).n && 0 <= b < old(self).n && old(self).row_full(a) ==> final(self).link_on(a, b) == (old(self).link_on(a, b) || pair_touched(i as int, to@, a, b)),
            forall|c: int, j: int|
                #![trigger final(self).clerk_link(c, j)]
                0 <= c < old(self).clerks@.len() && 0 <= j < old(self).n ==> final(self).clerk_link(
                    c,
                    j,
                ) == old(self).clerk_link(c, j),
    {
        let ghost pre = *self;
        let mut m: usize = 0;
        while m < to.len()
            invariant
                pre == *old(self),
                pre.wf(),
                i < pre.n,
                pre.row_full(i as int),
                forall|t: int|
                    0 <= t < to@.len() ==> (#[trigger] to@[t]) < pre.n && pre.row_full(
                        to@[t] as int,
                    ),
                m <= to@.len(),
                Config::same_core(pre, *self),
                self.net.wf(),
                self.net.servers == pre.net.servers,
                self.net.count == pre.net.count,
                self.net.reliable == pre.net.reliable,
                self.net.clients@.len() == pre.net.clients@.len(),
                forall|k: int|
                    0 <= k < pre.net.clients@.len() ==> (#[trigger] self.net.clients@[k]).name
                        == pre.net.clients@[k].name && self.net.clients@[k].target
                        == pre.net.clients@[k].target,
                forall|x: u64| #![trigger self.net.has_name(x)]
                    self.net.has_name(x) == pre.net.has_name(x),
                forall|x: u64| #![trigger self.net.target_of(x)]
                    self.net.target_of(x) == pre.net.target_of(x),
                forall|x: u64| #![trigger self.net.enabled_of(x)]
                    self.net.enabled_of(x) == (pre.net.enabled_of(x) || conn_hit(
                        pre,
                        i as int,
                        to@,
                        x,
                        m as int,
                        0,
                    )),
            decreases to@.len() - m,
        {
            let j = to[m];
            let nm = self.endnames[i][j];
            proof {
                assert(nm == pre.sname(i as int, to@[m as int] as int));
                assert(pre.net.has_name(nm));
            }
            self.net.enable(nm, true);
            proof {
                assert forall|x: u64| #![trigger self.net.enabled_of(x)]
                    self.net.enabled_of(x) == (pre.net.enabled_of(x) || conn_hit(
                        pre,
                        i as int,
                        to@,
                        x,
                        m + 1,
                        0,
                    )) by {
                    if x == nm {
                        assert(self.net.enabled_of(x));
                        assert(0 <= m < m + 1 && x == pre.sname(
                            i as int,
                            (to@[m as int]) as int,
                        ));
                        assert(conn_hit(pre, i as int, to@, x, m + 1, 0));
                    } else {
                        if conn_hit(pre, i as int, to@, x, m + 1, 0) {
                            let t = choose|t: int|
                                0 <= t < m + 1 && x == pre.sname(i as int, (to@[t]) as int);
                            assert(t < m);
                            assert(conn_hit(pre, i as int, to@, x, m as int, 0));
                        }
                    }
                }
            }
            m = m + 1;
        }
        let mut m2: usize = 0;
        while m2 < to.len()
            invariant
                pre == *old(self),
                pre.wf(),
                i < pre.n,
                pre.row_full(i as int),
                forall|t: int|
                    0 <= t < to@.len() ==> (#[trigger] to@[t]) < pre.n && pre.row_full(
                        to@[t] as int,
                    ),
                m2 <= to@.len(),
                Config::same_core(pre, *self),
                self.net.wf(),
                self.net.servers == pre.net.servers,
                self.net.count == pre.net.count,
                self.net.reliable == pre.net.reliable,
                self.net.clients@.len() == pre.net.clients@.len(),
                forall|k: int|
                    0 <= k < pre.net.clients@.len() ==> (#[trigger] self.net.clients@[k]).name
                        == pre.net.clients@[k].name && self.net.clients@[k].target
                        == pre.net.clients@[k].target,
                forall|x: u64| #![trigger self.net.has_name(x)]
                    self.net.has_name(x) == pre.net.has_name(x),
                forall|x: u64| #![trigger self.net.target_of(x)]
                    self.net.target_of(x) == pre.net.target_of(x),
                forall|x: u64| #![trigger self.net.enabled_of(x)]
                    self.net.enabled_of(x) == (pre.net.enabled_of(x) || conn_hit(
                        pre,
                        i as int,
                        to@,
                        x,
                        to@.len() as int,
                        m2 as int,
                    )),
            decreases to@.len() - m2,
        {
            let j = to[m2];
            let nm = self.endnames[j][i];
            proof {
                assert(nm == pre.sname(to@[m2 as int] as int, i as int));
                assert(pre.net.has_name(nm));
            }
            self.net.enable(nm, true);
            proof {
                assert forall|x: u64| #![trigger self.net.enabled_of(x)]
                    self.net.enabled_of(x) == (pre.net.enabled_of(x) || conn_hit(
                        pre,
                        i as int,
                        to@,
                        x,
                        to@.len() as int,
                        m2 + 1,
                    )) by {
                    if x == nm {
                        assert(self.net.enabled_of(x));
                        assert(0 <= m2 < m2 + 1 && x == pre.sname(
                            (to@[m2 as int]) as int,
                            i as int,
                        ));
                        assert(conn_hit(pre, i as int, to@, x, to@.len() as int, m2 + 1));
                    } else {
                        if conn_hit(pre, i as int, to@, x, to@.len() as int, m2 + 1) {
                            if !conn_hit(pre, i as int, to@, x, to@.len() as int, m2 as int) {
                                let t = choose|t: int|
                                    0 <= t < m2 + 1 && x == pre.sname((to@[t]) as int, i as int);
                                assert(t < m2);
                            }
                        }
                    }
                }
            }
            m2 = m2 + 1;
        }
        proof {
            Config::lemma_topo_frame_wf(pre, *self);
            let fin = *self;
            assert forall|a: int, b: int|
                #![trigger fin.link_on(a, b)]
                0 <= a < pre.n && 0 <= b < pre.n && pre.row_full(a) implies fin.link_on(a, b) == (
            pre.link_on(a, b) || pair_touched(i as int, to@, a, b)) by {
                let x = pre.sname(a, b);
                assert(fin.sname(a, b) == x);
                assert(fin.net.enabled_of(x) == (pre.net.enabled_of(x) || conn_hit(
                    pre,
                    i as int,
                    to@,
                    x,
                    to@.len() as int,
                    to@.len() as int,
                )));
                if conn_hit(pre, i as int, to@, x, to@.len() as int, to@.len() as int) {
                    if exists|t: int|
                        0 <= t < to@.len() && x == pre.sname(i as int, (to@[t]) as int) {
                        let t = choose|t: int|
                            0 <= t < to@.len() && x == pre.sname(i as int, (to@[t]) as int);
                        assert(a == i as int && b == to@[t] as int);
                        assert(to@.contains(to@[t]));
                        assert(pair_touched(i as int, to@, a, b));
                    } else {
                        let t = choose|t: int|
                            0 <= t < to@.len() && x == pre.sname((to@[t]) as int, i as int);
                        assert(b == i as int && a == to@[t] as int);
                        assert(to@.contains(to@[t]));
                        assert(pair_touched(i as int, to@, a, b));
                    }
                }
                if pair_touched(i as int, to@, a, b) {
                    if a == i as int && to@.contains(b as usize) {
                        let t = choose|t: int| 0 <= t < to@.len() && to@[t] == b as usize;
                        assert(x == pre.sname(i as int, (to@[t]) as int));
                        assert(conn_hit(pre, i as int, to@, x, to@.len() as int, to@.len() as int));
                    } else {
                        let t = choose|t: int| 0 <= t < to@.len() && to@[t] == a as usize;
                        assert(x == pre.sname((to@[t]) as int, i as int));
                        assert(conn_hit(pre, i as int, to@, x, to@.len() as int, to@.len() as int));
                    }
                }
            }
            assert forall|c: int, j: int|
                #![trigger fin.clerk_link(c, j)]
                0 <= c < pre.clerks@.len() && 0 <= j < pre.n implies fin.clerk_link(c, j)
                == pre.clerk_link(c, j) by {
                let x = pre.cname(c, j);
                assert(fin.cname(c, j) == x);
                if conn_hit(pre, i as int, to@, x, to@.len() as int, to@.len() as int) {
                    if exists|t: int|
                        0 <= t < to@.len() && x == pre.sname(i as int, (to@[t]) as int) {
                        let t = choose|t: int|
                            0 <= t < to@.len() && x == pre.sname(i as int, (to@[t]) as int);
                        assert(x != pre.sname(i as int, (to@[t]) as int));
                    } else {
                        let t = choose|t: int|
                            0 <= t < to@.len() && x == pre.sname((to@[t]) as int, i as int);
                        assert(x != pre.sname((to@[t]) as int, i as int));
                    }
                }
            }
        }
    }
}


impl Config {
    /// Detaches server `i` from the servers listed in `from`: disables the
    /// outgoing link from `i` to each of them and the link back from each of
    /// them to `i`. An index whose endpoint-name row is not populated (for
    /// example mid-restart) is skipped, not an error; every other link keeps
    /// its state.
    pub fn disconnect(&mut self, i: usize, from: &Vec<usize>)
        requires
            old(self).wf(),
            i < old(self).n,
            forall|t: int| 0 <= t < from@.len() ==> (#[trigger] from@[t]) < old(self).n,
        ensures
            final(self).wf(),
            Config::topo_frame(*old(self), *final(self)),
            forall|a: int, b: int|
                #![trigger final(self).link_on(a, b)]
                0 <= a < old(self).n && 0 <= b < old(self).n && old(self).row_full(a) ==> final(self).link_on(a, b) == (old(self).link_on(a, b) && !pair_touched(i as int, from@, a, b)),
            forall|c: int, j: int|
                #![trigger final(self).clerk_link(c, j)]
                0 <= c < old(self).clerks@.len() && 0 <= j < old(self).n ==> final(self).clerk_link(c, j) == old(self).clerk_link(c, j),
    {
        let ghost pre = *self;
        if self.endnames[i].len() > 0 {
            proof {
                assert(pre.row_full(i as int));
            }
            let mut m: usize = 0;
            while m < from.len()
                invariant
                    pre == *old(self),
                    pre.wf(),
                    i < pre.n,
                    pre.row_full(i as int),
                    forall|t: int| 0 <= t < from@.len() ==> (#[trigger] from@[t]) < pre.n,
                    m <= from@.len(),
                    Config::same_core(pre, *self),
                    self.net.wf(),
                    self.net.servers == pre.net.servers,
                    self.net.count == pre.net.count,
                    self.net.reliable == pre.net.reliable,
                    self.net.clients@.len() == pre.net.clients@.len(),
                    forall|k: int|
                        0 <= k < pre.net.clients@.len() ==> (#[trigger] self.net.clients@[k]).name == pre.net.clients@[k].name && self.net.clients@[k].target == pre.net.clients@[k].target,
                    forall|x: u64| #![trigger self.net.has_name(x)]
                        self.net.has_name(x) == pre.net.has_name(x),
                    forall|x: u64| #![trigger self.net.target_of(x)]
                        self.net.target_of(x) == pre.net.target_of(x),
                    forall|x: u64| #![trigger self.net.enabled_of(x)]
                        self.net.enabled_of(x) == (pre.net.enabled_of(x) && !disc_hit(pre, i as int, from@, x, m as int, 0)),
                decreases from@.len() - m,
            {
                let j = from[m];
                let nm = self.endnames[i][j];
                proof {
                    assert(nm == pre.sname(i as int, from@[m as int] as int));
                }
                self.net.enable(nm, false);
                proof {
                    assert forall|x: u64| #![trigger self.net.enabled_of(x)]
                        self.net.enabled_of(x) == (pre.net.enabled_of(x) && !disc_hit(pre, i as int, from@, x, m + 1, 0)) by {
                        if x == nm {
                            assert(!self.net.enabled_of(x));
                            assert(0 <= m < m + 1 && x == pre.sname(i as int, (from@[m as int]) as int));
                            assert(disc_hit(pre, i as int, from@, x, m + 1, 0));
                        } else {
                            if disc_hit(pre, i as int, from@, x, m + 1, 0) {
                                let t = choose|t: int|
                                    0 <= t < m + 1 && x == pre.sname(i as int, (from@[t]) as int);
                                assert(t < m);
                                assert(disc_hit(pre, i as int, from@, x, m as int, 0));
                            }
                        }
                    }
                }
                m = m + 1;
            }
        } else {
            proof {
                assert(!pre.row_full(i as int));
                assert forall|x: u64| #![trigger self.net.enabled_of(x)]
                    self.net.enabled_of(x) == (pre.net.enabled_of(x) && !disc_hit(pre, i as int, from@, x, from@.len() as int, 0)) by {
                    assert(!disc_hit(pre, i as int, from@, x, from@.len() as int, 0));
                }
            }
        }
        let mut m2: usize = 0;
        while m2 < from.len()
            invariant
                pre == *old(self),
                pre.wf(),
                i < pre.n,
                forall|t: int| 0 <= t < from@.len() ==> (#[trigger] from@[t]) < pre.n,
                m2 <= from@.len(),
                Config::same_core(pre, *self),
                self.net.wf(),
                self.net.servers == pre.net.servers,
                self.net.count == pre.net.count,
                self.net.reliable == pre.net.reliable,
                self.net.clients@.len() == pre.net.clients@.len(),
                forall|k: int|
                    0 <= k < pre.net.clients@.len() ==> (#[trigger] self.net.clients@[k]).name == pre.net.clients@[k].name && self.net.clients@[k].target == pre.net.clients@[k].target,
                forall|x: u64| #![trigger self.net.has_name(x)]
                    self.net.has_name(x) == pre.net.has_name(x),
                forall|x: u64| #![trigger self.net.target_of(x)]
                    self.net.target_of(x) == pre.net.target_of(x),
                forall|x: u64| #![trigger self.net.enabled_of(x)]
                    self.net.enabled_of(x) == (pre.net.enabled_of(x) && !disc_hit(pre, i as int, from@, x, from@.len() as int, m2 as int)),
            decreases from@.len() - m2,
        {
            let j = from[m2];
            if self.endnames[j].len() > 0 {
                proof {
                    assert(pre.row_full(from@[m2 as int] as int));
                }
                let nm = self.endnames[j][i];
                proof {
                    assert(nm == pre.sname(from@[m2 as int] as int, i as int));
                }
                self.net.enable(nm, false);
                proof {
                    assert forall|x: u64| #![trigger self.net.enabled_of(x)]
                        self.net.enabled_of(x) == (pre.net.enabled_of(x) && !disc_hit(pre, i as int, from@, x, from@.len() as int, m2 + 1)) by {
                        if x == nm {
                            assert(!self.net.enabled_of(x));
                            assert(0 <= m2 < m2 + 1 && pre.row_full(from@[m2 as int] as int) && x == pre.sname((from@[m2 as int]) as int, i as int));
                            assert(disc_hit(pre, i as int, from@, x, from@.len() as int, m2 + 1));
                        } else {
                            if disc_hit(pre, i as int, from@, x, from@.len() as int, m2 + 1) {
                                if !disc_hit(pre, i as int, from@, x, from@.len() as int, m2 as int) {
                                    let t = choose|t: int|
                                        0 <= t < m2 + 1 && pre.row_full(from@[t] as int) && x == pre.sname((from@[t]) as int, i as int);
                                    assert(t < m2);
                                }
                            }
                        }
                    }
                }
            } else {
                proof {
                    assert(!pre.row_full(from@[m2 as int] as int));
                    assert forall|x: u64| #![trigger self.net.enabled_of(x)]
                        self.net.enabled_of(x) == (pre.net.enabled_of(x) && !disc_hit(pre, i as int, from@, x, from@.len() as int, m2 + 1)) by {
                        if disc_hit(pre, i as int, from@, x, from@.len() as int, m2 + 1) {
                            if !disc_hit(pre, i as int, from@, x, from@.len() as int, m2 as int) {
                                let t = choose|t: int|
                                    0 <= t < m2 + 1 && pre.row_full(from@[t] as int) && x == pre.sname((from@[t]) as int, i as int);
                                assert(t < m2);
                            }
                        }
                    }
                }
            }
            m2 = m2 + 1;
        }
        proof {
            Config::lemma_topo_frame_wf(pre, *self);
            let fin = *self;
            assert forall|a: int, b: int|
                #![trigger fin.link_on(a, b)]
                0 <= a < pre.n && 0 <= b < pre.n && pre.row_full(a) implies fin.link_on(a, b) == (pre.link_on(a, b) && !pair_touched(i as int, from@, a, b)) by {
                let x = pre.sname(a, b);
                assert(fin.sname(a, b) == x);
                assert(fin.net.enabled_of(x) == (pre.net.enabled_of(x) && !disc_hit(pre, i as int, from@, x, from@.len() as int, from@.len() as int)));
                if disc_hit(pre, i as int, from@, x, from@.len() as int, from@.len() as int) {
                    if pre.row_full(i as int) && exists|t: int|
                        0 <= t < from@.len() && x == pre.sname(i as int, (from@[t]) as int) {
                        let t = choose|t: int|
                            0 <= t < from@.len() && x == pre.sname(i as int, (from@[t]) as int);
                        assert(a == i as int && b == from@[t] as int);
                        assert(from@.contains(from@[t]));
                        assert(pair_touched(i as int, from@, a, b));
                    } else {
                        let t = choose|t: int|
                            0 <= t < from@.len() && pre.row_full(from@[t] as int) && x == pre.sname((from@[t]) as int, i as int);
                        assert(b == i as int && a == from@[t] as int);
                        assert(from@.contains(from@[t]));
                        assert(pair_touched(i as int, from@, a, b));
                    }
                }
                if pair_touched(i as int, from@, a, b) {
                    if a == i as int && from@.contains(b as usize) {
                        let t = choose|t: int| 0 <= t < from@.len() && from@[t] == b as usize;
                        assert(x == pre.sname(i as int, (from@[t]) as int));
                        assert(pre.row_full(i as int));
                        assert(disc_hit(pre, i as int, from@, x, from@.len() as int, from@.len() as int));
                    } else {
                        let t = choose|t: int| 0 <= t < from@.len() && from@[t] == a as usize;
                        assert(pre.row_full(from@[t] as int));
                        assert(x == pre.sname((from@[t]) as int, i as int));
                        assert(disc_hit(pre, i as int, from@, x, from@.len() as int, from@.len() as int));
                    }
                }
            }
            assert forall|c: int, j: int|
                #![trigger fin.clerk_link(c, j)]
                0 <= c < pre.clerks@.len() && 0 <= j < pre.n implies fin.clerk_link(c, j) == pre.clerk_link(c, j) by {
                let x = pre.cname(c, j);
                assert(fin.cname(c, j) == x);
                if disc_hit(pre, i as int, from@, x, from@.len() as int, from@.len() as int) {
                    if pre.row_full(i as int) && exists|t: int|
                        0 <= t < from@.len() && x == pre.sname(i as int, (from@[t]) as int) {
                        let t = choose|t: int|
                            0 <= t < from@.len() && x == pre.sname(i as int, (from@[t]) as int);
                        assert(x != pre.sname(i as int, (from@[t]) as int));
                    } else {
                        let t = choose|t: int|
                            0 <= t < from@.len() && pre.row_full(from@[t] as int) && x == pre.sname((from@[t]) as int, i as int);
                        assert(x != pre.sname((from@[t]) as int, i as int));
                    }
                }
            }
        }
    }
}


/// Whether index `v` belongs to either of the two groups.
pub open spec fn in_two(p1: Seq<usize>, p2: Seq<usize>, v: int) -> bool {
    p1.contains(v as usize) || p2.contains(v as usize)
}

/// Whether the two groups share no index.
pub open spec fn seqs_disjoint(p1: Seq<usize>, p2: Seq<usize>) -> bool {
    forall|v: usize| #[trigger] p1.contains(v) ==> !p2.contains(v)
}

impl Config {
    /// Enables every link of the full mesh: afterwards every ordered pair of
    /// peers is connected.
    pub fn connect_all(&mut self)
        requires
            old(self).wf(),
            old(self).fully_named(),
        ensures
            final(self).wf(),
            Config::topo_frame(*old(self), *final(self)),
            forall|a: int, b: int|
                #![trigger final(self).link_on(a, b)]
                0 <= a < old(self).n && 0 <= b < old(self).n ==> final(self).link_on(a, b),
            forall|c: int, j: int|
                #![trigger final(self).clerk_link(c, j)]
                0 <= c < old(self).clerks@.len() && 0 <= j < old(self).n ==> final(self).clerk_link(c, j) == old(self).clerk_link(c, j),
    {
        let ghost pre = *self;
        let peers = self.all();
        let mut i: usize = 0;
        while i < self.n
            invariant
                pre == *old(self),
                pre.wf(),
                pre.fully_named(),
                peers@.len() == pre.n,
                forall|k: int| 0 <= k < pre.n ==> peers@[k] == k,
                i <= pre.n,
                self.wf(),
                Config::topo_frame(pre, *self),
                forall|a: int, b: int|
                    #![trigger self.link_on(a, b)]
                    0 <= a < i && 0 <= b < pre.n ==> self.link_on(a, b) && self.link_on(b, a),
                forall|c: int, j: int|
                    #![trigger self.clerk_link(c, j)]
                    0 <= c < pre.clerks@.len() && 0 <= j < pre.n ==> self.clerk_link(c, j) == pre.clerk_link(c, j),
            decreases self.n - i,
        {
            let ghost mid = *self;
            proof {
                assert forall|t: int| 0 <= t < peers@.len() implies (#[trigger] peers@[t]) < self.n
                    && self.row_full(peers@[t] as int) by {
                    assert(peers@[t] == t);
                    assert(pre.row_full(t));
                }
                assert(self.row_full(i as int)) by {
                    assert(pre.row_full(i as int));
                }
            }
            self.connect(i, &peers);
            proof {
                assert forall|a: int, b: int|
                    #![trigger self.link_on(a, b)]
                    0 <= a < i + 1 && 0 <= b < pre.n implies self.link_on(a, b) && self.link_on(b, a) by {
                    assert(peers@.contains(a as usize)) by {
                        assert(peers@[a] == a as usize);
                    }
                    assert(peers@.contains(b as usize)) by {
                        assert(peers@[b] == b as usize);
                    }
                    assert(mid.row_full(a)) by {
                        assert(pre.row_full(a));
                    }
                    assert(mid.row_full(b)) by {
                        assert(pre.row_full(b));
                    }
                    if a < i {
                        assert(mid.link_on(a, b) && mid.link_on(b, a));
                    } else {
                        assert(pair_touched(i as int, peers@, a, b));
                        assert(pair_touched(i as int, peers@, b, a));
                    }
                }
            }
            i = i + 1;
        }
    }

    /// Forces the two groups apart: afterwards (for disjoint groups) every
    /// link inside each group is enabled and every link between the groups is
    /// disabled, in both directions. Links with an endpoint in neither group
    /// keep their state.
    pub fn partition(&mut self, p1: &Vec<usize>, p2: &Vec<usize>)
        requires
            old(self).wf(),
            old(self).fully_named(),
            forall|t: int| 0 <= t < p1@.len() ==> (#[trigger] p1@[t]) < old(self).n,
            forall|t: int| 0 <= t < p2@.len() ==> (#[trigger] p2@[t]) < old(self).n,
        ensures
            final(self).wf(),
            Config::topo_frame(*old(self), *final(self)),
            seqs_disjoint(p1@, p2@) ==> forall|t: int, k: int|
                #![trigger p1@[t], p2@[k]]
                0 <= t < p1@.len() && 0 <= k < p2@.len() ==> !final(self).link_on(p1@[t] as int, p2@[k] as int) && !final(self).link_on(p2@[k] as int, p1@[t] as int),
            seqs_disjoint(p1@, p2@) ==> forall|t: int, k: int|
                #![trigger p1@[t], p1@[k]]
                0 <= t < p1@.len() && 0 <= k < p1@.len() ==> final(self).link_on(p1@[t] as int, p1@[k] as int),
            seqs_disjoint(p1@, p2@) ==> forall|t: int, k: int|
                #![trigger p2@[t], p2@[k]]
                0 <= t < p2@.len() && 0 <= k < p2@.len() ==> final(self).link_on(p2@[t] as int, p2@[k] as int),
            forall|a: int, b: int|
                #![trigger final(self).link_on(a, b)]
                0 <= a < old(self).n && 0 <= b < old(self).n && (!in_two(p1@, p2@, a) || !in_two(p1@, p2@, b)) ==> final(self).link_on(a, b) == old(self).link_on(a, b),
            forall|c: int, j: int|
                #![trigger final(self).clerk_link(c, j)]
                0 <= c < old(self).clerks@.len() && 0 <= j < old(self).n ==> final(self).clerk_link(c, j) == old(self).clerk_link(c, j),
    {
        let ghost pre = *self;
        let ghost dis = seqs_disjoint(p1@, p2@);
        let mut m: usize = 0;
        while m < p1.len()
            invariant
                pre == *old(self),
                pre.wf(),
                pre.fully_named(),
                dis == seqs_disjoint(p1@, p2@),
                forall|t: int| 0 <= t < p1@.len() ==> (#[trigger] p1@[t]) < pre.n,
                forall|t: int| 0 <= t < p2@.len() ==> (#[trigger] p2@[t]) < pre.n,
                m <= p1@.len(),
                self.wf(),
                Config::topo_frame(pre, *self),
                dis ==> forall|t: int, k: int|
                    #![trigger p1@[t], p2@[k]]
                    0 <= t < m && 0 <= k < p2@.len() ==> !self.link_on(p1@[t] as int, p2@[k] as int) && !self.link_on(p2@[k] as int, p1@[t] as int),
                dis ==> forall|t: int, k: int|
                    #![trigger p1@[t], p1@[k]]
                    0 <= t < m && 0 <= k < p1@.len() ==> self.link_on(p1@[t] as int, p1@[k] as int) && self.link_on(p1@[k] as int, p1@[t] as int),
                forall|a: int, b: int|
                    #![trigger self.link_on(a, b)]
                    0 <= a < pre.n && 0 <= b < pre.n && (!in_two(p1@, p2@, a) || !in_two(p1@, p2@, b)) ==> self.link_on(a, b) == pre.link_on(a, b),
                forall|c: int, j: int|
                    #![trigger self.clerk_link(c, j)]
                    0 <= c < pre.clerks@.len() && 0 <= j < pre.n ==> self.clerk_link(c, j) == pre.clerk_link(c, j),
            decreases p1@.len() - m,
        {
            let x = p1[m];
            let ghost mid0 = *self;
            proof {
                assert forall|k: int| 0 <= k < pre.n implies self.row_full(k) by {
                    assert(pre.row_full(k));
                }
                assert(p1@.contains(p1@[m as int]));
            }
            self.disconnect(x, p2);
            let ghost mid1 = *self;
            proof {
                assert forall|k: int| 0 <= k < pre.n implies self.row_full(k) by {
                    assert(pre.row_full(k));
                }
            }
            self.connect(x, p1);
            proof {
                assert forall|k: int| 0 <= k < pre.n implies mid0.row_full(k) && mid1.row_full(k) by {
                    assert(pre.row_full(k));
                }
                if dis {
                    assert(!p2@.contains(x));
                    assert forall|t: int, k: int|
                        #![trigger p1@[t], p2@[k]]
                        0 <= t < m + 1 && 0 <= k < p2@.len() implies !self.link_on(p1@[t] as int, p2@[k] as int) && !self.link_on(p2@[k] as int, p1@[t] as int) by {
                        let a = p1@[t] as int;
                        let b = p2@[k] as int;
                        assert(p1@.contains(p1@[t]));
                        assert(p2@.contains(p2@[k]));
                        assert(!p2@.contains(p1@[t]));
                        assert(!p1@.contains(p2@[k]));
                        assert(mid1.link_on(a, b) == (mid0.link_on(a, b) && !pair_touched(x as int, p2@, a, b)));
                        assert(mid1.link_on(b, a) == (mid0.link_on(b, a) && !pair_touched(x as int, p2@, b, a)));
                        assert(self.link_on(a, b) == (mid1.link_on(a, b) || pair_touched(x as int, p1@, a, b)));
                        assert(self.link_on(b, a) == (mid1.link_on(b, a) || pair_touched(x as int, p1@, b, a)));
                        if t < m {
                            assert(!mid0.link_on(a, b) && !mid0.link_on(b, a));
                            assert(!pair_touched(x as int, p1@, a, b));
                            assert(!pair_touched(x as int, p1@, b, a));
                        } else {
                            assert(a == x as int);
                            assert(pair_touched(x as int, p2@, a, b));
                            assert(pair_touched(x as int, p2@, b, a));
                            assert(!pair_touched(x as int, p1@, a, b));
                            assert(!pair_touched(x as int, p1@, b, a));
                        }
                    }
                    assert forall|t: int, k: int|
                        #![trigger p1@[t], p1@[k]]
                        0 <= t < m + 1 && 0 <= k < p1@.len() implies self.link_on(p1@[t] as int, p1@[k] as int) && self.link_on(p1@[k] as int, p1@[t] as int) by {
                        let a = p1@[t] as int;
                        let b = p1@[k] as int;
                        assert(p1@.contains(p1@[t]));
                        assert(p1@.contains(p1@[k]));
                        assert(!p2@.contains(p1@[t]));
                        assert(!p2@.contains(p1@[k]));
                        assert(mid1.link_on(a, b) == (mid0.link_on(a, b) && !pair_touched(x as int, p2@, a, b)));
                        assert(mid1.link_on(b, a) == (mid0.link_on(b, a) && !pair_touched(x as int, p2@, b, a)));
                        assert(self.link_on(a, b) == (mid1.link_on(a, b) || pair_touched(x as int, p1@, a, b)));
                        assert(self.link_on(b, a) == (mid1.link_on(b, a) || pair_touched(x as int, p1@, b, a)));
                        if t < m {
                            assert(mid0.link_on(a, b) && mid0.link_on(b, a));
                            assert(!pair_touched(x as int, p2@, a, b));
                            assert(!pair_touched(x as int, p2@, b, a));
                        } else {
                            assert(a == x as int);
                            assert(pair_touched(x as int, p1@, a, b));
                            assert(pair_touched(x as int, p1@, b, a));
                        }
                    }
                }
                assert forall|a: int, b: int|
                    #![trigger self.link_on(a, b)]
                    0 <= a < pre.n && 0 <= b < pre.n && (!in_two(p1@, p2@, a) || !in_two(p1@, p2@, b)) implies self.link_on(a, b) == pre.link_on(a, b) by {
                    assert(mid1.link_on(a, b) == (mid0.link_on(a, b) && !pair_touched(x as int, p2@, a, b)));
                    assert(self.link_on(a, b) == (mid1.link_on(a, b) || pair_touched(x as int, p1@, a, b)));
                    assert(!pair_touched(x as int, p2@, a, b));
                    assert(!pair_touched(x as int, p1@, a, b));
                }
            }
            m = m + 1;
        }
        let mut m2: usize = 0;
        while m2 < p2.len()
            invariant
                pre == *old(self),
                pre.wf(),
                pre.fully_named(),
                dis == seqs_disjoint(p1@, p2@),
                forall|t: int| 0 <= t < p1@.len() ==> (#[trigger] p1@[t]) < pre.n,
                forall|t: int| 0 <= t < p2@.len() ==> (#[trigger] p2@[t]) < pre.n,
                m2 <= p2@.len(),
                self.wf(),
                Config::topo_frame(pre, *self),
                dis ==> forall|t: int, k: int|
                    #![trigger p1@[t], p2@[k]]
                    0 <= t < p1@.len() && 0 <= k < p2@.len() ==> !self.link_on(p1@[t] as int, p2@[k] as int) && !self.link_on(p2@[k] as int, p1@[t] as int),
                dis ==> forall|t: int, k: int|
                    #![trigger p1@[t], p1@[k]]
                    0 <= t < p1@.len() && 0 <= k < p1@.len() ==> self.link_on(p1@[t] as int, p1@[k] as int) && self.link_on(p1@[k] as int, p1@[t] as int),
                dis ==> forall|t: int, k: int|
                    #![trigger p2@[t], p2@[k]]
                    0 <= t < m2 && 0 <= k < p2@.len() ==> self.link_on(p2@[t] as int, p2@[k] as int) && self.link_on(p2@[k] as int, p2@[t] as int),
                forall|a: int, b: int|
                    #![trigger self.link_on(a, b)]
                    0 <= a < pre.n && 0 <= b < pre.n && (!in_two(p1@, p2@, a) || !in_two(p1@, p2@, b)) ==> self.link_on(a, b) == pre.link_on(a, b),
                forall|c: int, j: int|
                    #![trigger self.clerk_link(c, j)]
                    0 <= c < pre.clerks@.len() && 0 <= j < pre.n ==> self.clerk_link(c, j) == pre.clerk_link(c, j),
            decreases p2@.len() - m2,
        {
            let x = p2[m2];
            let ghost mid0 = *self;
            proof {
                assert forall|k: int| 0 <= k < pre.n implies self.row_full(k) by {
                    assert(pre.row_full(k));
                }
                assert(p2@.contains(p2@[m2 as int]));
            }
            self.disconnect(x, p1);
            let ghost mid1 = *self;
            proof {
                assert forall|k: int| 0 <= k < pre.n implies self.row_full(k) by {
                    assert(pre.row_full(k));
                }
            }
            self.connect(x, p2);
            proof {
                assert forall|k: int| 0 <= k < pre.n implies mid0.row_full(k) && mid1.row_full(k) by {
                    assert(pre.row_full(k));
                }
                if dis {
                    assert(!p1@.contains(x));
                    assert forall|t: int, k: int|
                        #![trigger p1@[t], p2@[k]]
                        0 <= t < p1@.len() && 0 <= k < p2@.len() implies !self.link_on(p1@[t] as int, p2@[k] as int) && !self.link_on(p2@[k] as int, p1@[t] as int) by {
                        let a = p1@[t] as int;
                        let b = p2@[k] as int;
                        assert(p1@.contains(p1@[t]));
                        assert(p2@.contains(p2@[k]));
                        assert(!p2@.contains(p1@[t]));
                        assert(!p1@.contains(p2@[k]));
                        assert(mid1.link_on(a, b) == (mid0.link_on(a, b) && !pair_touched(x as int, p1@, a, b)));
                        assert(mid1.link_on(b, a) == (mid0.link_on(b, a) && !pair_touched(x as int, p1@, b, a)));
                        assert(self.link_on(a, b) == (mid1.link_on(a, b) || pair_touched(x as int, p2@, a, b)));
                        assert(self.link_on(b, a) == (mid1.link_on(b, a) || pair_touched(x as int, p2@, b, a)));
                        assert(!mid0.link_on(a, b) && !mid0.link_on(b, a));
                        assert(!pair_touched(x as int, p2@, a, b));
                        assert(!pair_touched(x as int, p2@, b, a));
                    }
                    assert forall|t: int, k: int|
                        #![trigger p1@[t], p1@[k]]
                        0 <= t < p1@.len() && 0 <= k < p1@.len() implies self.link_on(p1@[t] as int, p1@[k] as int) && self.link_on(p1@[k] as int, p1@[t] as int) by {
                        let a = p1@[t] as int;
                        let b = p1@[k] as int;
                        assert(p1@.contains(p1@[t]));
                        assert(p1@.contains(p1@[k]));
                        assert(!p2@.contains(p1@[t]));
                        assert(!p2@.contains(p1@[k]));
                        assert(mid1.link_on(a, b) == (mid0.link_on(a, b) && !pair_touched(x as int, p1@, a, b)));
                        assert(mid1.link_on(b, a) == (mid0.link_on(b, a) && !pair_touched(x as int, p1@, b, a)));
                        assert(self.link_on(a, b) == (mid1.link_on(a, b) || pair_touched(x as int, p2@, a, b)));
                        assert(self.link_on(b, a) == (mid1.link_on(b, a) || pair_touched(x as int, p2@, b, a)));
                        assert(mid0.link_on(a, b) && mid0.link_on(b, a));
                        assert(!pair_touched(x as int, p1@, a, b));
                        assert(!pair_touched(x as int, p1@, b, a));
                    }
                    assert forall|t: int, k: int|
                        #![trigger p2@[t], p2@[k]]
                        0 <= t < m2 + 1 && 0 <= k < p2@.len() implies self.link_on(p2@[t] as int, p2@[k] as int) && self.link_on(p2@[k] as int, p2@[t] as int) by {
                        let a = p2@[t] as int;
                        let b = p2@[k] as int;
                        assert(p2@.contains(p2@[t]));
                        assert(p2@.contains(p2@[k]));
                        assert(!p1@.contains(p2@[t]));
                        assert(!p1@.contains(p2@[k]));
                        assert(mid1.link_on(a, b) == (mid0.link_on(a, b) && !pair_touched(x as int, p1@, a, b)));
                        assert(mid1.link_on(b, a) == (mid0.link_on(b, a) && !pair_touched(x as int, p1@, b, a)));
                        assert(self.link_on(a, b) == (mid1.link_on(a, b) || pair_touched(x as int, p2@, a, b)));
                        assert(self.link_on(b, a) == (mid1.link_on(b, a) || pair_touched(x as int, p2@, b, a)));
                        if t < m2 {
                            assert(mid0.link_on(a, b) && mid0.link_on(b, a));
                            assert(!pair_touched(x as int, p1@, a, b));
                            assert(!pair_touched(x as int, p1@, b, a));
                        } else {
                            assert(a == x as int);
                            assert(pair_touched(x as int, p2@, a, b));
                            assert(pair_touched(x as int, p2@, b, a));
                        }
                    }
                }
                assert forall|a: int, b: int|
                    #![trigger self.link_on(a, b)]
                    0 <= a < pre.n && 0 <= b < pre.n && (!in_two(p1@, p2@, a) || !in_two(p1@, p2@, b)) implies self.link_on(a, b) == pre.link_on(a, b) by {
                    assert(mid1.link_on(a, b) == (mid0.link_on(a, b) && !pair_touched(x as int, p1@, a, b)));
                    assert(self.link_on(a, b) == (mid1.link_on(a, b) || pair_touched(x as int, p2@, a, b)));
                    assert(!pair_touched(x as int, p1@, a, b));
                    assert(!pair_touched(x as int, p2@, a, b));
                }
            }
            m2 = m2 + 1;
        }
    }
}


/// The `t`-th smallest peer index other than the leader `l`.
pub open spec fn nth_nonleader(l: int, t: int) -> int {
    if t < l {
        t
    } else {
        t + 1
    }
}

/// The number of non-leader indices below `i`, for leader `l`.
pub open spec fn nonleaders_below(l: int, i: int) -> int {
    if l < i {
        i - 1
    } else {
        i
    }
}

impl Config {
    /// Whether `l` is the first live slot reporting leadership, or zero when
    /// none does.
    pub open spec fn first_leader_or_zero(self, reports: Seq<bool>, l: int) -> bool {
        if exists|i: int| 0 <= i < self.n && self.live(i) && reports[i] {
            &&& 0 <= l < self.n
            &&& self.live(l)
            &&& reports[l]
            &&& forall|k: int| 0 <= k < l ==> !(self.live(k) && reports[k])
        } else {
            l == 0
        }
    }

    /// Splits the peers into two groups: the majority group gets the
    /// smallest non-leader indices until it holds half the peers rounded up,
    /// the minority group gets the remaining indices with the current leader
    /// (or peer zero, when no live slot reports leadership) appended last.
    /// The groups partition the peer indices exactly, and for two or more
    /// peers the leader's group is never the larger one.
    pub fn make_partition(&self, reports: &Vec<bool>) -> (r: (Vec<usize>, Vec<usize>))
        requires
            self.kvservers@.len() == self.n,
            reports@.len() == self.n,
            1 <= self.n,
        ensures
            r.0@.len() + r.1@.len() == self.n,
            1 <= r.1@.len(),
            forall|t: int| 0 <= t < r.0@.len() ==> (#[trigger] r.0@[t]) < self.n,
            forall|t: int| 0 <= t < r.1@.len() ==> (#[trigger] r.1@[t]) < self.n,
            forall|t1: int, t2: int|
                0 <= t1 < t2 < r.0@.len() ==> (#[trigger] r.0@[t1]) < (#[trigger] r.0@[t2]),
            forall|t1: int, t2: int|
                0 <= t1 < t2 < r.1@.len() - 1 ==> (#[trigger] r.1@[t1]) < (#[trigger] r.1@[t2]),
            seqs_disjoint(r.0@, r.1@),
            forall|v: usize| v < self.n ==> (r.0@.contains(v) || #[trigger] r.1@.contains(v)),
            2 <= self.n ==> r.0@.len() == self.n / 2 + self.n % 2,
            2 <= self.n ==> r.1@.len() <= r.0@.len(),
            exists|l: int|
                #[trigger] self.first_leader_or_zero(reports@, l) && r.1@[r.1@.len() - 1] == l,
    {
        let l: usize = match self.leader(reports) {
            Ok(i) => i,
            Err(_) => 0,
        };
        proof {
            assert(self.first_leader_or_zero(reports@, l as int));
            assert(l < self.n);
        }
        let threshold: usize = self.n / 2 + self.n % 2;
        let mut p1v: Vec<usize> = Vec::new();
        let mut p2v: Vec<usize> = Vec::new();
        let mut i: usize = 0;
        while i < self.n
            invariant
                1 <= self.n,
                l < self.n,
                threshold == self.n / 2 + self.n % 2,
                i <= self.n,
                p1v@.len() == (if nonleaders_below(l as int, i as int) <= threshold {
                    nonleaders_below(l as int, i as int)
                } else {
                    threshold as int
                }),
                p2v@.len() == nonleaders_below(l as int, i as int) - p1v@.len(),
                forall|t: int|
                    0 <= t < p1v@.len() ==> (#[trigger] p1v@[t]) as int == nth_nonleader(
                        l as int,
                        t,
                    ),
                forall|t: int|
                    0 <= t < p2v@.len() ==> (#[trigger] p2v@[t]) as int == nth_nonleader(
                        l as int,
                        threshold + t,
                    ),
            decreases self.n - i,
        {
            if i != l {
                if p1v.len() < threshold {
                    p1v.push(i);
                } else {
                    p2v.push(i);
                }
            }
            i = i + 1;
        }
        p2v.push(l);
        proof {
            let n = self.n as int;
            let li = l as int;
            let th = threshold as int;
            let c = nonleaders_below(li, n);
            assert(c == n - 1);
            assert(th <= n);
            let g1 = p1v@;
            let g2 = p2v@;
            assert(g2[g2.len() - 1] == l);
            assert forall|t1: int, t2: int|
                0 <= t1 < t2 < g1.len() implies (#[trigger] g1[t1]) < (#[trigger] g1[t2]) by {
                assert(g1[t1] as int == nth_nonleader(li, t1));
                assert(g1[t2] as int == nth_nonleader(li, t2));
            }
            assert forall|t1: int, t2: int|
                0 <= t1 < t2 < g2.len() - 1 implies (#[trigger] g2[t1]) < (#[trigger] g2[t2]) by {
                assert(g2[t1] as int == nth_nonleader(li, th + t1));
                assert(g2[t2] as int == nth_nonleader(li, th + t2));
            }
            assert forall|v: usize| v < self.n implies (g1.contains(v) || #[trigger] g2.contains(
                v,
            )) by {
                let vi = v as int;
                if vi == li {
                    assert(g2[g2.len() - 1] == v);
                    assert(g2.contains(v));
                } else {
                    let t = if vi < li {
                        vi
                    } else {
                        vi - 1
                    };
                    assert(nth_nonleader(li, t) == vi);
                    if t < g1.len() {
                        assert(g1[t] == v);
                        assert(g1.contains(v));
                    } else {
                        assert(g2[t - th] == v);
                        assert(g2.contains(v));
                    }
                }
            }
            assert forall|v: usize| #[trigger] g1.contains(v) implies !g2.contains(v) by {
                let t1 = choose|t: int| 0 <= t < g1.len() && g1[t] == v;
                assert(g1[t1] as int == nth_nonleader(li, t1));
                if g2.contains(v) {
                    let t2 = choose|t: int| 0 <= t < g2.len() && g2[t] == v;
                    if t2 < g2.len() - 1 {
                        assert(g2[t2] as int == nth_nonleader(li, th + t2));
                    } else {
                        assert(g2[t2] == l);
                        assert(nth_nonleader(li, t1) != li);
                    }
                }
            }
        }
        (p1v, p2v)
    }

    /// Shuts down the server at index `i`: isolates it from every peer,
    /// removes its inbound registration so no new message can reach it, rolls
    /// its persisted state over into a fresh container holding exactly the
    /// bytes it last saved, and kills the slot. The durable bytes visible at
    /// `i` afterwards are exactly the bytes last saved before the shutdown.
    pub fn shutdown_server(&mut self, i: usize)
        requires
            old(self).wf(),
            i < old(self).n,
        ensures
            final(self).wf(),
            final(self).n == old(self).n,
            final(self).ids == old(self).ids,
            final(self).endnames == old(self).endnames,
            final(self).clerks == old(self).clerks,
            final(self).next_client_id == old(self).next_client_id,
            final(self).maxraftstate == old(self).maxraftstate,
            final(self).start == old(self).start,
            final(self).t0 == old(self).t0,
            final(self).rpcs0 == old(self).rpcs0,
            final(self).ops == old(self).ops,
            final(self).net.count == old(self).net.count,
            final(self).net.reliable == old(self).net.reliable,
            final(self).net.servers@ == old(self).net.servers@.update(i as int, false),
            !final(self).net.server_live(i as int),
            final(self).saved@.len() == old(self).saved@.len(),
            forall|k: int|
                0 <= k < old(self).n ==> (#[trigger] final(self).saved@[k]).state@ == old(self).saved@[k].state@ && final(self).saved@[k].snapshot@ == old(self).saved@[k].snapshot@,
            final(self).kvservers@ == old(self).kvservers@.update(
                i as int,
                Option::<ServerSlot>::None,
            ),
            old(self).row_full(i as int) ==> forall|j: int|
                0 <= j < old(self).n ==> !(#[trigger] final(self).link_on(i as int, j)),
            forall|j: int|
                0 <= j < old(self).n && old(self).row_full(j) ==> !(#[trigger] final(self).link_on(j, i as int)),
            forall|a: int, b: int|
                #![trigger final(self).link_on(a, b)]
                0 <= a < old(self).n && 0 <= b < old(self).n && a != i && b != i && old(self).row_full(a) ==> final(self).link_on(a, b) == old(self).link_on(a, b),
            forall|c: int, j: int|
                #![trigger final(self).clerk_link(c, j)]
                0 <= c < old(self).clerks@.len() && 0 <= j < old(self).n ==> final(self).clerk_link(c, j) == old(self).clerk_link(c, j),
    {
        let ghost pre = *self;
        let peers = self.all();
        self.disconnect(i, &peers);
        let ghost mid = *self;
        self.net.delete_server(i);
        let rolled = persist::roll_over(&self.saved[i]);
        self.saved[i] = rolled;
        self.kvservers[i] = None;
        proof {
            let fin = *self;
            Network::lemma_same_clients(mid.net, fin.net);
            assert forall|k: int|
                0 <= k < pre.n implies ((#[trigger] fin.kvservers@[k]) matches Some(s) ==> s.index
                == k) by {
                if k != i {
                    assert(fin.kvservers@[k] == pre.kvservers@[k]);
                }
            }
            assert(fin.net.names_below(fin.ids.val()));
            Config::lemma_wf_structure(mid, fin);
            assert forall|a: int, b: int|
                #![trigger fin.link_on(a, b)]
                0 <= a < pre.n && 0 <= b < pre.n && pre.row_full(a) implies fin.link_on(a, b)
                == mid.link_on(a, b) by {
                assert(fin.sname(a, b) == mid.sname(a, b));
            }
            assert forall|c: int, j: int|
                #![trigger fin.clerk_link(c, j)]
                0 <= c < pre.clerks@.len() && 0 <= j < pre.n implies fin.clerk_link(c, j)
                == pre.clerk_link(c, j) by {
                assert(fin.cname(c, j) == mid.cname(c, j));
                assert(mid.clerk_link(c, j) == pre.clerk_link(c, j));
            }
            if pre.row_full(i as int) {
                assert forall|j: int| 0 <= j < pre.n implies !(#[trigger] fin.link_on(
                    i as int,
                    j,
                )) by {
                    assert(peers@.contains(j as usize)) by {
                        assert(peers@[j] == j as usize);
                    }
                    assert(pair_touched(i as int, peers@, i as int, j));
                    assert(!mid.link_on(i as int, j));
                }
            }
            assert forall|j: int|
                0 <= j < pre.n && pre.row_full(j) implies !(#[trigger] fin.link_on(
                j,
                i as int,
            )) by {
                assert(peers@.contains(j as usize)) by {
                    assert(peers@[j] == j as usize);
                }
                assert(pair_touched(i as int, peers@, j, i as int));
                assert(!mid.link_on(j, i as int));
            }
            assert forall|a: int, b: int|
                #![trigger fin.link_on(a, b)]
                0 <= a < pre.n && 0 <= b < pre.n && a != i && b != i && pre.row_full(
                a,
            ) implies fin.link_on(a, b) == pre.link_on(a, b) by {
                assert(!pair_touched(i as int, peers@, a, b));
                assert(mid.link_on(a, b) == pre.link_on(a, b));
            }
        }
    }
}


impl Config {
    /// Starts (or restarts) the server at index `i`: draws a fresh outgoing
    /// endpoint name for every peer, registers each with the network (all
    /// disabled, so the new server is connected to nobody until the caller
    /// connects it), rolls the persisted state over so the new instance is
    /// handed exactly the bytes last durably saved at `i`, installs the
    /// server slot, and registers its inbound service endpoint.
    pub fn start_server(&mut self, i: usize)
        requires
            old(self).wf(),
            i < old(self).n,
            (old(self).ids.val() as int) + (old(self).n as int) <= u64::MAX as int,
        ensures
            final(self).wf(),
            final(self).n == old(self).n,
            final(self).ids.val() == old(self).ids.val() + old(self).n,
            final(self).clerks == old(self).clerks,
            final(self).next_client_id == old(self).next_client_id,
            final(self).maxraftstate == old(self).maxraftstate,
            final(self).start == old(self).start,
            final(self).t0 == old(self).t0,
            final(self).rpcs0 == old(self).rpcs0,
            final(self).ops == old(self).ops,
            final(self).net.count == old(self).net.count,
            final(self).net.reliable == old(self).net.reliable,
            final(self).net.servers@ == old(self).net.servers@.update(i as int, true),
            final(self).net.server_live(i as int),
            final(self).saved@.len() == old(self).saved@.len(),
            forall|k: int|
                0 <= k < old(self).n ==> (#[trigger] final(self).saved@[k]).state@ == old(self).saved@[k].state@ && final(self).saved@[k].snapshot@ == old(self).saved@[k].snapshot@,
            final(self).kvservers@.len() == old(self).kvservers@.len(),
            forall|k: int|
                0 <= k < old(self).n && k != i ==> (#[trigger] final(self).kvservers@[k]) == old(self).kvservers@[k],
            final(self).live(i as int),
            (final(self).kvservers@[i as int] matches Some(s) ==> s.index == i
                && s.init_state@ == old(self).saved@[i as int].state@
                && s.init_snapshot@ == old(self).saved@[i as int].snapshot@),
            final(self).endnames@.len() == old(self).endnames@.len(),
            forall|k: int|
                0 <= k < old(self).n && k != i ==> (#[trigger] final(self).endnames@[k]) == old(self).endnames@[k],
            final(self).row_full(i as int),
            forall|j: int|
                0 <= j < old(self).n ==> (#[trigger] final(self).sname(i as int, j)) as int == (old(self).ids.val() as int) + j,
            forall|k: int|
                0 <= k < old(self).n ==> (#[trigger] final(self).row_full(k)) == (k == i || old(self).row_full(k)),
            forall|j: int| 0 <= j < old(self).n ==> !(#[trigger] final(self).link_on(i as int, j)),
            forall|a: int, b: int|
                #![trigger final(self).link_on(a, b)]
                0 <= a < old(self).n && 0 <= b < old(self).n && a != i && old(self).row_full(a) ==> final(self).link_on(a, b) == old(self).link_on(a, b),
            forall|c: int, j: int|
                #![trigger final(self).clerk_link(c, j)]
                0 <= c < old(self).clerks@.len() && 0 <= j < old(self).n ==> final(self).clerk_link(c, j) == old(self).clerk_link(c, j),
    {
        let ghost pre = *self;
        let n = self.n;
        let mut row: Vec<u64> = Vec::new();
        let mut j: usize = 0;
        while j < n
            invariant
                pre == *old(self),
                pre.wf(),
                i < pre.n,
                n == pre.n,
                (pre.ids.val() as int) + (pre.n as int) <= u64::MAX as int,
                j <= n,
                row@.len() == j,
                forall|t: int| 0 <= t < j ==> (#[trigger] row@[t]) as int == (pre.ids.val() as int) + t,
                self.ids.val() == pre.ids.val() + j,
                self.net == pre.net,
                self.n == pre.n,
                self.kvservers == pre.kvservers,
                self.saved == pre.saved,
                self.endnames == pre.endnames,
                self.clerks == pre.clerks,
                self.next_client_id == pre.next_client_id,
                self.maxraftstate == pre.maxraftstate,
                self.start == pre.start,
                self.t0 == pre.t0,
                self.rpcs0 == pre.rpcs0,
                self.ops == pre.ops,
            decreases n - j,
        {
            let nm = self.ids.fresh();
            row.push(nm);
            j = j + 1;
        }
        self.endnames[i] = row;
        let mut j2: usize = 0;
        while j2 < n
            invariant
                pre == *old(self),
                pre.wf(),
                i < pre.n,
                n == pre.n,
                j2 <= n,
                self.ids.val() == pre.ids.val() + n,
                self.n == pre.n,
                self.kvservers == pre.kvservers,
                self.saved == pre.saved,
                self.clerks == pre.clerks,
                self.next_client_id == pre.next_client_id,
                self.maxraftstate == pre.maxraftstate,
                self.start == pre.start,
                self.t0 == pre.t0,
                self.rpcs0 == pre.rpcs0,
                self.ops == pre.ops,
                self.endnames@.len() == pre.endnames@.len(),
                forall|k: int|
                    0 <= k < pre.n && k != i ==> (#[trigger] self.endnames@[k]) == pre.endnames@[k],
                self.endnames@[i as int]@.len() == n,
                forall|t: int|
                    0 <= t < n ==> (#[trigger] self.sname(i as int, t)) as int == (pre.ids.val() as int) + t,
                self.net.wf(),
                self.net.servers == pre.net.servers,
                self.net.count == pre.net.count,
                self.net.reliable == pre.net.reliable,
                self.net.names_below((pre.ids.val() + j2) as u64),
                forall|x: u64| #![trigger self.net.has_name(x)]
                    x < pre.ids.val() ==> self.net.has_name(x) == pre.net.has_name(x),
                forall|x: u64| #![trigger self.net.enabled_of(x)]
                    x < pre.ids.val() ==> self.net.enabled_of(x) == pre.net.enabled_of(x),
                forall|x: u64| #![trigger self.net.target_of(x)]
                    x < pre.ids.val() ==> self.net.target_of(x) == pre.net.target_of(x),
                forall|t: int|
                    0 <= t < j2 ==> self.net.has_name(#[trigger] self.sname(i as int, t))
                        && !self.net.enabled_of(self.sname(i as int, t))
                        && self.net.target_of(self.sname(i as int, t)) == Some(t as usize),
            decreases n - j2,
        {
            let ghost it0 = *self;
            let nm = self.endnames[i][j2];
            proof {
                assert(nm == it0.sname(i as int, j2 as int));
                assert((nm as int) == (pre.ids.val() as int) + j2);
                assert(self.net.names_below(nm));
            }
            self.net.create_client(nm);
            proof {
                assert(self.net.names_below((pre.ids.val() + j2 + 1) as u64));
            }
            self.net.connect(nm, j2);
            proof {
                assert(self.endnames == it0.endnames);
                assert forall|t: int|
                    0 <= t < n implies (#[trigger] self.sname(i as int, t)) as int == (
                pre.ids.val() as int) + t by {
                    assert(self.sname(i as int, t) == it0.sname(i as int, t));
                    assert((it0.sname(i as int, t) as int) == (pre.ids.val() as int) + t);
                }
                assert forall|t: int|
                    0 <= t < j2 + 1 implies self.net.has_name(#[trigger] self.sname(i as int, t))
                        && !self.net.enabled_of(self.sname(i as int, t))
                        && self.net.target_of(self.sname(i as int, t)) == Some(t as usize) by {
                    assert(self.sname(i as int, t) == it0.sname(i as int, t));
                    if t < j2 {
                        assert((it0.sname(i as int, t) as int) == (pre.ids.val() as int) + t);
                        assert(it0.net.has_name(it0.sname(i as int, t)));
                        assert(!it0.net.enabled_of(it0.sname(i as int, t)));
                        assert(it0.net.target_of(it0.sname(i as int, t)) == Some(t as usize));
                        assert(self.sname(i as int, t) != nm);
                    } else {
                        assert(self.sname(i as int, t) == nm);
                    }
                }
            }
            j2 = j2 + 1;
        }
        let ghost mid = *self;
        let rolled = persist::roll_over(&self.saved[i]);
        self.saved[i] = rolled;
        self.kvservers[i] = Some(
            ServerSlot {
                index: i,
                init_state: Ghost(pre.saved@[i as int].state@),
                init_snapshot: Ghost(pre.saved@[i as int].snapshot@),
            },
        );
        self.net.add_server(i);
        proof {
            let fin = *self;
            Network::lemma_same_clients(mid.net, fin.net);
            // well-formedness clause by clause
            assert(fin.dims_ok());
            assert forall|k: int|
                0 <= k < fin.n implies (#[trigger] fin.endnames@[k]@.len() == fin.n || fin.endnames@[k]@.len() == 0) by {
                if k != i {
                    assert(fin.endnames@[k] == pre.endnames@[k]);
                    assert(pre.endnames@[k]@.len() == pre.n || pre.endnames@[k]@.len() == 0);
                }
            }
            assert forall|a: int, b: int|
                0 <= a < fin.n && 0 <= b < fin.n && fin.row_full(a) implies fin.net.has_name(#[trigger] fin.sname(a, b)) && fin.net.target_of(fin.sname(a, b)) == Some(b as usize) by {
                if a == i {
                    assert(mid.net.has_name(mid.sname(i as int, b)));
                    assert(fin.sname(a, b) == mid.sname(i as int, b));
                } else {
                    assert(fin.endnames@[a] == pre.endnames@[a]);
                    assert(pre.row_full(a));
                    assert(fin.sname(a, b) == pre.sname(a, b));
                    assert(pre.sname(a, b) < pre.ids.val());
                    assert(pre.net.has_name(pre.sname(a, b)));
                    assert(pre.net.target_of(pre.sname(a, b)) == Some(b as usize));
                    assert(mid.net.has_name(pre.sname(a, b)));
                }
            }
            assert forall|i1: int, j1: int, i2: int, j2x: int|
                0 <= i1 < fin.n && 0 <= j1 < fin.n && 0 <= i2 < fin.n && 0 <= j2x < fin.n
                    && fin.row_full(i1) && fin.row_full(i2) && (i1 != i2 || j1 != j2x)
                    implies #[trigger] fin.sname(i1, j1) != #[trigger] fin.sname(i2, j2x) by {
                if i1 == i && i2 == i {
                    assert(fin.sname(i1, j1) == mid.sname(i as int, j1));
                    assert((mid.sname(i as int, j1) as int) == (pre.ids.val() as int) + j1);
                    assert(fin.sname(i2, j2x) == mid.sname(i as int, j2x));
                    assert((mid.sname(i as int, j2x) as int) == (pre.ids.val() as int) + j2x);
                } else if i1 == i {
                    assert(fin.sname(i2, j2x) == pre.sname(i2, j2x));
                    assert(pre.sname(i2, j2x) < pre.ids.val());
                    assert(fin.sname(i1, j1) == mid.sname(i as int, j1));
                    assert((mid.sname(i as int, j1) as int) == (pre.ids.val() as int) + j1);
                } else if i2 == i {
                    assert(fin.sname(i1, j1) == pre.sname(i1, j1));
                    assert(pre.sname(i1, j1) < pre.ids.val());
                    assert(fin.sname(i2, j2x) == mid.sname(i as int, j2x));
                    assert((mid.sname(i as int, j2x) as int) == (pre.ids.val() as int) + j2x);
                } else {
                    assert(fin.sname(i1, j1) == pre.sname(i1, j1));
                    assert(fin.sname(i2, j2x) == pre.sname(i2, j2x));
                    assert(pre.sname(i1, j1) != pre.sname(i2, j2x));
                }
            }
            assert forall|c: int| 0 <= c < fin.clerks@.len() implies (#[trigger] fin.clerks@[c].endnames)@.len() == fin.n by {
                assert(pre.clerks@[c].endnames@.len() == pre.n);
            }
            assert forall|c: int, jx: int|
                0 <= c < fin.clerks@.len() && 0 <= jx < fin.n implies fin.net.has_name(#[trigger] fin.cname(c, jx)) && fin.net.target_of(fin.cname(c, jx)) == Some(jx as usize) by {
                assert(fin.cname(c, jx) == pre.cname(c, jx));
                assert(pre.cname(c, jx) < pre.ids.val());
                assert(pre.net.has_name(pre.cname(c, jx)));
                assert(pre.net.target_of(pre.cname(c, jx)) == Some(jx as usize));
                assert(mid.net.has_name(pre.cname(c, jx)));
            }
            assert forall|c1: int, j1: int, c2: int, j2x: int|
                0 <= c1 < fin.clerks@.len() && 0 <= j1 < fin.n && 0 <= c2 < fin.clerks@.len() && 0 <= j2x < fin.n && (c1 != c2 || j1 != j2x)
                    implies #[trigger] fin.cname(c1, j1) != #[trigger] fin.cname(c2, j2x) by {
                assert(pre.cname(c1, j1) != pre.cname(c2, j2x));
            }
            assert forall|c: int, jx: int, a: int, k: int|
                0 <= c < fin.clerks@.len() && 0 <= jx < fin.n && 0 <= a < fin.n && 0 <= k < fin.n && fin.row_full(a)
                    implies #[trigger] fin.cname(c, jx) != #[trigger] fin.sname(a, k) by {
                assert(fin.cname(c, jx) == pre.cname(c, jx));
                assert(pre.cname(c, jx) < pre.ids.val());
                if a == i {
                    assert(fin.sname(a, k) == mid.sname(i as int, k));
                    assert((mid.sname(i as int, k) as int) == (pre.ids.val() as int) + k);
                } else {
                    assert(fin.sname(a, k) == pre.sname(a, k));
                    assert(pre.cname(c, jx) != pre.sname(a, k));
                }
            }
            assert forall|c1: int, c2: int|
                0 <= c1 < fin.clerks@.len() && 0 <= c2 < fin.clerks@.len() && c1 != c2 implies (#[trigger] fin.clerks@[c1].name) != (#[trigger] fin.clerks@[c2].name) by {
                assert(pre.clerks@[c1].name != pre.clerks@[c2].name);
            }
            assert forall|a: int, b: int|
                0 <= a < fin.n && 0 <= b < fin.n && fin.row_full(a) implies #[trigger] fin.sname(a, b) < fin.ids.val() by {
                if a == i {
                    assert(fin.sname(a, b) == mid.sname(i as int, b));
                    assert((mid.sname(i as int, b) as int) == (pre.ids.val() as int) + b);
                } else {
                    assert(fin.sname(a, b) == pre.sname(a, b));
                    assert(pre.sname(a, b) < pre.ids.val());
                }
            }
            assert forall|c: int, jx: int|
                0 <= c < fin.clerks@.len() && 0 <= jx < fin.n implies #[trigger] fin.cname(c, jx) < fin.ids.val() by {
                assert(fin.cname(c, jx) == pre.cname(c, jx));
                assert(pre.cname(c, jx) < pre.ids.val());
            }
            assert forall|c: int| 0 <= c < fin.clerks@.len() implies (#[trigger] fin.clerks@[c].name) < fin.ids.val() by {
                assert(pre.clerks@[c].name < pre.ids.val());
            }
            assert(fin.net.names_below(fin.ids.val())) by {
                assert(mid.net.names_below((pre.ids.val() + n) as u64));
            }
            assert forall|k: int|
                0 <= k < fin.n implies ((#[trigger] fin.kvservers@[k]) matches Some(s) ==> s.index == k) by {
                if k != i {
                    assert(fin.kvservers@[k] == pre.kvservers@[k]);
                }
            }
            assert(fin.wf());
            assert forall|jx: int|
                0 <= jx < pre.n implies (#[trigger] fin.sname(i as int, jx)) as int == (pre.ids.val() as int) + jx by {
                assert(fin.sname(i as int, jx) == mid.sname(i as int, jx));
                assert((mid.sname(i as int, jx) as int) == (pre.ids.val() as int) + jx);
            }
            // link facts
            assert forall|jx: int| 0 <= jx < pre.n implies !(#[trigger] fin.link_on(i as int, jx)) by {
                assert(fin.sname(i as int, jx) == mid.sname(i as int, jx));
                assert(!mid.net.enabled_of(mid.sname(i as int, jx)));
            }
            assert forall|a: int, b: int|
                #![trigger fin.link_on(a, b)]
                0 <= a < pre.n && 0 <= b < pre.n && a != i && pre.row_full(a) implies fin.link_on(a, b) == pre.link_on(a, b) by {
                assert(fin.sname(a, b) == pre.sname(a, b));
                assert(pre.sname(a, b) < pre.ids.val());
                assert(mid.net.enabled_of(pre.sname(a, b)) == pre.net.enabled_of(pre.sname(a, b)));
            }
            assert forall|c: int, jx: int|
                #![trigger fin.clerk_link(c, jx)]
                0 <= c < pre.clerks@.len() && 0 <= jx < pre.n implies fin.clerk_link(c, jx) == pre.clerk_link(c, jx) by {
                assert(fin.cname(c, jx) == pre.cname(c, jx));
                assert(pre.cname(c, jx) < pre.ids.val());
                assert(mid.net.enabled_of(pre.cname(c, jx)) == pre.net.enabled_of(pre.cname(c, jx)));
            }
            assert forall|k: int|
                0 <= k < pre.n implies (#[trigger] fin.row_full(k)) == (k == i || pre.row_full(k)) by {
                if k != i {
                    assert(fin.endnames@[k] == pre.endnames@[k]);
                }
            }
        }
    }
}


/// An exact copy of an identifier vector, element by element.
fn copy_ids(src: &Vec<u64>) -> (r: Vec<u64>)
    ensures
        r@ == src@,
{
    let mut r: Vec<u64> = Vec::new();
    let mut k: usize = 0;
    while k < src.len()
        invariant
            k <= src@.len(),
            r@ == src@.subrange(0, k as int),
        decreases src@.len() - k,
    {
        r.push(src[k]);
        proof {
            assert(r@ =~= src@.subrange(0, k + 1));
        }
        k = k + 1;
    }
    proof {
        assert(src@.subrange(0, src@.len() as int) =~= src@);
    }
    r
}


impl Config {
    /// Finds the clerk record of this name.
    fn find_clerk(&self, name: u64) -> (r: usize)
        requires
            self.clerk_ids_distinct(),
            self.has_clerk(name),
        ensures
            r < self.clerks@.len(),
            r == self.clerk_idx(name),
    {
        let clen = self.clerks.len();
        let mut c: usize = 0;
        while c < clen
            invariant
                clen == self.clerks@.len(),
                c <= clen,
                self.clerk_ids_distinct(),
                self.has_clerk(name),
                forall|t: int| 0 <= t < c ==> (#[trigger] self.clerks@[t]).name != name,
            decreases clen - c,
        {
            if self.clerks[c].name == name {
                proof {
                    self.lemma_clerk_found(c as int, name);
                }
                return c;
            }
            c = c + 1;
        }
        proof {
            assert(!self.has_clerk(name));
        }
        0
    }
}

impl Config {
    /// A clerk record found at an index is the one `clerk_idx` denotes.
    pub proof fn lemma_clerk_found(self, c: int, name: u64)
        requires
            self.clerk_ids_distinct(),
            0 <= c < self.clerks@.len(),
            self.clerks@[c].name == name,
        ensures
            self.has_clerk(name),
            self.clerk_idx(name) == c,
    {
        assert(self.has_clerk(name));
        let c0 = self.clerk_idx(name);
        assert(0 <= c0 < self.clerks@.len() && self.clerks@[c0].name == name);
        if c0 != c {
            assert(self.clerks@[c0].name != self.clerks@[c].name);
        }
    }

    /// Enables this clerk's own endpoints toward the servers listed in `to`,
    /// independently of any other session's connectivity. Every other link
    /// keeps its state.
    pub fn connect_client(&mut self, ck: &Clerk, to: &Vec<usize>)
        requires
            old(self).wf(),
            old(self).has_clerk(ck.name),
            forall|t: int| 0 <= t < to@.len() ==> (#[trigger] to@[t]) < old(self).n,
        ensures
            final(self).wf(),
            Config::topo_frame(*old(self), *final(self)),
            forall|j: int|
                #![trigger final(self).clerk_link(old(self).clerk_idx(ck.name), j)]
                0 <= j < old(self).n ==> final(self).clerk_link(old(self).clerk_idx(ck.name), j) == (old(self).clerk_link(old(self).clerk_idx(ck.name), j) || to@.contains(j as usize)),
            forall|c: int, j: int|
                #![trigger final(self).clerk_link(c, j)]
                0 <= c < old(self).clerks@.len() && 0 <= j < old(self).n && c != old(self).clerk_idx(ck.name) ==> final(self).clerk_link(c, j) == old(self).clerk_link(c, j),
            forall|a: int, b: int|
                #![trigger final(self).link_on(a, b)]
                0 <= a < old(self).n && 0 <= b < old(self).n && old(self).row_full(a) ==> final(self).link_on(a, b) == old(self).link_on(a, b),
    {
        let ghost pre = *self;
        let cfound = self.find_clerk(ck.name);
        let ghost cidx = pre.clerk_idx(ck.name);
        let mut m: usize = 0;
        while m < to.len()
            invariant
                pre == *old(self),
                pre.wf(),
                pre.has_clerk(ck.name),
                cidx == pre.clerk_idx(ck.name),
                0 <= cidx < pre.clerks@.len(),
                cfound == cidx,
                cfound < pre.clerks@.len(),
                forall|t: int| 0 <= t < to@.len() ==> (#[trigger] to@[t]) < pre.n,
                m <= to@.len(),
                Config::same_core(pre, *self),
                self.net.wf(),
                self.net.servers == pre.net.servers,
                self.net.count == pre.net.count,
                self.net.reliable == pre.net.reliable,
                self.net.clients@.len() == pre.net.clients@.len(),
                forall|k: int|
                    0 <= k < pre.net.clients@.len() ==> (#[trigger] self.net.clients@[k]).name == pre.net.clients@[k].name && self.net.clients@[k].target == pre.net.clients@[k].target,
                forall|x: u64| #![trigger self.net.has_name(x)]
                    self.net.has_name(x) == pre.net.has_name(x),
                forall|x: u64| #![trigger self.net.target_of(x)]
                    self.net.target_of(x) == pre.net.target_of(x),
                forall|x: u64| #![trigger self.net.enabled_of(x)]
                    self.net.enabled_of(x) == (pre.net.enabled_of(x) || exists|t: int|
                        0 <= t < m && x == pre.cname(cidx, (#[trigger] to@[t]) as int)),
            decreases to@.len() - m,
        {
            let j = to[m];
            let nm = self.clerks[cfound].endnames[j];
            proof {
                assert(nm == pre.cname(cidx, to@[m as int] as int));
                assert(pre.net.has_name(nm));
            }
            self.net.enable(nm, true);
            proof {
                assert forall|x: u64| #![trigger self.net.enabled_of(x)]
                    self.net.enabled_of(x) == (pre.net.enabled_of(x) || exists|t: int|
                        0 <= t < m + 1 && x == pre.cname(cidx, (#[trigger] to@[t]) as int)) by {
                    if x == nm {
                        assert(self.net.enabled_of(x));
                        assert(0 <= m < m + 1 && x == pre.cname(cidx, (to@[m as int]) as int));
                    } else {
                        if exists|t: int| 0 <= t < m + 1 && x == pre.cname(cidx, (#[trigger] to@[t]) as int) {
                            let t = choose|t: int| 0 <= t < m + 1 && x == pre.cname(cidx, (#[trigger] to@[t]) as int);
                            assert(t < m);
                        }
                    }
                }
            }
            m = m + 1;
        }
        proof {
            Config::lemma_topo_frame_wf(pre, *self);
            let fin = *self;
            assert forall|j: int|
                0 <= j < pre.n implies #[trigger] fin.clerk_link(cidx, j) == (pre.clerk_link(cidx, j) || to@.contains(j as usize)) by {
                let x = pre.cname(cidx, j);
                assert(fin.cname(cidx, j) == x);
                if exists|t: int| 0 <= t < to@.len() && x == pre.cname(cidx, (#[trigger] to@[t]) as int) {
                    let t = choose|t: int| 0 <= t < to@.len() && x == pre.cname(cidx, (#[trigger] to@[t]) as int);
                    assert(j == to@[t] as int);
                    assert(to@.contains(to@[t]));
                }
                if to@.contains(j as usize) {
                    let t = choose|t: int| 0 <= t < to@.len() && to@[t] == j as usize;
                    assert(x == pre.cname(cidx, (to@[t]) as int));
                }
            }
            assert forall|cx: int, j: int|
                #![trigger fin.clerk_link(cx, j)]
                0 <= cx < pre.clerks@.len() && 0 <= j < pre.n && cx != cidx implies fin.clerk_link(cx, j) == pre.clerk_link(cx, j) by {
                let x = pre.cname(cx, j);
                assert(fin.cname(cx, j) == x);
                if exists|t: int| 0 <= t < to@.len() && x == pre.cname(cidx, (#[trigger] to@[t]) as int) {
                    let t = choose|t: int| 0 <= t < to@.len() && x == pre.cname(cidx, (#[trigger] to@[t]) as int);
                    assert(x != pre.cname(cidx, (to@[t]) as int));
                }
            }
            assert forall|a: int, b: int|
                #![trigger fin.link_on(a, b)]
                0 <= a < pre.n && 0 <= b < pre.n && pre.row_full(a) implies fin.link_on(a, b) == pre.link_on(a, b) by {
                let x = pre.sname(a, b);
                assert(fin.sname(a, b) == x);
                if exists|t: int| 0 <= t < to@.len() && x == pre.cname(cidx, (#[trigger] to@[t]) as int) {
                    let t = choose|t: int| 0 <= t < to@.len() && x == pre.cname(cidx, (#[trigger] to@[t]) as int);
                    assert(x != pre.cname(cidx, (to@[t]) as int));
                }
            }
        }
    }

    /// Disables this clerk's own endpoints toward the servers listed in
    /// `from`. Every other link keeps its state.
    pub fn disconnect_client(&mut self, ck: &Clerk, from: &Vec<usize>)
        requires
            old(self).wf(),
            old(self).has_clerk(ck.name),
            forall|t: int| 0 <= t < from@.len() ==> (#[trigger] from@[t]) < old(self).n,
        ensures
            final(self).wf(),
            Config::topo_frame(*old(self), *final(self)),
            forall|j: int|
                #![trigger final(self).clerk_link(old(self).clerk_idx(ck.name), j)]
                0 <= j < old(self).n ==> final(self).clerk_link(old(self).clerk_idx(ck.name), j) == (old(self).clerk_link(old(self).clerk_idx(ck.name), j) && !from@.contains(j as usize)),
            forall|c: int, j: int|
                #![trigger final(self).clerk_link(c, j)]
                0 <= c < old(self).clerks@.len() && 0 <= j < old(self).n && c != old(self).clerk_idx(ck.name) ==> final(self).clerk_link(c, j) == old(self).clerk_link(c, j),
            forall|a: int, b: int|
                #![trigger final(self).link_on(a, b)]
                0 <= a < old(self).n && 0 <= b < old(self).n && old(self).row_full(a) ==> final(self).link_on(a, b) == old(self).link_on(a, b),
    {
        let ghost pre = *self;
        let cfound = self.find_clerk(ck.name);
        let ghost cidx = pre.clerk_idx(ck.name);
        let mut m: usize = 0;
        while m < from.len()
            invariant
                pre == *old(self),
                pre.wf(),
                pre.has_clerk(ck.name),
                cidx == pre.clerk_idx(ck.name),
                0 <= cidx < pre.clerks@.len(),
                cfound == cidx,
                cfound < pre.clerks@.len(),
                forall|t: int| 0 <= t < from@.len() ==> (#[trigger] from@[t]) < pre.n,
                m <= from@.len(),
                Config::same_core(pre, *self),
                self.net.wf(),
                self.net.servers == pre.net.servers,
                self.net.count == pre.net.count,
                self.net.reliable == pre.net.reliable,
                self.net.clients@.len() == pre.net.clients@.len(),
                forall|k: int|
                    0 <= k < pre.net.clients@.len() ==> (#[trigger] self.net.clients@[k]).name == pre.net.clients@[k].name && self.net.clients@[k].target == pre.net.clients@[k].target,
                forall|x: u64| #![trigger self.net.has_name(x)]
                    self.net.has_name(x) == pre.net.has_name(x),
                forall|x: u64| #![trigger self.net.target_of(x)]
                    self.net.target_of(x) == pre.net.target_of(x),
                forall|x: u64| #![trigger self.net.enabled_of(x)]
                    self.net.enabled_of(x) == (pre.net.enabled_of(x) && !(exists|t: int|
                        0 <= t < m && x == pre.cname(cidx, (#[trigger] from@[t]) as int))),
            decreases from@.len() - m,
        {
            let j = from[m];
            let nm = self.clerks[cfound].endnames[j];
            proof {
                assert(nm == pre.cname(cidx, from@[m as int] as int));
            }
            self.net.enable(nm, false);
            proof {
                assert forall|x: u64| #![trigger self.net.enabled_of(x)]
                    self.net.enabled_of(x) == (pre.net.enabled_of(x) && !(exists|t: int|
                        0 <= t < m + 1 && x == pre.cname(cidx, (#[trigger] from@[t]) as int))) by {
                    if x == nm {
                        assert(!self.net.enabled_of(x));
                        assert(0 <= m < m + 1 && x == pre.cname(cidx, (from@[m as int]) as int));
                    } else {
                        if exists|t: int| 0 <= t < m + 1 && x == pre.cname(cidx, (#[trigger] from@[t]) as int) {
                            let t = choose|t: int| 0 <= t < m + 1 && x == pre.cname(cidx, (#[trigger] from@[t]) as int);
                            assert(t < m);
                        }
                    }
                }
            }
            m = m + 1;
        }
        proof {
            Config::lemma_topo_frame_wf(pre, *self);
            let fin = *self;
            assert forall|j: int|
                0 <= j < pre.n implies #[trigger] fin.clerk_link(cidx, j) == (pre.clerk_link(cidx, j) && !from@.contains(j as usize)) by {
                let x = pre.cname(cidx, j);
                assert(fin.cname(cidx, j) == x);
                if exists|t: int| 0 <= t < from@.len() && x == pre.cname(cidx, (#[trigger] from@[t]) as int) {
                    let t = choose|t: int| 0 <= t < from@.len() && x == pre.cname(cidx, (#[trigger] from@[t]) as int);
                    assert(j == from@[t] as int);
                    assert(from@.contains(from@[t]));
                }
                if from@.contains(j as usize) {
                    let t = choose|t: int| 0 <= t < from@.len() && from@[t] == j as usize;
                    assert(x == pre.cname(cidx, (from@[t]) as int));
                }
            }
            assert forall|cx: int, j: int|
                #![trigger fin.clerk_link(cx, j)]
                0 <= cx < pre.clerks@.len() && 0 <= j < pre.n && cx != cidx implies fin.clerk_link(cx, j) == pre.clerk_link(cx, j) by {
                let x = pre.cname(cx, j);
                assert(fin.cname(cx, j) == x);
                if exists|t: int| 0 <= t < from@.len() && x == pre.cname(cidx, (#[trigger] from@[t]) as int) {
                    let t = choose|t: int| 0 <= t < from@.len() && x == pre.cname(cidx, (#[trigger] from@[t]) as int);
                    assert(x != pre.cname(cidx, (from@[t]) as int));
                }
            }
            assert forall|a: int, b: int|
                #![trigger fin.link_on(a, b)]
                0 <= a < pre.n && 0 <= b < pre.n && pre.row_full(a) implies fin.link_on(a, b) == pre.link_on(a, b) by {
                let x = pre.sname(a, b);
                assert(fin.sname(a, b) == x);
                if exists|t: int| 0 <= t < from@.len() && x == pre.cname(cidx, (#[trigger] from@[t]) as int) {
                    let t = choose|t: int| 0 <= t < from@.len() && x == pre.cname(cidx, (#[trigger] from@[t]) as int);
                    assert(x != pre.cname(cidx, (from@[t]) as int));
                }
            }
        }
    }
}


impl Config {
    /// Creates a client session with its own private endpoint toward every
    /// server, each registered with the network and addressed to its server,
    /// all in a freshly shuffled preference order; then enables exactly the
    /// endpoints toward the servers listed in `to` (every other one starts
    /// disconnected).
    pub fn make_client(&mut self, to: &Vec<usize>) -> (ck: Clerk)
        requires
            old(self).wf(),
            forall|t: int| 0 <= t < to@.len() ==> (#[trigger] to@[t]) < old(self).n,
            (old(self).ids.val() as int) + (old(self).n as int) + 1 <= u64::MAX as int,
            old(self).next_client_id < usize::MAX,
        ensures
            final(self).wf(),
            final(self).n == old(self).n,
            final(self).ids.val() == old(self).ids.val() + old(self).n + 1,
            final(self).endnames == old(self).endnames,
            final(self).kvservers == old(self).kvservers,
            final(self).saved == old(self).saved,
            final(self).maxraftstate == old(self).maxraftstate,
            final(self).start == old(self).start,
            final(self).t0 == old(self).t0,
            final(self).rpcs0 == old(self).rpcs0,
            final(self).ops == old(self).ops,
            final(self).next_client_id == old(self).next_client_id + 1,
            final(self).net.count == old(self).net.count,
            final(self).net.servers == old(self).net.servers,
            final(self).net.reliable == old(self).net.reliable,
            final(self).clerks@.len() == old(self).clerks@.len() + 1,
            forall|c: int|
                0 <= c < old(self).clerks@.len() ==> (#[trigger] final(self).clerks@[c]) == old(self).clerks@[c],
            (ck.name as int) == (old(self).ids.val() as int) + old(self).n,
            final(self).clerks@[old(self).clerks@.len() as int].name == ck.name,
            forall|j: int|
                0 <= j < old(self).n ==> (#[trigger] final(self).cname(old(self).clerks@.len() as int, j)) as int == (old(self).ids.val() as int) + j,
            ck.ends@.len() == old(self).n,
            ck.ends@.to_multiset() == final(self).clerks@[old(self).clerks@.len() as int].endnames@.to_multiset(),
            forall|j: int|
                #![trigger final(self).clerk_link(old(self).clerks@.len() as int, j)]
                0 <= j < old(self).n ==> final(self).clerk_link(old(self).clerks@.len() as int, j) == to@.contains(j as usize),
            forall|c: int, j: int|
                #![trigger final(self).clerk_link(c, j)]
                0 <= c < old(self).clerks@.len() && 0 <= j < old(self).n ==> final(self).clerk_link(c, j) == old(self).clerk_link(c, j),
            forall|a: int, b: int|
                #![trigger final(self).link_on(a, b)]
                0 <= a < old(self).n && 0 <= b < old(self).n && old(self).row_full(a) ==> final(self).link_on(a, b) == old(self).link_on(a, b),
    {
        let ghost pre = *self;
        let n = self.n;
        let mut newnames: Vec<u64> = Vec::new();
        let mut j: usize = 0;
        while j < n
            invariant
                pre == *old(self),
                pre.wf(),
                n == pre.n,
                (pre.ids.val() as int) + (pre.n as int) + 1 <= u64::MAX as int,
                j <= n,
                newnames@.len() == j,
                forall|t: int| 0 <= t < j ==> (#[trigger] newnames@[t]) as int == (pre.ids.val() as int) + t,
                self.ids.val() == pre.ids.val() + j,
                self.n == pre.n,
                self.kvservers == pre.kvservers,
                self.saved == pre.saved,
                self.endnames == pre.endnames,
                self.clerks == pre.clerks,
                self.next_client_id == pre.next_client_id,
                self.maxraftstate == pre.maxraftstate,
                self.start == pre.start,
                self.t0 == pre.t0,
                self.rpcs0 == pre.rpcs0,
                self.ops == pre.ops,
                self.net.wf(),
                self.net.servers == pre.net.servers,
                self.net.count == pre.net.count,
                self.net.reliable == pre.net.reliable,
                self.net.names_below((pre.ids.val() + j) as u64),
                forall|x: u64| #![trigger self.net.has_name(x)]
                    x < pre.ids.val() ==> self.net.has_name(x) == pre.net.has_name(x),
                forall|x: u64| #![trigger self.net.enabled_of(x)]
                    x < pre.ids.val() ==> self.net.enabled_of(x) == pre.net.enabled_of(x),
                forall|x: u64| #![trigger self.net.target_of(x)]
                    x < pre.ids.val() ==> self.net.target_of(x) == pre.net.target_of(x),
                forall|t: int|
                    0 <= t < j ==> self.net.has_name(#[trigger] newnames@[t])
                        && !self.net.enabled_of(newnames@[t])
                        && self.net.target_of(newnames@[t]) == Some(t as usize),
            decreases n - j,
        {
            let nm = self.ids.fresh();
            newnames.push(nm);
            proof {
                assert(self.net.names_below(nm));
            }
            self.net.create_client(nm);
            proof {
                assert(self.net.names_below((pre.ids.val() + j + 1) as u64));
            }
            self.net.connect(nm, j);
            proof {
                assert forall|t: int|
                    0 <= t < j + 1 implies self.net.has_name(#[trigger] newnames@[t])
                        && !self.net.enabled_of(newnames@[t])
                        && self.net.target_of(newnames@[t]) == Some(t as usize) by {
                    if t < j {
                        assert(newnames@[t] != nm);
                    } else {
                        assert(newnames@[t] == nm);
                    }
                }
            }
            j = j + 1;
        }
        let mut ends = copy_ids(&newnames);
        shuffling::shuffle_ids(&mut ends);
        let ck_name = self.ids.fresh();
        let ghost oldclen = pre.clerks@.len() as int;
        self.clerks.push(ClerkEntry { name: ck_name, endnames: newnames });
        self.next_client_id = self.next_client_id + 1;
        let ck = Clerk { name: ck_name, ends };
        proof {
            let mid = *self;
            // well-formedness of the state with the new clerk record
            assert(mid.dims_ok());
            assert forall|i: int| 0 <= i < mid.n implies (#[trigger] mid.endnames@[i]@.len() == mid.n || mid.endnames@[i]@.len() == 0) by {
                assert(pre.endnames@[i]@.len() == pre.n || pre.endnames@[i]@.len() == 0);
            }
            assert forall|a: int, b: int|
                0 <= a < mid.n && 0 <= b < mid.n && mid.row_full(a) implies mid.net.has_name(#[trigger] mid.sname(a, b)) && mid.net.target_of(mid.sname(a, b)) == Some(b as usize) by {
                assert(mid.sname(a, b) == pre.sname(a, b));
                assert(pre.row_full(a));
                assert(pre.sname(a, b) < pre.ids.val());
                assert(pre.net.has_name(pre.sname(a, b)));
                assert(pre.net.target_of(pre.sname(a, b)) == Some(b as usize));
            }
            assert forall|i1: int, j1: int, i2: int, j2: int|
                0 <= i1 < mid.n && 0 <= j1 < mid.n && 0 <= i2 < mid.n && 0 <= j2 < mid.n
                    && mid.row_full(i1) && mid.row_full(i2) && (i1 != i2 || j1 != j2)
                    implies #[trigger] mid.sname(i1, j1) != #[trigger] mid.sname(i2, j2) by {
                assert(mid.sname(i1, j1) == pre.sname(i1, j1));
                assert(mid.sname(i2, j2) == pre.sname(i2, j2));
                assert(pre.row_full(i1) && pre.row_full(i2));
                assert(pre.sname(i1, j1) != pre.sname(i2, j2));
            }
            assert forall|c: int| 0 <= c < mid.clerks@.len() implies (#[trigger] mid.clerks@[c].endnames)@.len() == mid.n by {
                if c < oldclen {
                    assert(mid.clerks@[c] == pre.clerks@[c]);
                    assert(pre.clerks@[c].endnames@.len() == pre.n);
                }
            }
            assert forall|c: int, jx: int|
                0 <= c < mid.clerks@.len() && 0 <= jx < mid.n implies mid.net.has_name(#[trigger] mid.cname(c, jx)) && mid.net.target_of(mid.cname(c, jx)) == Some(jx as usize) by {
                if c < oldclen {
                    assert(mid.cname(c, jx) == pre.cname(c, jx));
                    assert(pre.cname(c, jx) < pre.ids.val());
                    assert(pre.net.has_name(pre.cname(c, jx)));
                    assert(pre.net.target_of(pre.cname(c, jx)) == Some(jx as usize));
                } else {
                    assert(mid.cname(c, jx) == newnames@[jx]);
                }
            }
            assert forall|c1: int, j1: int, c2: int, j2: int|
                0 <= c1 < mid.clerks@.len() && 0 <= j1 < mid.n && 0 <= c2 < mid.clerks@.len() && 0 <= j2 < mid.n && (c1 != c2 || j1 != j2)
                    implies #[trigger] mid.cname(c1, j1) != #[trigger] mid.cname(c2, j2) by {
                if c1 < oldclen && c2 < oldclen {
                    assert(mid.cname(c1, j1) == pre.cname(c1, j1));
                    assert(mid.cname(c2, j2) == pre.cname(c2, j2));
                    assert(pre.cname(c1, j1) != pre.cname(c2, j2));
                } else if c1 < oldclen {
                    assert(mid.cname(c1, j1) == pre.cname(c1, j1));
                    assert(pre.cname(c1, j1) < pre.ids.val());
                    assert(mid.cname(c2, j2) == newnames@[j2]);
                } else if c2 < oldclen {
                    assert(mid.cname(c2, j2) == pre.cname(c2, j2));
                    assert(pre.cname(c2, j2) < pre.ids.val());
                    assert(mid.cname(c1, j1) == newnames@[j1]);
                } else {
                    assert(mid.cname(c1, j1) == newnames@[j1]);
                    assert(mid.cname(c2, j2) == newnames@[j2]);
                }
            }
            assert forall|c: int, jx: int, a: int, k: int|
                0 <= c < mid.clerks@.len() && 0 <= jx < mid.n && 0 <= a < mid.n && 0 <= k < mid.n && mid.row_full(a)
                    implies #[trigger] mid.cname(c, jx) != #[trigger] mid.sname(a, k) by {
                assert(mid.sname(a, k) == pre.sname(a, k));
                assert(pre.row_full(a));
                assert(pre.sname(a, k) < pre.ids.val());
                if c < oldclen {
                    assert(mid.cname(c, jx) == pre.cname(c, jx));
                    assert(pre.cname(c, jx) != pre.sname(a, k));
                } else {
                    assert(mid.cname(c, jx) == newnames@[jx]);
                }
            }
            assert forall|c1: int, c2: int|
                0 <= c1 < mid.clerks@.len() && 0 <= c2 < mid.clerks@.len() && c1 != c2 implies (#[trigger] mid.clerks@[c1].name) != (#[trigger] mid.clerks@[c2].name) by {
                if c1 < oldclen && c2 < oldclen {
                    assert(mid.clerks@[c1] == pre.clerks@[c1]);
                    assert(mid.clerks@[c2] == pre.clerks@[c2]);
                    assert(pre.clerks@[c1].name != pre.clerks@[c2].name);
                } else if c1 < oldclen {
                    assert(mid.clerks@[c1] == pre.clerks@[c1]);
                    assert(pre.clerks@[c1].name < pre.ids.val());
                } else if c2 < oldclen {
                    assert(mid.clerks@[c2] == pre.clerks@[c2]);
                    assert(pre.clerks@[c2].name < pre.ids.val());
                }
            }
            assert forall|a: int, b: int|
                0 <= a < mid.n && 0 <= b < mid.n && mid.row_full(a) implies #[trigger] mid.sname(a, b) < mid.ids.val() by {
                assert(mid.sname(a, b) == pre.sname(a, b));
                assert(pre.row_full(a));
                assert(pre.sname(a, b) < pre.ids.val());
            }
            assert forall|c: int, jx: int|
                0 <= c < mid.clerks@.len() && 0 <= jx < mid.n implies #[trigger] mid.cname(c, jx) < mid.ids.val() by {
                if c < oldclen {
                    assert(mid.cname(c, jx) == pre.cname(c, jx));
                    assert(pre.cname(c, jx) < pre.ids.val());
                } else {
                    assert(mid.cname(c, jx) == newnames@[jx]);
                }
            }
            assert forall|c: int| 0 <= c < mid.clerks@.len() implies (#[trigger] mid.clerks@[c].name) < mid.ids.val() by {
                if c < oldclen {
                    assert(mid.clerks@[c] == pre.clerks@[c]);
                    assert(pre.clerks@[c].name < pre.ids.val());
                }
            }
            assert(mid.net.names_below(mid.ids.val())) by {
                assert(mid.net.names_below((pre.ids.val() + n) as u64));
            }
            assert forall|k: int|
                0 <= k < mid.n implies ((#[trigger] mid.kvservers@[k]) matches Some(sl) ==> sl.index == k) by {
                assert(mid.kvservers@[k] == pre.kvservers@[k]);
            }
            assert(mid.wf());
            mid.lemma_clerk_found(oldclen, ck_name);
        }
        let ghost mid = *self;
        self.connect_client(&ck, to);
        proof {
            let fin = *self;
            assert(mid.clerk_idx(ck.name) == oldclen);
            assert forall|jx: int|
                0 <= jx < pre.n implies #[trigger] fin.clerk_link(oldclen, jx) == to@.contains(jx as usize) by {
                assert(mid.cname(oldclen, jx) == mid.clerks@[oldclen].endnames@[jx]);
                assert(!mid.net.enabled_of(mid.cname(oldclen, jx)));
                assert(!mid.clerk_link(oldclen, jx));
            }
            assert forall|c: int, jx: int|
                #![trigger fin.clerk_link(c, jx)]
                0 <= c < oldclen && 0 <= jx < pre.n implies fin.clerk_link(c, jx) == pre.clerk_link(c, jx) by {
                assert(fin.clerk_link(c, jx) == mid.clerk_link(c, jx));
                assert(mid.cname(c, jx) == pre.cname(c, jx));
                assert(pre.cname(c, jx) < pre.ids.val());
                assert(mid.net.enabled_of(pre.cname(c, jx)) == pre.net.enabled_of(pre.cname(c, jx)));
            }
            assert forall|a: int, b: int|
                #![trigger fin.link_on(a, b)]
                0 <= a < pre.n && 0 <= b < pre.n && pre.row_full(a) implies fin.link_on(a, b) == pre.link_on(a, b) by {
                assert(mid.row_full(a));
                assert(fin.link_on(a, b) == mid.link_on(a, b));
                assert(mid.sname(a, b) == pre.sname(a, b));
                assert(pre.sname(a, b) < pre.ids.val());
                assert(mid.net.enabled_of(pre.sname(a, b)) == pre.net.enabled_of(pre.sname(a, b)));
            }
            assert forall|jx: int|
                0 <= jx < pre.n implies (#[trigger] fin.cname(oldclen, jx)) as int == (pre.ids.val() as int) + jx by {
                assert(fin.clerks@[oldclen] == mid.clerks@[oldclen]);
                assert(mid.cname(oldclen, jx) == newnames@[jx]);
            }
            assert(ck.ends@.to_multiset() == fin.clerks@[oldclen].endnames@.to_multiset()) by {
                assert(fin.clerks@[oldclen] == mid.clerks@[oldclen]);
                assert(mid.clerks@[oldclen].endnames@ == newnames@);
            }
        }
        ck
    }

    /// Removes the bookkeeping entry of a client session. A session that was
    /// never registered (or already deleted) is ignored.
    pub fn delete_client(&mut self, ck: &Clerk)
        requires
            old(self).wf(),
        ensures
            final(self).wf(),
            final(self).net == old(self).net,
            final(self).n == old(self).n,
            final(self).ids == old(self).ids,
            final(self).kvservers == old(self).kvservers,
            final(self).saved == old(self).saved,
            final(self).endnames == old(self).endnames,
            final(self).next_client_id == old(self).next_client_id,
            final(self).maxraftstate == old(self).maxraftstate,
            final(self).start == old(self).start,
            final(self).t0 == old(self).t0,
            final(self).rpcs0 == old(self).rpcs0,
            final(self).ops == old(self).ops,
            !final(self).has_clerk(ck.name),
            old(self).has_clerk(ck.name) ==> final(self).clerks@ == old(self).clerks@.remove(old(self).clerk_idx(ck.name)),
            !old(self).has_clerk(ck.name) ==> final(self).clerks@ == old(self).clerks@,
    {
        let ghost pre = *self;
        let clen = self.clerks.len();
        let mut c: usize = 0;
        while c < clen
            invariant
                pre == *old(self),
                pre.wf(),
                *self == pre,
                clen == pre.clerks@.len(),
                c <= clen,
                forall|t: int| 0 <= t < c ==> (#[trigger] pre.clerks@[t]).name != ck.name,
            decreases clen - c,
        {
            if self.clerks[c].name == ck.name {
                proof {
                    pre.lemma_clerk_found(c as int, ck.name);
                }
                self.clerks.remove(c);
                proof {
                    let fin = *self;
                    assert(fin.clerks@ == pre.clerks@.remove(c as int));
                    assert forall|t: int|
                        0 <= t < fin.clerks@.len() implies (#[trigger] fin.clerks@[t]) == (if t < c {
                        pre.clerks@[t]
                    } else {
                        pre.clerks@[t + 1]
                    }) by {
                        assert(pre.clerks@.remove(c as int) =~= pre.clerks@.subrange(0, c as int) + pre.clerks@.subrange(c + 1, pre.clerks@.len() as int));
                    }
                    assert forall|t: int| 0 <= t < fin.clerks@.len() implies (#[trigger] fin.clerks@[t]).name != ck.name by {
                        if t < c {
                            assert(fin.clerks@[t] == pre.clerks@[t]);
                            assert(pre.clerks@[t].name != pre.clerks@[c as int].name);
                        } else {
                            assert(fin.clerks@[t] == pre.clerks@[t + 1]);
                            assert(pre.clerks@[t + 1].name != pre.clerks@[c as int].name);
                        }
                    }
                    assert(!fin.has_clerk(ck.name));
                    // well-formedness with the record removed
                    assert(fin.dims_ok());
                    assert forall|i: int| 0 <= i < fin.n implies (#[trigger] fin.endnames@[i]@.len() == fin.n || fin.endnames@[i]@.len() == 0) by {
                        assert(pre.endnames@[i]@.len() == pre.n || pre.endnames@[i]@.len() == 0);
                    }
                    assert forall|a: int, b: int|
                        0 <= a < fin.n && 0 <= b < fin.n && fin.row_full(a) implies fin.net.has_name(#[trigger] fin.sname(a, b)) && fin.net.target_of(fin.sname(a, b)) == Some(b as usize) by {
                        assert(fin.sname(a, b) == pre.sname(a, b));
                        assert(pre.row_full(a));
                        assert(pre.net.has_name(pre.sname(a, b)));
                        assert(pre.net.target_of(pre.sname(a, b)) == Some(b as usize));
                    }
                    assert forall|i1: int, j1: int, i2: int, j2: int|
                        0 <= i1 < fin.n && 0 <= j1 < fin.n && 0 <= i2 < fin.n && 0 <= j2 < fin.n
                            && fin.row_full(i1) && fin.row_full(i2) && (i1 != i2 || j1 != j2)
                            implies #[trigger] fin.sname(i1, j1) != #[trigger] fin.sname(i2, j2) by {
                        assert(fin.sname(i1, j1) == pre.sname(i1, j1));
                        assert(fin.sname(i2, j2) == pre.sname(i2, j2));
                        assert(pre.row_full(i1) && pre.row_full(i2));
                        assert(pre.sname(i1, j1) != pre.sname(i2, j2));
                    }
                    assert forall|cx: int| 0 <= cx < fin.clerks@.len() implies (#[trigger] fin.clerks@[cx].endnames)@.len() == fin.n by {
                        let o = if cx < c { cx } else { cx + 1 };
                        assert(fin.clerks@[cx] == pre.clerks@[o]);
                        assert(pre.clerks@[o].endnames@.len() == pre.n);
                    }
                    assert forall|cx: int, jx: int|
                        0 <= cx < fin.clerks@.len() && 0 <= jx < fin.n implies fin.net.has_name(#[trigger] fin.cname(cx, jx)) && fin.net.target_of(fin.cname(cx, jx)) == Some(jx as usize) by {
                        let o = if cx < c { cx } else { cx + 1 };
                        assert(fin.clerks@[cx] == pre.clerks@[o]);
                        assert(fin.cname(cx, jx) == pre.cname(o, jx));
                        assert(pre.net.has_name(pre.cname(o, jx)));
                        assert(pre.net.target_of(pre.cname(o, jx)) == Some(jx as usize));
                    }
                    assert forall|c1: int, j1: int, c2: int, j2: int|
                        0 <= c1 < fin.clerks@.len() && 0 <= j1 < fin.n && 0 <= c2 < fin.clerks@.len() && 0 <= j2 < fin.n && (c1 != c2 || j1 != j2)
                            implies #[trigger] fin.cname(c1, j1) != #[trigger] fin.cname(c2, j2) by {
                        let o1 = if c1 < c { c1 } else { c1 + 1 };
                        let o2 = if c2 < c { c2 } else { c2 + 1 };
                        assert(fin.clerks@[c1] == pre.clerks@[o1]);
                        assert(fin.clerks@[c2] == pre.clerks@[o2]);
                        assert(fin.cname(c1, j1) == pre.cname(o1, j1));
                        assert(fin.cname(c2, j2) == pre.cname(o2, j2));
                        assert(pre.cname(o1, j1) != pre.cname(o2, j2));
                    }
                    assert forall|cx: int, jx: int, a: int, k: int|
                        0 <= cx < fin.clerks@.len() && 0 <= jx < fin.n && 0 <= a < fin.n && 0 <= k < fin.n && fin.row_full(a)
                            implies #[trigger] fin.cname(cx, jx) != #[trigger] fin.sname(a, k) by {
                        let o = if cx < c { cx } else { cx + 1 };
                        assert(fin.clerks@[cx] == pre.clerks@[o]);
                        assert(fin.cname(cx, jx) == pre.cname(o, jx));
                        assert(fin.sname(a, k) == pre.sname(a, k));
                        assert(pre.row_full(a));
                        assert(pre.cname(o, jx) != pre.sname(a, k));
                    }
                    assert forall|c1: int, c2: int|
                        0 <= c1 < fin.clerks@.len() && 0 <= c2 < fin.clerks@.len() && c1 != c2 implies (#[trigger] fin.clerks@[c1].name) != (#[trigger] fin.clerks@[c2].name) by {
                        let o1 = if c1 < c { c1 } else { c1 + 1 };
                        let o2 = if c2 < c { c2 } else { c2 + 1 };
                        assert(fin.clerks@[c1] == pre.clerks@[o1]);
                        assert(fin.clerks@[c2] == pre.clerks@[o2]);
                        assert(pre.clerks@[o1].name != pre.clerks@[o2].name);
                    }
                    assert forall|a: int, b: int|
                        0 <= a < fin.n && 0 <= b < fin.n && fin.row_full(a) implies #[trigger] fin.sname(a, b) < fin.ids.val() by {
                        assert(fin.sname(a, b) == pre.sname(a, b));
                        assert(pre.row_full(a));
                        assert(pre.sname(a, b) < pre.ids.val());
                    }
                    assert forall|cx: int, jx: int|
                        0 <= cx < fin.clerks@.len() && 0 <= jx < fin.n implies #[trigger] fin.cname(cx, jx) < fin.ids.val() by {
                        let o = if cx < c { cx } else { cx + 1 };
                        assert(fin.clerks@[cx] == pre.clerks@[o]);
                        assert(fin.cname(cx, jx) == pre.cname(o, jx));
                        assert(pre.cname(o, jx) < pre.ids.val());
                    }
                    assert forall|cx: int| 0 <= cx < fin.clerks@.len() implies (#[trigger] fin.clerks@[cx].name) < fin.ids.val() by {
                        let o = if cx < c { cx } else { cx + 1 };
                        assert(fin.clerks@[cx] == pre.clerks@[o]);
                        assert(pre.clerks@[o].name < pre.ids.val());
                    }
                    assert forall|k: int|
                        0 <= k < fin.n implies ((#[trigger] fin.kvservers@[k]) matches Some(sl) ==> sl.index == k) by {
                        assert(fin.kvservers@[k] == pre.kvservers@[k]);
                    }
                    assert(fin.wf());
                }
                return;
            }
            c = c + 1;
        }
        proof {
            assert(!pre.has_clerk(ck.name));
        }
    }
}


impl Config {
    /// Builds a cluster of `n` simulated servers, each started with empty
    /// persisted state, connects the full mesh, and sets the delivery mode.
    pub fn new(n: usize, unreliable: bool, maxraftstate: u64) -> (r: Config)
        requires
            1 <= n,
            (n as int) * (n as int) <= u64::MAX as int,
            (n as int) + 1000 <= usize::MAX as int,
        ensures
            r.wf(),
            r.n == n,
            r.maxraftstate == maxraftstate,
            r.fully_named(),
            forall|i: int| 0 <= i < n ==> #[trigger] r.live(i),
            forall|i: int| 0 <= i < n ==> #[trigger] r.net.server_live(i),
            forall|i: int, j: int| 0 <= i < n && 0 <= j < n ==> #[trigger] r.link_on(i, j),
            forall|i: int|
                0 <= i < n ==> (#[trigger] r.saved@[i]).state@ == Seq::<u8>::empty()
                    && r.saved@[i].snapshot@ == Seq::<u8>::empty(),
            r.clerks@.len() == 0,
            r.net.count == 0,
            r.rpcs0 == 0,
            r.ops == 0,
            r.net.reliable == !unreliable,
            (r.ids.val() as int) == (n as int) * (n as int),
    {
        let mut kvservers: Vec<Option<ServerSlot>> = Vec::new();
        let mut saved: Vec<Persister> = Vec::new();
        let mut endnames: Vec<Vec<u64>> = Vec::new();
        let mut k: usize = 0;
        while k < n
            invariant
                k <= n,
                kvservers@.len() == k,
                saved@.len() == k,
                endnames@.len() == k,
                forall|t: int| 0 <= t < k ==> (#[trigger] kvservers@[t]) is None,
                forall|t: int|
                    0 <= t < k ==> (#[trigger] saved@[t]).state@ == Seq::<u8>::empty()
                        && saved@[t].snapshot@ == Seq::<u8>::empty(),
                forall|t: int| 0 <= t < k ==> (#[trigger] endnames@[t])@.len() == 0,
            decreases n - k,
        {
            kvservers.push(None);
            saved.push(Persister::new());
            endnames.push(Vec::new());
            k = k + 1;
        }
        let mut cfg = Config {
            net: Network::new(n),
            n,
            ids: IdSource::new(),
            kvservers,
            saved,
            endnames,
            clerks: Vec::new(),
            next_client_id: n + 1000,
            maxraftstate,
            start: clock::instant_now(),
            t0: clock::instant_now(),
            rpcs0: 0,
            ops: 0,
        };
        proof {
            assert forall|i: int| 0 <= i < cfg.n implies !cfg.row_full(i) by {
                assert(cfg.endnames@[i]@.len() == 0);
            }
            assert(cfg.wf());
        }
        let mut i: usize = 0;
        while i < n
            invariant
                i <= n,
                cfg.wf(),
                cfg.n == n,
                cfg.maxraftstate == maxraftstate,
                (cfg.ids.val() as int) == (i as int) * (n as int),
                (n as int) * (n as int) <= u64::MAX as int,
                cfg.clerks@.len() == 0,
                cfg.net.count == 0,
                cfg.rpcs0 == 0,
                cfg.ops == 0,
                cfg.net.reliable,
                forall|t: int| 0 <= t < n ==> (#[trigger] cfg.row_full(t)) == (t < i),
                forall|t: int| 0 <= t < n ==> (#[trigger] cfg.net.server_live(t)) == (t < i),
                forall|t: int| 0 <= t < i ==> #[trigger] cfg.live(t),
                forall|t: int|
                    0 <= t < n ==> (#[trigger] cfg.saved@[t]).state@ == Seq::<u8>::empty()
                        && cfg.saved@[t].snapshot@ == Seq::<u8>::empty(),
            decreases n - i,
        {
            proof {
                assert((i as int) * (n as int) + (n as int) == ((i as int) + 1) * (n as int))
                    by (nonlinear_arith);
                assert(((i as int) + 1) * (n as int) <= (n as int) * (n as int))
                    by (nonlinear_arith)
                    requires
                        (i as int) + 1 <= n as int,
                        0 <= n as int,
                ;
            }
            let ghost before = cfg;
            cfg.start_server(i);
            proof {
                assert forall|t: int| 0 <= t < n implies (#[trigger] cfg.row_full(t)) == (t < i
                    + 1) by {
                    assert(cfg.row_full(t) == (t == i || before.row_full(t)));
                }
                assert forall|t: int| 0 <= t < n implies (#[trigger] cfg.net.server_live(t)) == (
                t < i + 1) by {
                    assert(cfg.net.servers@ == before.net.servers@.update(i as int, true));
                    assert(before.net.server_live(t) == (t < i));
                }
                assert forall|t: int| 0 <= t < i + 1 implies #[trigger] cfg.live(t) by {
                    if t < i {
                        assert(cfg.kvservers@[t] == before.kvservers@[t]);
                        assert(before.live(t));
                    } else {
                        assert(t == i);
                        assert(cfg.live(i as int));
                    }
                }
            }
            i = i + 1;
        }
        let ghost after_loop = cfg;
        cfg.connect_all();
        let ghost before_rel = cfg;
        cfg.net.set_reliable(!unreliable);
        proof {
            Network::lemma_same_clients(before_rel.net, cfg.net);
            assert forall|t: int|
                0 <= t < cfg.n implies ((#[trigger] cfg.kvservers@[t]) matches Some(sl)
                ==> sl.index == t) by {
                assert(cfg.kvservers@[t] == before_rel.kvservers@[t]);
            }
            Config::lemma_wf_structure(before_rel, cfg);
            assert forall|a: int, b: int|
                0 <= a < n && 0 <= b < n implies #[trigger] cfg.link_on(a, b) by {
                assert(before_rel.link_on(a, b));
                assert(cfg.sname(a, b) == before_rel.sname(a, b));
            }
            assert forall|t: int| 0 <= t < n implies #[trigger] cfg.live(t) by {
                assert(cfg.kvservers@[t] == before_rel.kvservers@[t]);
                assert(before_rel.kvservers@[t] == after_loop.kvservers@[t]);
                assert(after_loop.live(t));
            }
            assert forall|t: int| 0 <= t < n implies #[trigger] cfg.net.server_live(t) by {
                assert(cfg.net.servers == before_rel.net.servers);
                assert(before_rel.net.servers == after_loop.net.servers);
                assert(after_loop.net.server_live(t));
            }
            assert forall|t: int| 0 <= t < n implies #[trigger] cfg.row_full(t) by {
                assert(cfg.endnames == before_rel.endnames);
                assert(before_rel.endnames == after_loop.endnames);
                assert(after_loop.row_full(t));
            }
            assert forall|t: int|
                0 <= t < n implies (#[trigger] cfg.saved@[t]).state@ == Seq::<u8>::empty()
                    && cfg.saved@[t].snapshot@ == Seq::<u8>::empty() by {
                assert(cfg.saved == before_rel.saved);
                assert(before_rel.saved == after_loop.saved);
                assert(after_loop.saved@[t].state@ == Seq::<u8>::empty());
                assert(after_loop.saved@[t].snapshot@ == Seq::<u8>::empty());
            }
        }
        cfg
    }

    /// Checks the wall-clock budget measured from construction; reports the
    /// fatal budget violation once the clock says the budget has elapsed.
    pub fn check_timeout(&self) -> (r: Result<(), Error>)
        ensures
            r matches Err(e) ==> e == Error::TestBudgetExceeded,
    {
        let ms = clock::elapsed_millis(&self.start);
        if clock::budget_exceeded(ms) {
            Err(Error::TestBudgetExceeded)
        } else {
            Ok(())
        }
    }

    /// Brackets the start of a test phase: records the phase start time,
    /// snapshots the message-count baseline, and resets the operation
    /// counter.
    pub fn begin(&mut self, _description: &str)
        requires
            old(self).wf(),
        ensures
            final(self).wf(),
            final(self).rpcs0 == old(self).net.count,
            final(self).ops == 0,
            final(self).net == old(self).net,
            final(self).n == old(self).n,
            final(self).ids == old(self).ids,
            final(self).kvservers == old(self).kvservers,
            final(self).saved == old(self).saved,
            final(self).endnames == old(self).endnames,
            final(self).clerks == old(self).clerks,
            final(self).next_client_id == old(self).next_client_id,
            final(self).maxraftstate == old(self).maxraftstate,
            final(self).start == old(self).start,
    {
        self.t0 = clock::instant_now();
        self.rpcs0 = self.net.total_count();
        self.ops = 0;
        proof {
            Config::lemma_wf_same_clients(*old(self), *self);
        }
    }

    /// Brackets the end of a test phase: first enforces the wall-clock
    /// budget (a violation is fatal and reported as `TestBudgetExceeded`),
    /// then reports the elapsed phase time, the messages sent since the
    /// baseline, and the operations counted.
    pub fn end(&mut self) -> (r: Result<EndStats, Error>)
        requires
            old(self).wf(),
        ensures
            *final(self) == *old(self),
            r matches Ok(st) ==> st.npeers == old(self).n && st.nrpc == old(self).net.count - old(
                self,
            ).rpcs0 && st.nops == old(self).ops,
            r matches Err(e) ==> e == Error::TestBudgetExceeded,
    {
        match self.check_timeout() {
            Err(e) => Err(e),
            Ok(()) => {
                let t = clock::elapsed_millis(&self.t0);
                let nrpc = self.net.total_count() - self.rpcs0;
                Ok(EndStats { elapsed_millis: t, npeers: self.n, nrpc, nops: self.ops })
            },
        }
    }

    /// Tears the cluster down: kills every live server slot unconditionally,
    /// then runs the budget check one last time so a hung test still reports
    /// the violation.
    pub fn teardown(&mut self) -> (r: Result<(), Error>)
        requires
            old(self).wf(),
        ensures
            final(self).wf(),
            forall|i: int| 0 <= i < old(self).n ==> !(#[trigger] final(self).live(i)),
            final(self).net == old(self).net,
            final(self).n == old(self).n,
            final(self).ids == old(self).ids,
            final(self).saved == old(self).saved,
            final(self).endnames == old(self).endnames,
            final(self).clerks == old(self).clerks,
            r matches Err(e) ==> e == Error::TestBudgetExceeded,
    {
        let ghost pre = *self;
        let n = self.n;
        let mut i: usize = 0;
        while i < n
            invariant
                pre == *old(self),
                pre.wf(),
                n == pre.n,
                i <= n,
                self.net == pre.net,
                self.n == pre.n,
                self.ids == pre.ids,
                self.saved == pre.saved,
                self.endnames == pre.endnames,
                self.clerks == pre.clerks,
                self.next_client_id == pre.next_client_id,
                self.maxraftstate == pre.maxraftstate,
                self.start == pre.start,
                self.t0 == pre.t0,
                self.rpcs0 == pre.rpcs0,
                self.ops == pre.ops,
                self.kvservers@.len() == pre.kvservers@.len(),
                forall|t: int| 0 <= t < i ==> !(#[trigger] self.live(t)),
            decreases n - i,
        {
            let ghost it0 = *self;
            self.kvservers[i] = None;
            proof {
                assert forall|t: int| 0 <= t < i + 1 implies !(#[trigger] self.live(t)) by {
                    if t < i {
                        assert(self.kvservers@[t] == it0.kvservers@[t]);
                        assert(!it0.live(t));
                    } else {
                        assert(self.kvservers@[t] is None);
                    }
                }
            }
            i = i + 1;
        }
        proof {
            let fin = *self;
            Network::lemma_same_clients(pre.net, fin.net);
            assert forall|t: int|
                0 <= t < fin.n implies ((#[trigger] fin.kvservers@[t]) matches Some(sl)
                ==> sl.index == t) by {
                if t < n {
                    assert(!fin.live(t));
                }
            }
            Config::lemma_wf_structure(pre, fin);
        }
        self.check_timeout()
    }

    /// Whether the directed link from server `i` to server `j` is currently
    /// enabled.
    pub fn link_enabled(&self, i: usize, j: usize) -> (r: bool)
        requires
            self.net.wf(),
            i < self.endnames@.len(),
            j < self.endnames@[i as int]@.len(),
        ensures
            r == self.link_on(i as int, j as int),
    {
        let nm = self.endnames[i][j];
        self.net.is_enabled(nm)
    }

    /// Whether this clerk's link toward server `j` is currently enabled.
    pub fn clerk_link_enabled(&self, ck: &Clerk, j: usize) -> (r: bool)
        requires
            self.wf(),
            self.has_clerk(ck.name),
            j < self.n,
        ensures
            r == self.clerk_link(self.clerk_idx(ck.name), j as int),
    {
        let c = self.find_clerk(ck.name);
        let nm = self.clerks[c].endnames[j];
        self.net.is_enabled(nm)
    }

    /// The number of registered client sessions.
    pub fn clerk_count(&self) -> (r: usize)
        ensures
            r == self.clerks@.len(),
    {
        self.clerks.len()
    }

    /// Whether a server slot is live at index `i`.
    pub fn is_live(&self, i: usize) -> (r: bool)
        requires
            i < self.kvservers@.len(),
        ensures
            r == self.live(i as int),
    {
        self.kvservers[i].is_some()
    }
}

} // verus!
