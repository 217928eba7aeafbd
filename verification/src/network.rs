//! The simulated network's bookkeeping as the harness core owns it: the
//! registry of named client endpoints with their independently switchable
//! enable flags and their target server, the set of live inbound server
//! registrations, the global sent-message counter, and the reliability flag.
//! Message delivery itself is out of scope; what is modelled here is exactly
//! the directed connectivity state that partitions and shutdowns mutate.

use vstd::prelude::*;

verus! {

/// One named client endpoint: the server id its messages are addressed to
/// (once connected) and whether the link is currently enabled.
#[derive(Clone, Copy)]
pub struct Endpoint {
    pub name: u64,
    pub target: Option<usize>,
    pub enabled: bool,
}

/// The connectivity state of the simulated network.
pub struct Network {
    /// Every client endpoint ever created, in creation order; names strictly
    /// increase with creation order and are never reused.
    pub clients: Vec<Endpoint>,
    /// Which server ids currently have a live inbound registration.
    pub servers: Vec<bool>,
    /// Total messages sent, as the delivery simulator reports them.
    pub count: usize,
    /// Whether delivery is currently reliable.
    pub reliable: bool,
}

impl Network {
    /// Endpoint names strictly increase with creation order, so every name
    /// denotes at most one endpoint.
    pub open spec fn wf(self) -> bool {
        forall|k1: int, k2: int|
            0 <= k1 < k2 < self.clients.len() ==> self.clients[k1].name < self.clients[k2].name
    }

    /// Whether an endpoint of this name has been created.
    pub open spec fn has_name(self, name: u64) -> bool {
        exists|k: int| 0 <= k < self.clients.len() && self.clients[k].name == name
    }

    /// The index of the endpoint of this name (meaningful when `has_name`).
    pub open spec fn idx_of(self, name: u64) -> int {
        choose|k: int| 0 <= k < self.clients.len() && self.clients[k].name == name
    }

    /// Whether the endpoint of this name is currently enabled; a name that
    /// was never created is never enabled.
    pub open spec fn enabled_of(self, name: u64) -> bool {
        self.has_name(name) && self.clients[self.idx_of(name)].enabled
    }

    /// The server id the endpoint of this name is connected to.
    pub open spec fn target_of(self, name: u64) -> Option<usize> {
        if self.has_name(name) {
            self.clients[self.idx_of(name)].target
        } else {
            None
        }
    }

    /// Every created endpoint's name lies below this bound.
    pub open spec fn names_below(self, bound: u64) -> bool {
        forall|k: int| 0 <= k < self.clients.len() ==> self.clients[k].name < bound
    }

    /// Whether server id `i` currently has a live inbound registration.
    pub open spec fn server_live(self, i: int) -> bool {
        0 <= i < self.servers.len() && self.servers[i]
    }

    /// An endpoint found at an index is the one `idx_of` denotes.
    pub proof fn lemma_found(self, k: int, name: u64)
        requires
            self.wf(),
            0 <= k < self.clients.len(),
            self.clients[k].name == name,
        ensures
            self.has_name(name),
            self.idx_of(name) == k,
    {
        assert(self.has_name(name));
        let k0 = self.idx_of(name);
        assert(0 <= k0 < self.clients.len() && self.clients[k0].name == name);
        if k0 < k {
            assert(self.clients[k0].name < self.clients[k].name);
        } else if k0 > k {
            assert(self.clients[k].name < self.clients[k0].name);
        }
    }

    /// Two well-formed networks with the same endpoint entries agree on every
    /// name's registration, flag and target.
    pub proof fn lemma_same_clients(a: Network, b: Network)
        requires
            a.wf(),
            a.clients == b.clients,
        ensures
            b.wf(),
            forall|m: u64| #![trigger b.has_name(m)] b.has_name(m) == a.has_name(m),
            forall|m: u64| #![trigger b.enabled_of(m)] b.enabled_of(m) == a.enabled_of(m),
            forall|m: u64| #![trigger b.target_of(m)] b.target_of(m) == a.target_of(m),
            forall|bd: u64| #![trigger b.names_below(bd)] b.names_below(bd) == a.names_below(bd),
    {
        assert forall|k1: int, k2: int|
            0 <= k1 < k2 < b.clients.len() implies b.clients[k1].name < b.clients[k2].name by {
            assert(a.clients[k1].name < a.clients[k2].name);
        }
        assert forall|m: u64| #![all_triggers]
            b.has_name(m) == a.has_name(m) && b.enabled_of(m) == a.enabled_of(m) && b.target_of(m)
                == a.target_of(m) by {
            if a.has_name(m) {
                let k = a.idx_of(m);
                assert(b.clients[k].name == m);
                b.lemma_found(k, m);
                a.lemma_found(k, m);
            }
            if b.has_name(m) {
                let k = b.idx_of(m);
                assert(a.clients[k].name == m);
                a.lemma_found(k, m);
                b.lemma_found(k, m);
            }
        }
        assert forall|bd: u64| #![trigger b.names_below(bd)]
            b.names_below(bd) == a.names_below(bd) by {
            assert forall|k: int|
                0 <= k < b.clients.len() && a.names_below(bd) implies (
            #[trigger] b.clients[k]).name < bd by {
                assert(a.clients[k].name < bd);
            }
            assert forall|k: int|
                0 <= k < a.clients.len() && b.names_below(bd) implies (
            #[trigger] a.clients[k]).name < bd by {
                assert(b.clients[k].name < bd);
            }
        }
    }

    /// A fresh network for `n` server slots: no endpoints, no live servers,
    /// no messages counted, reliable delivery.
    pub fn new(n: usize) -> (r: Network)
        ensures
            r.wf(),
            r.clients@.len() == 0,
            r.servers@.len() == n,
            forall|i: int| 0 <= i < n ==> !r.servers@[i],
            r.count == 0,
            r.reliable,
            forall|m: u64| #![trigger r.has_name(m)] !r.has_name(m),
            forall|m: u64| #![trigger r.enabled_of(m)] !r.enabled_of(m),
    {
        let mut servers: Vec<bool> = Vec::new();
        let mut i: usize = 0;
        while i < n
            invariant
                i <= n,
                servers@.len() == i,
                forall|k: int| 0 <= k < i ==> !servers@[k],
            decreases n - i,
        {
            servers.push(false);
            i = i + 1;
        }
        Network { clients: Vec::new(), servers, count: 0, reliable: true }
    }

    /// Creates a client endpoint under a fresh name. It starts disabled and
    /// unconnected.
    pub fn create_client(&mut self, name: u64)
        requires
            old(self).wf(),
            old(self).names_below(name),
        ensures
            final(self).wf(),
            forall|b: u64| #![trigger final(self).names_below(b)]
                old(self).names_below(b) && name < b ==> final(self).names_below(b),
            final(self).clients@ == old(self).clients@.push(
                Endpoint { name, target: None, enabled: false },
            ),
            final(self).servers == old(self).servers,
            final(self).count == old(self).count,
            final(self).reliable == old(self).reliable,
            final(self).has_name(name),
            !final(self).enabled_of(name),
            final(self).target_of(name) == Option::<usize>::None,
            forall|m: u64| #![trigger final(self).has_name(m)]
                m != name ==> final(self).has_name(m) == old(self).has_name(m),
            forall|m: u64| #![trigger final(self).enabled_of(m)]
                m != name ==> final(self).enabled_of(m) == old(self).enabled_of(m),
            forall|m: u64| #![trigger final(self).target_of(m)]
                m != name ==> final(self).target_of(m) == old(self).target_of(m),
    {
        let ghost pre = *self;
        let len = self.clients.len();
        self.clients.push(Endpoint { name, target: None, enabled: false });
        proof {
            let post = *self;
            assert forall|k1: int, k2: int|
                0 <= k1 < k2 < post.clients.len() implies post.clients[k1].name
                < post.clients[k2].name by {
                if k2 < len as int {
                    assert(pre.clients[k1].name < pre.clients[k2].name);
                } else {
                    assert(pre.clients[k1].name < name);
                }
            }
            post.lemma_found(len as int, name);
            assert forall|m: u64| #![all_triggers] m != name implies post.has_name(m)
                == pre.has_name(m) && post.enabled_of(m) == pre.enabled_of(m) && post.target_of(m)
                == pre.target_of(m) by {
                if pre.has_name(m) {
                    let k = pre.idx_of(m);
                    assert(post.clients[k].name == m);
                    post.lemma_found(k, m);
                }
                if post.has_name(m) {
                    let k = post.idx_of(m);
                    assert(0 <= k < post.clients.len() && post.clients[k].name == m);
                    assert(k != len as int);
                    assert(pre.clients[k].name == m);
                    pre.lemma_found(k, m);
                }
            }
        }
    }

    /// Connects a client endpoint to a server id: messages from it are
    /// addressed to that server from now on. Unknown names are ignored.
    pub fn connect(&mut self, name: u64, target: usize)
        requires
            old(self).wf(),
        ensures
            final(self).wf(),
            final(self).clients@.len() == old(self).clients@.len(),
            forall|k: int| #![all_triggers] 0 <= k < old(self).clients@.len() ==> (final(self).clients@[k].name == old(self).clients@[k].name && final(self).clients@[k].enabled
                == old(self).clients@[k].enabled),
            final(self).servers == old(self).servers,
            final(self).count == old(self).count,
            final(self).reliable == old(self).reliable,
            forall|m: u64| #![trigger final(self).has_name(m)]
                final(self).has_name(m) == old(self).has_name(m),
            forall|m: u64| #![trigger final(self).enabled_of(m)]
                final(self).enabled_of(m) == old(self).enabled_of(m),
            forall|m: u64| #![trigger final(self).target_of(m)]
                m != name ==> final(self).target_of(m) == old(self).target_of(m),
            old(self).has_name(name) ==> final(self).target_of(name) == Some(target),
            !old(self).has_name(name) ==> final(self).target_of(name)
                == old(self).target_of(name),
    {
        let ghost pre = *self;
        let n = self.clients.len();
        let mut j: usize = 0;
        while j < n
            invariant
                *self == pre,
                pre == *old(self),
                pre.wf(),
                n == self.clients.len(),
                j <= n,
                forall|k: int| 0 <= k < j ==> self.clients@[k].name != name,
            decreases n - j,
        {
            if self.clients[j].name == name {
                let cur = self.clients[j];
                self.clients[j] = Endpoint { name: cur.name, target: Some(target), enabled: cur.enabled };
                proof {
                    let post = *self;
                    assert(post.clients@ == pre.clients@.update(
                        j as int,
                        Endpoint { name, target: Some(target), enabled: pre.clients@[j as int].enabled },
                    ));
                    assert forall|k1: int, k2: int|
                        0 <= k1 < k2 < post.clients.len() implies post.clients[k1].name
                        < post.clients[k2].name by {
                        assert(pre.clients[k1].name < pre.clients[k2].name);
                    }
                    pre.lemma_found(j as int, name);
                    post.lemma_found(j as int, name);
                    assert forall|m: u64| #![all_triggers] true implies post.has_name(m)
                        == pre.has_name(m) && post.enabled_of(m) == pre.enabled_of(m) && (m != name
                        ==> post.target_of(m) == pre.target_of(m)) by {
                        if pre.has_name(m) {
                            let k = pre.idx_of(m);
                            assert(post.clients[k].name == m);
                            post.lemma_found(k, m);
                        }
                        if post.has_name(m) {
                            let k = post.idx_of(m);
                            assert(pre.clients[k].name == m);
                            pre.lemma_found(k, m);
                        }
                    }
                }
                return;
            }
            j = j + 1;
        }
    }

    /// Sets the enable flag of the named endpoint. Unknown names are ignored,
    /// so the operation is total.
    pub fn enable(&mut self, name: u64, on: bool)
        requires
            old(self).wf(),
        ensures
            final(self).wf(),
            final(self).clients@.len() == old(self).clients@.len(),
            forall|k: int| #![all_triggers] 0 <= k < old(self).clients@.len() ==> (final(self).clients@[k].name == old(self).clients@[k].name && final(self).clients@[k].target
                == old(self).clients@[k].target),
            final(self).servers == old(self).servers,
            final(self).count == old(self).count,
            final(self).reliable == old(self).reliable,
            forall|m: u64| #![trigger final(self).has_name(m)]
                final(self).has_name(m) == old(self).has_name(m),
            forall|m: u64| #![trigger final(self).target_of(m)]
                final(self).target_of(m) == old(self).target_of(m),
            forall|m: u64| #![trigger final(self).enabled_of(m)]
                m != name ==> final(self).enabled_of(m) == old(self).enabled_of(m),
            final(self).enabled_of(name) == (old(self).has_name(name) && on),
    {
        let ghost pre = *self;
        let n = self.clients.len();
        let mut j: usize = 0;
        while j < n
            invariant
                *self == pre,
                pre == *old(self),
                pre.wf(),
                n == self.clients.len(),
                j <= n,
                forall|k: int| 0 <= k < j ==> self.clients@[k].name != name,
            decreases n - j,
        {
            if self.clients[j].name == name {
                let cur = self.clients[j];
                self.clients[j] = Endpoint { name: cur.name, target: cur.target, enabled: on };
                proof {
                    let post = *self;
                    assert forall|k1: int, k2: int|
                        0 <= k1 < k2 < post.clients.len() implies post.clients[k1].name
                        < post.clients[k2].name by {
                        assert(pre.clients[k1].name < pre.clients[k2].name);
                    }
                    pre.lemma_found(j as int, name);
                    post.lemma_found(j as int, name);
                    assert forall|m: u64| #![all_triggers] true implies post.has_name(m)
                        == pre.has_name(m) && post.target_of(m) == pre.target_of(m) && (m != name
                        ==> post.enabled_of(m) == pre.enabled_of(m)) by {
                        if pre.has_name(m) {
                            let k = pre.idx_of(m);
                            assert(post.clients[k].name == m);
                            post.lemma_found(k, m);
                        }
                        if post.has_name(m) {
                            let k = post.idx_of(m);
                            assert(pre.clients[k].name == m);
                            pre.lemma_found(k, m);
                        }
                    }
                }
                return;
            }
            j = j + 1;
        }
        proof {
            assert(!pre.has_name(name));
        }
    }

    /// Whether the named endpoint is currently enabled.
    pub fn is_enabled(&self, name: u64) -> (r: bool)
        requires
            self.wf(),
        ensures
            r == self.enabled_of(name),
    {
        let n = self.clients.len();
        let mut j: usize = 0;
        while j < n
            invariant
                self.wf(),
                n == self.clients.len(),
                j <= n,
                forall|k: int| 0 <= k < j ==> self.clients@[k].name != name,
            decreases n - j,
        {
            if self.clients[j].name == name {
                proof {
                    self.lemma_found(j as int, name);
                }
                return self.clients[j].enabled;
            }
            j = j + 1;
        }
        proof {
            assert(!self.has_name(name));
        }
        false
    }

    /// Registers server id `i`: new messages can reach it again.
    pub fn add_server(&mut self, i: usize)
        requires
            i < old(self).servers@.len(),
        ensures
            final(self).servers@ == old(self).servers@.update(i as int, true),
            final(self).clients == old(self).clients,
            final(self).count == old(self).count,
            final(self).reliable == old(self).reliable,
    {
        self.servers[i] = true;
    }

    /// Deregisters server id `i`: no new message can reach it, even through a
    /// stale handle.
    pub fn delete_server(&mut self, i: usize)
        requires
            i < old(self).servers@.len(),
        ensures
            final(self).servers@ == old(self).servers@.update(i as int, false),
            final(self).clients == old(self).clients,
            final(self).count == old(self).count,
            final(self).reliable == old(self).reliable,
    {
        self.servers[i] = false;
    }

    /// The total number of messages sent so far.
    pub fn total_count(&self) -> (r: usize)
        ensures
            r == self.count,
    {
        self.count
    }

    /// Records one sent message; called on behalf of the delivery simulator.
    pub fn record_rpc(&mut self)
        requires
            old(self).count < usize::MAX,
        ensures
            final(self).count == old(self).count + 1,
            final(self).clients == old(self).clients,
            final(self).servers == old(self).servers,
            final(self).reliable == old(self).reliable,
    {
        self.count = self.count + 1;
    }

    /// Switches reliable delivery on or off.
    pub fn set_reliable(&mut self, yes: bool)
        ensures
            final(self).reliable == yes,
            final(self).clients == old(self).clients,
            final(self).servers == old(self).servers,
            final(self).count == old(self).count,
    {
        self.reliable = yes;
    }
}

} // verus!
