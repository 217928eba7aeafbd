//! Persisted state: the durable bytes of one server's consensus log and its
//! latest service snapshot, and the continuity copy made on every server
//! shutdown or restart so that a superseded instance can never mutate the
//! state handed to its replacement.

use vstd::prelude::*;

verus! {

/// The durable bytes held for one peer index: the consensus log state and the
/// latest snapshot.
pub struct Persister {
    pub state: Vec<u8>,
    pub snapshot: Vec<u8>,
}

/// An exact copy of a byte vector, element by element.
pub fn copy_bytes(src: &Vec<u8>) -> (r: Vec<u8>)
    ensures
        r@ == src@,
{
    let mut r: Vec<u8> = Vec::new();
    let mut k: usize = 0;
    while k < src.len()
        invariant
            k <= src@.len(),
            r@ == src@.subrange(0, k as int),
        decreases src@.len() - k,
    {
        r.push(src[k]);
        proof {
            assert(r@ =~= src@.subrange(0, k + 1));
        }
        k = k + 1;
    }
    proof {
        assert(src@.subrange(0, src@.len() as int) =~= src@);
    }
    r
}

impl Persister {
    /// A fresh container with no durable bytes yet.
    pub fn new() -> (r: Persister)
        ensures
            r.state@ == Seq::<u8>::empty(),
            r.snapshot@ == Seq::<u8>::empty(),
    {
        let r = Persister { state: Vec::new(), snapshot: Vec::new() };
        proof {
            assert(r.state@ =~= Seq::<u8>::empty());
            assert(r.snapshot@ =~= Seq::<u8>::empty());
        }
        r
    }

    /// Durably replaces both the log state and the snapshot.
    pub fn save_state_and_snapshot(&mut self, state: Vec<u8>, snapshot: Vec<u8>)
        ensures
            final(self).state@ == state@,
            final(self).snapshot@ == snapshot@,
    {
        self.state = state;
        self.snapshot = snapshot;
    }

    /// The current durable log-state bytes.
    pub fn raft_state(&self) -> (r: &Vec<u8>)
        ensures
            r@ == self.state@,
    {
        &self.state
    }

    /// The current durable snapshot bytes.
    pub fn snapshot(&self) -> (r: &Vec<u8>)
        ensures
            r@ == self.snapshot@,
    {
        &self.snapshot
    }
}

/// Allocates a brand-new persisted-state container seeded with a copy of the
/// old container's current durable bytes. The new container is what a
/// replacement server instance is handed, so a write issued later through the
/// old container can never reach it.
pub fn roll_over(old_p: &Persister) -> (r: Persister)
    ensures
        r.state@ == old_p.state@,
        r.snapshot@ == old_p.snapshot@,
{
    Persister { state: copy_bytes(&old_p.state), snapshot: copy_bytes(&old_p.snapshot) }
}

} // verus!
