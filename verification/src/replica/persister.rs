use vstd::prelude::*;

verus! {

/// Where a peer keeps what must survive a restart: its Raft state and the
/// snapshot of its state machine, each the bytes of the last save.
pub trait Persister {
    /// The Raft state last saved.
    spec fn saved_state(&self) -> Seq<u8>;

    /// The snapshot last saved.
    spec fn saved_snapshot(&self) -> Seq<u8>;

    /// The Raft state last saved.
    fn raft_state(&self) -> (r: Vec<u8>)
        ensures
            r@ == self.saved_state(),
    ;

    /// Saves the Raft state; the snapshot stays.
    fn save_raft_state(&mut self, state: Vec<u8>)
        ensures
            final(self).saved_state() == state@,
            final(self).saved_snapshot() == old(self).saved_snapshot(),
    ;

    /// Saves the Raft state and the snapshot together.
    fn save_state_and_snapshot(&mut self, state: Vec<u8>, snapshot: Vec<u8>)
        ensures
            final(self).saved_state() == state@,
            final(self).saved_snapshot() == snapshot@,
    ;

    /// The snapshot last saved.
    fn snapshot(&self) -> (r: Vec<u8>)
        ensures
            r@ == self.saved_snapshot(),
    ;
}

/// A persister that keeps both in memory.
pub struct SimplePersister {
    state: Vec<u8>,
    snapshot: Vec<u8>,
}

impl SimplePersister {
    /// A persister that saved nothing yet: both are empty.
    pub fn new() -> (p: SimplePersister)
        ensures
            p.saved_state() == Seq::<u8>::empty(),
            p.saved_snapshot() == Seq::<u8>::empty(),
    {
        SimplePersister { state: Vec::new(), snapshot: Vec::new() }
    }
}

impl Persister for SimplePersister {
    closed spec fn saved_state(&self) -> Seq<u8> {
        self.state@
    }

    closed spec fn saved_snapshot(&self) -> Seq<u8> {
        self.snapshot@
    }

    fn raft_state(&self) -> (r: Vec<u8>) {
        self.state.clone()
    }

    fn save_raft_state(&mut self, state: Vec<u8>) {
        self.state = state;
    }

    fn save_state_and_snapshot(&mut self, state: Vec<u8>, snapshot: Vec<u8>) {
        self.state = state;
        self.snapshot = snapshot;
    }

    fn snapshot(&self) -> (r: Vec<u8>) {
        self.snapshot.clone()
    }
}

impl<T: Persister> Persister for Box<T> {
    open spec fn saved_state(&self) -> Seq<u8> {
        (**self).saved_state()
    }

    open spec fn saved_snapshot(&self) -> Seq<u8> {
        (**self).saved_snapshot()
    }

    fn raft_state(&self) -> (r: Vec<u8>) {
        (**self).raft_state()
    }

    fn save_raft_state(&mut self, state: Vec<u8>) {
        (**self).save_raft_state(state)
    }

    fn save_state_and_snapshot(&mut self, state: Vec<u8>, snapshot: Vec<u8>) {
        (**self).save_state_and_snapshot(state, snapshot)
    }

    fn snapshot(&self) -> (r: Vec<u8>) {
        (**self).snapshot()
    }
}

} // verus!
