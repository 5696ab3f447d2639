//! High availability: leader election.
//!
//! Every worker ingests and serves queries; only the leader commits to the
//! catalog. [`LeaderElector`] abstracts how leadership is decided:
//!
//! - [`StaticElector`]: fixed answer, for standalone mode.
//! - [`LeaderFlag`]: what an election loop over a lease flips; see
//!   [`kube_lease`].

pub mod kube_lease;

use vstd::prelude::*;

verus! {

pub trait LeaderElector: Send + Sync {
    /// Whether this worker leads.
    spec fn leads(&self) -> bool;

    fn is_leader(&self) -> (r: bool)
        ensures
            r == self.leads(),
    ;
}

/// Fixed leadership: standalone workers are always leaders.
#[derive(Debug, Clone, Copy)]
pub struct StaticElector(pub bool);

impl LeaderElector for StaticElector {
    open spec fn leads(&self) -> bool {
        self.0
    }

    fn is_leader(&self) -> (r: bool) {
        self.0
    }
}

/// The flag that an election loop flips.
#[derive(Debug, Clone, Copy)]
pub struct LeaderFlag(bool);

impl Default for LeaderFlag {
    fn default() -> (f: LeaderFlag)
        ensures
            !f.leads(),
    {
        LeaderFlag(false)
    }
}

impl LeaderFlag {
    pub fn set(&mut self, leader: bool)
        ensures
            final(self).leads() == leader,
    {
        self.0 = leader;
    }
}

impl LeaderElector for LeaderFlag {
    closed spec fn leads(&self) -> bool {
        self.0
    }

    fn is_leader(&self) -> (r: bool) {
        self.0
    }
}

} // verus!
