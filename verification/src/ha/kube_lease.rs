//! Lease-based leader election over `coordination.k8s.io/v1`:
//!
//! - acquire the lease if it is absent, expired, or already ours;
//! - renew at a third of the lease duration;
//! - rely on the API server's `resourceVersion` optimistic concurrency, so two
//!   candidates can never both win a term.
//!
//! The decisions stand here; the caller talks to the API server.

use vstd::prelude::*;

use crate::text::same_text;

verus! {

#[derive(Debug)]
pub struct KubeLeaseConfig {
    pub namespace: String,
    pub lease_name: String,
    /// This worker's identity (typically the pod name).
    pub identity: String,
    pub lease_duration_ms: u64,
}

/// What a lease says, as far as the protocol reads it. Terms are counted in
/// whole seconds.
#[derive(Debug)]
pub struct LeaseState {
    pub holder: Option<String>,
    /// When the holder's term began.
    pub acquired_micros: Option<i64>,
    pub renewed_secs: Option<i64>,
    pub duration_secs: Option<i32>,
    pub transitions: Option<i32>,
}

/// The holder that a lease names; the empty name where it names none.
pub open spec fn holder_of(lease: LeaseState) -> Seq<char> {
    match lease.holder {
        Some(h) => h@,
        None => Seq::empty(),
    }
}

/// Whether the lease ran out by `now_secs`. One that does not say when it was
/// renewed or for how long has.
pub open spec fn expired(lease: LeaseState, now_secs: i64) -> bool {
    match (lease.renewed_secs, lease.duration_secs) {
        (Some(renewed), Some(duration)) => now_secs - renewed > duration,
        _ => true,
    }
}

/// Terms that the lease has seen before.
pub open spec fn terms(lease: LeaseState) -> i32 {
    match lease.transitions {
        Some(n) => n,
        None => 0,
    }
}

/// What a candidate does about the lease.
#[derive(Debug, Clone, Copy, PartialEq, Eq, Structural)]
pub enum LeaseStep {
    /// There is none: create it. A racing candidate may create it first.
    Create,
    /// Ours to renew: replace it, keeping the time it was acquired.
    Renew { transitions: i32 },
    /// Expired in another's hands: replace it, starting a new term.
    TakeOver { transitions: i32 },
    /// Another's, and live.
    Follow,
}

/// What the candidate `identity` does about `lease` at `now_secs`.
pub open spec fn step_for(
    identity: Seq<char>,
    lease: Option<LeaseState>,
    now_secs: i64,
) -> LeaseStep {
    match lease {
        None => LeaseStep::Create,
        Some(l) => if holder_of(l) == identity {
            LeaseStep::Renew { transitions: terms(l) }
        } else if expired(l, now_secs) {
            LeaseStep::TakeOver {
                transitions: if terms(l) == i32::MAX {
                    i32::MIN
                } else {
                    (terms(l) + 1) as i32
                },
            }
        } else {
            LeaseStep::Follow
        },
    }
}

/// How a write of the lease ended.
#[derive(Debug, Clone, Copy, PartialEq, Eq, Structural)]
pub enum LeaseWrite {
    Written,
    /// The lease changed since it was read, or another created it first.
    Conflict,
    Failed,
}

/// Whether a candidate leads after its write: a conflict is a clean loss, and a
/// failure leaves it a follower.
pub fn leads_after(write: LeaseWrite) -> (r: bool)
    ensures
        r == (write is Written),
{
    match write {
        LeaseWrite::Written => true,
        LeaseWrite::Conflict => false,
        LeaseWrite::Failed => false,
    }
}

fn has_expired(lease: &LeaseState, now_secs: i64) -> (r: bool)
    ensures
        r == expired(*lease, now_secs),
{
    match (lease.renewed_secs, lease.duration_secs) {
        (Some(renewed), Some(duration)) => {
            let age: i128 = now_secs as i128 - renewed as i128;
            age > duration as i128
        },
        _ => true,
    }
}

impl KubeLeaseConfig {
    /// The lease duration in whole seconds.
    pub fn duration_secs(&self) -> (secs: i32)
        ensures
            secs == (self.lease_duration_ms / 1000) as i32,
    {
        #[verifier::truncate]
        let secs: i32 = (self.lease_duration_ms / 1000) as i32;
        secs
    }

    /// Milliseconds between two renewals.
    pub fn renew_every_ms(&self) -> (ms: u64)
        ensures
            ms == self.lease_duration_ms / 3,
    {
        self.lease_duration_ms / 3
    }

    /// What this candidate does about the lease at `now_secs`.
    pub fn decide(&self, lease: Option<&LeaseState>, now_secs: i64) -> (step: LeaseStep)
        ensures
            step == step_for(
                self.identity@,
                match lease {
                    Some(l) => Some(*l),
                    None => None,
                },
                now_secs,
            ),
    {
        match lease {
            None => LeaseStep::Create,
            Some(l) => {
                let ours: bool = match &l.holder {
                    Some(h) => same_text(h.as_str(), self.identity.as_str()),
                    None => {
                        proof {
                            reveal_strlit("");
                            assert(""@ =~= Seq::<char>::empty());
                        }
                        same_text("", self.identity.as_str())
                    },
                };
                let transitions: i32 = match l.transitions {
                    Some(n) => n,
                    None => 0,
                };
                if ours {
                    LeaseStep::Renew { transitions }
                } else if has_expired(l, now_secs) {
                    let next: i32 = if transitions == i32::MAX {
                        i32::MIN
                    } else {
                        transitions + 1
                    };
                    LeaseStep::TakeOver { transitions: next }
                } else {
                    LeaseStep::Follow
                }
            },
        }
    }

    /// The lease that this candidate writes for `step` at `now_secs`; `None`
    /// when it follows. A renewal goes on with the term that began at `since`;
    /// any other write begins one at `now_micros`.
    pub fn claim(
        &self,
        step: LeaseStep,
        since: Option<i64>,
        now_secs: i64,
        now_micros: i64,
    ) -> (r: Option<LeaseState>)
        ensures
            r is None <==> step is Follow,
            r matches Some(l) ==> claims(l, self, step, now_secs) && l.acquired_micros
                == term_start(step, since, now_micros),
    {
        let transitions: i32 = match step {
            LeaseStep::Create => 0,
            LeaseStep::Renew { transitions } => transitions,
            LeaseStep::TakeOver { transitions } => transitions,
            LeaseStep::Follow => {
                return None;
            },
        };
        let acquired_micros: Option<i64> = match step {
            LeaseStep::Renew { .. } => since,
            _ => Some(now_micros),
        };
        Some(
            LeaseState {
                holder: Some(self.identity.clone()),
                acquired_micros,
                renewed_secs: Some(now_secs),
                duration_secs: Some(self.duration_secs()),
                transitions: Some(transitions),
            },
        )
    }
}

/// When the term of a write begins: a renewal keeps the time.
pub open spec fn term_start(step: LeaseStep, since: Option<i64>, now_micros: i64) -> Option<i64> {
    if step is Renew {
        since
    } else {
        Some(now_micros)
    }
}

/// `l` is the claim of `cfg` for `step`.
pub open spec fn claims(
    l: LeaseState,
    cfg: &KubeLeaseConfig,
    step: LeaseStep,
    now_secs: i64,
) -> bool {
    &&& l.holder is Some
    &&& holder_of(l) == cfg.identity@
    &&& l.renewed_secs == Some(now_secs)
    &&& l.duration_secs == Some((cfg.lease_duration_ms / 1000) as i32)
    &&& l.transitions == Some(
        match step {
            LeaseStep::Renew { transitions } => transitions,
            LeaseStep::TakeOver { transitions } => transitions,
            _ => 0,
        },
    )
}

/// **A claim holds for its duration**: until it runs out no other candidate
/// writes the lease, and its holder renews it within the same term.
pub proof fn a_claim_holds_for_its_duration(
    cfg: &KubeLeaseConfig,
    step: LeaseStep,
    lease: LeaseState,
    claimed_secs: i64,
    other: Seq<char>,
    now_secs: i64,
)
    requires
        claims(lease, cfg, step, claimed_secs),
        other != cfg.identity@,
    ensures
        now_secs - claimed_secs <= (cfg.lease_duration_ms / 1000) as i32 ==> step_for(
            other,
            Some(lease),
            now_secs,
        ) is Follow,
        now_secs - claimed_secs > (cfg.lease_duration_ms / 1000) as i32 ==> step_for(
            other,
            Some(lease),
            now_secs,
        ) is TakeOver,
        step_for(cfg.identity@, Some(lease), now_secs) == (LeaseStep::Renew {
            transitions: lease.transitions->Some_0,
        }),
{
}

/// **A takeover starts a new term**, and a renewal does not.
pub proof fn a_takeover_starts_a_new_term(
    identity: Seq<char>,
    lease: LeaseState,
    now_secs: i64,
)
    ensures
        step_for(identity, Some(lease), now_secs) matches LeaseStep::TakeOver { transitions }
            ==> transitions != terms(lease),
        step_for(identity, Some(lease), now_secs) matches LeaseStep::Renew { transitions }
            ==> transitions == terms(lease),
{
}

/// **A lease is taken only where it is free**: created where there is none,
/// renewed by the one it names, followed by any other while it says that it
/// runs and has not run out, and taken over, with one more transition, where it
/// has or does not say so.
pub proof fn a_lease_is_taken_only_where_it_is_free(
    identity: Seq<char>,
    lease: LeaseState,
    now_secs: i64,
)
    ensures
        step_for(identity, None, now_secs) is Create,
        ({
            let ours = match lease.holder {
                Some(h) => h@ == identity,
                None => identity.len() == 0,
            };
            let running = lease.renewed_secs is Some && lease.duration_secs is Some && now_secs
                - lease.renewed_secs->Some_0 <= lease.duration_secs->Some_0;
            let step = step_for(identity, Some(lease), now_secs);
            &&& step is Renew <==> ours
            &&& step is Follow <==> !ours && running
            &&& step is TakeOver <==> !ours && !running
            &&& step matches LeaseStep::Renew { transitions } ==> transitions == match
                lease.transitions {
                Some(n) => n,
                None => 0,
            }
            &&& step matches LeaseStep::TakeOver { transitions } ==> match lease.transitions {
                Some(n) => n < i32::MAX ==> transitions == n + 1,
                None => transitions == 1,
            }
        }),
{
    if lease.holder is None && identity.len() == 0 {
        assert(identity =~= Seq::<char>::empty());
    }
}

/// **A claim names its holder and its moment**: it carries the candidate's name,
/// the time and the duration in whole seconds, and the transitions of its step;
/// a renewal keeps the beginning of the term, and any other write begins one.
pub proof fn a_claim_names_its_holder(
    l: LeaseState,
    cfg: &KubeLeaseConfig,
    step: LeaseStep,
    now_secs: i64,
    since: Option<i64>,
    now_micros: i64,
)
    requires
        claims(l, cfg, step, now_secs),
        l.acquired_micros == term_start(step, since, now_micros),
        cfg.lease_duration_ms <= 2_147_483_647_999,
    ensures
        l.holder is Some && l.holder->Some_0@ == cfg.identity@,
        l.renewed_secs == Some(now_secs),
        l.duration_secs is Some,
        1000 * l.duration_secs->Some_0 <= cfg.lease_duration_ms < 1000 * (l.duration_secs->Some_0
            + 1),
        step is Create ==> l.transitions == Some(0i32),
        step matches LeaseStep::Renew { transitions } ==> l.transitions == Some(transitions)
            && l.acquired_micros == since,
        step matches LeaseStep::TakeOver { transitions } ==> l.transitions == Some(transitions),
        !(step is Renew) ==> l.acquired_micros == Some(now_micros),
{
}

/// **A lease is renewed three times in its duration**, and only a write that was
/// taken makes a leader.
pub proof fn a_lease_is_renewed_three_times(
    cfg: KubeLeaseConfig,
    ms: u64,
    write: LeaseWrite,
    leads: bool,
)
    requires
        call_ensures(KubeLeaseConfig::renew_every_ms, (&cfg,), ms),
        call_ensures(leads_after, (write,), leads),
    ensures
        3 * ms <= cfg.lease_duration_ms < 3 * (ms + 1),
        leads <==> write == LeaseWrite::Written,
{
}

/// **A decision leaves a running lease to its holder**: the candidate it names
/// renews it, and no other writes it before it has run out.
pub proof fn a_running_lease_is_left_alone(
    cfg: KubeLeaseConfig,
    lease: LeaseState,
    now_secs: i64,
    step: LeaseStep,
    since: Option<i64>,
    now_micros: i64,
    r: Option<LeaseState>,
)
    requires
        call_ensures(KubeLeaseConfig::decide, (&cfg, Some(&lease), now_secs), step),
        call_ensures(KubeLeaseConfig::claim, (&cfg, step, since, now_secs, now_micros), r),
        lease.holder is Some,
        lease.renewed_secs is Some && lease.duration_secs is Some,
        now_secs - lease.renewed_secs->Some_0 <= lease.duration_secs->Some_0,
    ensures
        lease.holder->Some_0@ != cfg.identity@ ==> step is Follow && r is None,
        lease.holder->Some_0@ == cfg.identity@ ==> step is Renew && r is Some
            && r->Some_0.holder is Some && r->Some_0.holder->Some_0@ == cfg.identity@
            && r->Some_0.acquired_micros == since,
{
    a_lease_is_taken_only_where_it_is_free(cfg.identity@, lease, now_secs);
}

/// **A lease that ran out is taken for a term of its own**: the candidate becomes its
/// holder from now on, renewed now, and the term counts one more.
pub proof fn a_lease_that_ran_out_is_taken(
    cfg: KubeLeaseConfig,
    lease: LeaseState,
    now_secs: i64,
    step: LeaseStep,
    since: Option<i64>,
    now_micros: i64,
    r: Option<LeaseState>,
)
    requires
        call_ensures(KubeLeaseConfig::decide, (&cfg, Some(&lease), now_secs), step),
        call_ensures(KubeLeaseConfig::claim, (&cfg, step, since, now_secs, now_micros), r),
        lease.holder is Some && lease.holder->Some_0@ != cfg.identity@,
        lease.renewed_secs is Some && lease.duration_secs is Some,
        now_secs - lease.renewed_secs->Some_0 > lease.duration_secs->Some_0,
    ensures
        step is TakeOver,
        r matches Some(l) && {
            &&& l.holder is Some && l.holder->Some_0@ == cfg.identity@
            &&& l.renewed_secs == Some(now_secs)
            &&& l.acquired_micros == Some(now_micros)
            &&& lease.transitions is Some && lease.transitions->Some_0 < i32::MAX
                ==> l.transitions == Some((lease.transitions->Some_0 + 1) as i32)
        },
{
    a_lease_is_taken_only_where_it_is_free(cfg.identity@, lease, now_secs);
}

} // verus!
