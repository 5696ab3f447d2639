//! Leader election.

use blaze::ha::kube_lease::{leads_after, KubeLeaseConfig, LeaseState, LeaseStep, LeaseWrite};
use blaze::ha::{LeaderElector, LeaderFlag, StaticElector};

fn config(identity: &str) -> KubeLeaseConfig {
    KubeLeaseConfig {
        namespace: "default".to_string(),
        lease_name: "blaze-committer".to_string(),
        identity: identity.to_string(),
        lease_duration_ms: 15_000,
    }
}

#[test]
fn the_first_candidate_creates_the_lease_and_leads() {
    let a = config("a");
    let step = a.decide(None, 1_000);
    assert_eq!(step, LeaseStep::Create);
    let lease = a.claim(step, None, 1_000, 1_000_500_000).unwrap();
    assert_eq!(lease.holder.as_deref(), Some("a"));
    assert_eq!(lease.acquired_micros, Some(1_000_500_000));
    assert_eq!(lease.transitions, Some(0));
    assert_eq!(lease.duration_secs, Some(15));
    assert!(leads_after(LeaseWrite::Written));
}

#[test]
fn a_live_lease_held_by_another_worker_cannot_be_taken() {
    let lease = config("a").claim(LeaseStep::Create, None, 1_000, 1_000_000_000).unwrap();
    let b = config("b");
    assert_eq!(b.decide(Some(&lease), 1_010), LeaseStep::Follow);
    assert_eq!(b.decide(Some(&lease), 1_015), LeaseStep::Follow);
    assert!(b.claim(LeaseStep::Follow, Some(7), 1_010, 1_010_000_000).is_none());
}

#[test]
fn renewing_keeps_the_same_term() {
    let a = config("a");
    let lease = a
        .claim(LeaseStep::TakeOver { transitions: 4 }, Some(7), 1_000, 1_000_000_003)
        .unwrap();
    assert_eq!(a.decide(Some(&lease), 1_005), LeaseStep::Renew { transitions: 4 });
    let renewed = a
        .claim(
            LeaseStep::Renew { transitions: 4 },
            lease.acquired_micros,
            1_005,
            1_005_000_000,
        )
        .unwrap();
    assert_eq!(lease.acquired_micros, Some(1_000_000_003), "a takeover begins a term");
    assert_eq!(renewed.acquired_micros, Some(1_000_000_003), "a renewal goes on with it");
    assert_eq!(renewed.renewed_secs, Some(1_005));
    assert_eq!(renewed.transitions, Some(4));
}

#[test]
fn an_expired_lease_is_taken_over_and_counts_a_transition() {
    let lease = config("a").claim(LeaseStep::Create, None, 1_000, 1_000_000_000).unwrap();
    let b = config("b");
    assert_eq!(b.decide(Some(&lease), 1_010), LeaseStep::Follow);
    let step = b.decide(Some(&lease), 1_016);
    assert_eq!(step, LeaseStep::TakeOver { transitions: 1 });
    let taken = b.claim(step, lease.acquired_micros, 1_016, 1_016_000_000).unwrap();
    assert!(leads_after(LeaseWrite::Written));
    assert_eq!(taken.holder.as_deref(), Some("b"));
    assert_eq!(taken.transitions, Some(1), "a handover must be counted");
    assert_eq!(taken.acquired_micros, Some(1_016_000_000));
    assert_eq!(config("a").decide(Some(&taken), 1_017), LeaseStep::Follow);
    // One that does not say how long it lasts has run out.
    let vague = LeaseState {
        holder: Some("a".to_string()),
        acquired_micros: None,
        renewed_secs: Some(1_000),
        duration_secs: None,
        transitions: None,
    };
    assert_eq!(b.decide(Some(&vague), 1_000), LeaseStep::TakeOver { transitions: 1 });
}

#[test]
fn losing_the_resource_version_race_is_a_clean_loss() {
    let a = config("a");
    let lease = a.claim(LeaseStep::Create, None, 1_000, 1_000_000_000).unwrap();
    // Someone else writes between the read and the write.
    assert_eq!(a.decide(Some(&lease), 1_005), LeaseStep::Renew { transitions: 0 });
    assert!(!leads_after(LeaseWrite::Conflict), "a lost race reads as 'not leader'");
    assert!(!leads_after(LeaseWrite::Failed));
    // The next round recovers: losing a race is not losing the lease.
    let step = a.decide(Some(&lease), 1_010);
    assert_eq!(step, LeaseStep::Renew { transitions: 0 });
    let renewed = a.claim(step, lease.acquired_micros, 1_010, 1_010_000_000).unwrap();
    assert!(leads_after(LeaseWrite::Written));
    assert_eq!(renewed.holder.as_deref(), Some("a"));
    assert_eq!(renewed.transitions, Some(0));
}

#[test]
fn the_election_loop_drives_the_leader_flag() {
    let mut flag = LeaderFlag::default();
    assert!(!flag.is_leader());
    flag.set(leads_after(LeaseWrite::Written));
    assert!(flag.is_leader());
    flag.set(leads_after(LeaseWrite::Conflict));
    assert!(!flag.is_leader());
    assert_eq!(config("a").renew_every_ms(), 5_000);
}

#[test]
fn a_static_elector_answers_what_it_was_given() {
    assert!(StaticElector(true).is_leader());
    assert!(!StaticElector(false).is_leader());
}
