//! What makes a store fit for commits.

use blaze::storage::conformance::PutOutcome::{AlreadyExists, Created, Failed};
use blaze::storage::conformance::{
    check_fresh_put, check_kept_first, check_kept_winner, check_race, check_repeated_put,
    racer_body, Answer, ConformanceError, Probe, PutOutcome, Verdict, FIRST_BODY, RACERS, ROUNDS,
    SECOND_BODY,
};
use std::collections::BTreeMap;

/// A store in memory, with the faults a real one may have.
#[derive(Default)]
struct Store {
    objects: BTreeMap<String, String>,
    ignores_precondition: bool,
    writes_on_conflict: bool,
    lets_racers_in: bool,
}

impl Store {
    fn put(&mut self, key: &str, body: &str) -> PutOutcome {
        let taken = self.objects.contains_key(key);
        if taken && !self.ignores_precondition && !(self.lets_racers_in && key.starts_with("run-race")) {
            if self.writes_on_conflict {
                self.objects.insert(key.to_string(), body.to_string());
            }
            return PutOutcome::AlreadyExists;
        }
        self.objects.insert(key.to_string(), body.to_string());
        PutOutcome::Created
    }

    fn get(&self, key: &str) -> Option<&str> {
        self.objects.get(key).map(|s| s.as_str())
    }
}

/// Probes `store`: the verdict, and the keys that were opened.
fn probe(store: &mut Store) -> (Result<usize, ConformanceError>, Vec<String>) {
    let mut keys = Vec::new();
    let mut probe = Probe::first();
    let mut steps = 0;
    loop {
        let key = probe.key("run");
        if probe.opens_key() {
            keys.push(key.clone());
        }
        let answer = match probe {
            Probe::PutFirst => Answer::Put(store.put(&key, FIRST_BODY)),
            Probe::PutSecond => Answer::Put(store.put(&key, SECOND_BODY)),
            Probe::ReadFirst | Probe::ReadWinner { .. } => {
                Answer::Read(store.get(&key).map(|s| s.to_string()))
            }
            Probe::Race { .. } => {
                Answer::Raced((0..RACERS).map(|n| store.put(&key, &racer_body(n))).collect())
            }
        };
        steps += 1;
        match probe.judge(&answer) {
            Verdict::Next(p) => probe = p,
            Verdict::Conforms => return (Ok(steps), keys),
            Verdict::Unfit(e) => return (Err(e), keys),
        }
    }
}

fn verify(store: &mut Store) -> Result<(), ConformanceError> {
    probe(store).0.map(|_| ())
}

#[test]
fn a_store_that_arbitrates_conforms() {
    assert_eq!(verify(&mut Store::default()), Ok(()));
}

#[test]
fn a_store_that_ignores_the_precondition_is_rejected() {
    let mut s = Store { ignores_precondition: true, ..Default::default() };
    assert_eq!(verify(&mut s), Err(ConformanceError::OverwritesOnCreate));
}

#[test]
fn a_store_that_conflicts_but_writes_anyway_is_rejected() {
    let mut s = Store { writes_on_conflict: true, ..Default::default() };
    assert_eq!(verify(&mut s), Err(ConformanceError::ConflictButOverwrote));
}

#[test]
fn a_store_that_does_not_arbitrate_races_is_rejected() {
    let mut s = Store { lets_racers_in: true, ..Default::default() };
    let e = verify(&mut s).unwrap_err();
    assert_eq!(e, ConformanceError::ConcurrentWinners { winners: 8, racers: 8 });
    assert!(e.to_text("").starts_with("8 of 8 concurrent conditional puts"));
}

#[test]
fn every_failure_has_its_error() {
    assert_eq!(check_fresh_put(AlreadyExists), Err(ConformanceError::CreateUnsupported));
    assert_eq!(check_fresh_put(Failed), Err(ConformanceError::CreateUnsupported));
    assert_eq!(check_repeated_put(Failed), Err(ConformanceError::Unusable));
    assert_eq!(check_kept_first(None), Err(ConformanceError::ConflictButOverwrote));
    assert_eq!(check_race(&[Created, Failed]), Err(ConformanceError::Unusable));
    assert_eq!(
        check_race(&[AlreadyExists, AlreadyExists]),
        Err(ConformanceError::ConcurrentWinners { winners: 0, racers: 2 })
    );
    assert_eq!(check_race(&[AlreadyExists, Created, AlreadyExists]), Ok(1));
    assert_eq!(racer_body(3), "racer-3");
    assert_eq!(check_kept_winner(Some("racer-2"), 3), Err(ConformanceError::WinnerNotStored));
    assert_eq!(
        ConformanceError::Unusable.to_text("offline"),
        "probing the store failed: offline"
    );
    assert!(ConformanceError::CreateUnsupported.to_text("no").contains("fresh key: no. PutMode"));
}

#[test]
fn a_passing_run_makes_every_probe() {
    let (steps, keys) = probe(&mut Store::default());
    assert_eq!(steps, Ok(3 + 2 * ROUNDS));
    assert_eq!(
        keys,
        vec!["run-sequential", "run-race-0", "run-race-1", "run-race-2", "run-race-3"]
    );
}

#[test]
fn a_probe_without_an_answer_is_unusable() {
    let unusable = Verdict::Unfit(ConformanceError::Unusable);
    assert_eq!(Probe::PutSecond.judge(&Answer::Put(Failed)), unusable);
    assert_eq!(Probe::ReadFirst.judge(&Answer::Nothing), unusable);
    assert_eq!(Probe::Race { round: 1 }.judge(&Answer::Raced(vec![Created, Failed])), unusable);
    assert_eq!(Probe::Race { round: 1 }.judge(&Answer::Nothing), unusable);
    let read = Probe::ReadWinner { round: 3, winner: 2 };
    assert_eq!(read.judge(&Answer::Read(Some("racer-2".to_string()))), Verdict::Conforms);
    assert_eq!(
        read.judge(&Answer::Read(Some("racer-1".to_string()))),
        Verdict::Unfit(ConformanceError::WinnerNotStored)
    );
    assert_eq!(
        read.judge(&Answer::Read(None)),
        Verdict::Unfit(ConformanceError::WinnerNotStored)
    );
}
