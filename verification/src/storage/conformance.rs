//! Does an object store actually provide put-if-absent?
//!
//! The commit protocol is one line: a conditional put must let **exactly one**
//! of N concurrent callers win. That property belongs to the deployed store, so
//! it is a checked precondition: the caller probes the real endpoint at startup,
//! hands what it saw to the functions here, and refuses to lead when one of
//! them says that the property does not hold.

use vstd::prelude::*;

use crate::text::{decimal, decimal_text, push_decimal, said_between, same_text, says};

verus! {

/// How many callers race for one key.
pub const RACERS: usize = 8;

/// How many keys are raced for. Arbitration bugs are not always deterministic;
/// one round would not see them.
pub const ROUNDS: usize = 4;

/// What the first writer of the sequential probe stores.
pub const FIRST_BODY: &'static str = "first";

/// What the second writer of the sequential probe tries to store.
pub const SECOND_BODY: &'static str = "second";

/// How a conditional put ended.
#[derive(Debug, Clone, Copy, PartialEq, Eq, Structural)]
pub enum PutOutcome {
    Created,
    AlreadyExists,
    Failed,
}

/// Why a store cannot be used for leader commits.
#[derive(Debug, Clone, Copy, PartialEq, Eq, Structural)]
pub enum ConformanceError {
    /// A plain conditional put of a fresh key was rejected.
    CreateUnsupported,
    /// A second conditional put of an existing key was accepted.
    OverwritesOnCreate,
    /// A conflict was reported, and the stored bytes changed anyway.
    ConflictButOverwrote,
    /// Other than one of several concurrent conditional puts succeeded.
    ConcurrentWinners { winners: usize, racers: usize },
    /// The winner's value is not what the store kept.
    WinnerNotStored,
    /// Probing the store failed.
    Unusable,
}

/// The words of a [`ConformanceError`], after what the store itself said.
pub open spec fn conformance_text(e: ConformanceError, source: Seq<char>) -> Seq<char> {
    match e {
        ConformanceError::CreateUnsupported =>
            "store rejected a plain conditional put of a fresh key: "@ + source
                + ". PutMode::Create is unsupported here, so snapshot commits have no way to arbitrate between leaders"@,
        ConformanceError::OverwritesOnCreate =>
            "store accepted a second conditional put of an existing key. It is ignoring the precondition, so two leaders would both believe they committed the same snapshot sequence and the topology they publish would silently diverge"@,
        ConformanceError::ConflictButOverwrote =>
            "store reported a conflict for an existing key but the stored bytes changed anyway. The precondition is advisory here, which is worse than not supporting it: the loser of a commit race is told it lost while having overwritten the winner"@,
        ConformanceError::ConcurrentWinners { winners, racers } => decimal(winners as nat)
            + " of "@ + decimal(racers as nat)
            + " concurrent conditional puts of the same fresh key succeeded (expected exactly 1). Concurrent commits are not arbitrated, so split-brain writes would both be accepted"@,
        ConformanceError::WinnerNotStored =>
            "the winner of a concurrent conditional put is not the value the store kept. Whichever caller is told it committed, a different caller's snapshot is what a reader would see"@,
        ConformanceError::Unusable => "probing the store failed: "@ + source,
    }
}

impl ConformanceError {
    /// The error in words; `source` is what the store said.
    pub fn to_text(&self, source: &str) -> (s: String)
        ensures
            s@ == conformance_text(*self, source@),
    {
        match self {
            ConformanceError::CreateUnsupported => {
                let mut s = String::from_str(
                    "store rejected a plain conditional put of a fresh key: ",
                );
                s.append(source);
                s.append(
                    ". PutMode::Create is unsupported here, so snapshot commits have no way to arbitrate between leaders",
                );
                s
            },
            ConformanceError::OverwritesOnCreate => String::from_str(
                "store accepted a second conditional put of an existing key. It is ignoring the precondition, so two leaders would both believe they committed the same snapshot sequence and the topology they publish would silently diverge",
            ),
            ConformanceError::ConflictButOverwrote => String::from_str(
                "store reported a conflict for an existing key but the stored bytes changed anyway. The precondition is advisory here, which is worse than not supporting it: the loser of a commit race is told it lost while having overwritten the winner",
            ),
            ConformanceError::ConcurrentWinners { winners, racers } => {
                let mut s = decimal_text(*winners as u64);
                s.append(" of ");
                push_decimal(&mut s, *racers as u64);
                s.append(
                    " concurrent conditional puts of the same fresh key succeeded (expected exactly 1). Concurrent commits are not arbitrated, so split-brain writes would both be accepted",
                );
                s
            },
            ConformanceError::WinnerNotStored => String::from_str(
                "the winner of a concurrent conditional put is not the value the store kept. Whichever caller is told it committed, a different caller's snapshot is what a reader would see",
            ),
            ConformanceError::Unusable => {
                let mut s = String::from_str("probing the store failed: ");
                s.append(source);
                s
            },
        }
    }
}

/// A fresh key must accept a conditional put. This also rules out a store that
/// reports a conflict unconditionally.
pub fn check_fresh_put(outcome: PutOutcome) -> (r: Result<(), ConformanceError>)
    ensures
        r is Ok <==> outcome is Created,
        r matches Err(e) ==> e is CreateUnsupported,
{
    match outcome {
        PutOutcome::Created => Ok(()),
        _ => Err(ConformanceError::CreateUnsupported),
    }
}

/// The same key must now refuse one.
pub fn check_repeated_put(outcome: PutOutcome) -> (r: Result<(), ConformanceError>)
    ensures
        r is Ok <==> outcome is AlreadyExists,
        r matches Err(e) ==> e == (if outcome is Created {
            ConformanceError::OverwritesOnCreate
        } else {
            ConformanceError::Unusable
        }),
{
    match outcome {
        PutOutcome::AlreadyExists => Ok(()),
        PutOutcome::Created => Err(ConformanceError::OverwritesOnCreate),
        PutOutcome::Failed => Err(ConformanceError::Unusable),
    }
}

/// And the first write must be what is actually stored. `stored` is `None`
/// where the bytes are no text.
pub fn check_kept_first(stored: Option<&str>) -> (r: Result<(), ConformanceError>)
    ensures
        r is Ok <==> stored is Some && stored->Some_0@ == "first"@,
        r matches Err(e) ==> e is ConflictButOverwrote,
{
    if let Some(s) = stored {
        if same_text(s, FIRST_BODY) {
            return Ok(());
        }
    }
    Err(ConformanceError::ConflictButOverwrote)
}

/// What racer `n` stores.
pub open spec fn racer_text(n: nat) -> Seq<char> {
    "racer-"@ + decimal(n)
}

/// What racer `n` stores.
pub fn racer_body(n: usize) -> (s: String)
    ensures
        s@ == racer_text(n as nat),
{
    let mut s = String::from_str("racer-");
    push_decimal(&mut s, n as u64);
    s
}

/// How many of `outcomes` won.
pub open spec fn winners(outcomes: Seq<PutOutcome>) -> nat
    decreases outcomes.len(),
{
    if outcomes.len() == 0 {
        0
    } else {
        winners(outcomes.drop_last()) + if outcomes.last() is Created {
            1nat
        } else {
            0
        }
    }
}

proof fn winners_are_counted(outcomes: Seq<PutOutcome>)
    ensures
        winners(outcomes) <= outcomes.len(),
        winners(outcomes) == 0 ==> forall|i: int|
            0 <= i < outcomes.len() ==> !(#[trigger] outcomes[i] is Created),
    decreases outcomes.len(),
{
    if outcomes.len() > 0 {
        winners_are_counted(outcomes.drop_last());
        assert forall|i: int| winners(outcomes) == 0 && 0 <= i < outcomes.len() implies !(
        #[trigger] outcomes[i] is Created) by {
            if i < outcomes.len() - 1 {
                assert(outcomes.drop_last()[i] == outcomes[i]);
            }
        }
    }
}

/// **Exactly one of the callers that race for a key wins**: the winner, when
/// no put failed and every other caller was told that it lost.
pub fn check_race(outcomes: &[PutOutcome]) -> (r: Result<usize, ConformanceError>)
    ensures
        match r {
            Ok(w) => {
                &&& w < outcomes@.len()
                &&& outcomes@[w as int] is Created
                &&& forall|i: int|
                    0 <= i < outcomes@.len() && i != w ==> #[trigger] outcomes@[i] is AlreadyExists
            },
            Err(ConformanceError::Unusable) => exists|i: int|
                0 <= i < outcomes@.len() && #[trigger] outcomes@[i] is Failed,
            Err(e) => {
                &&& e == (ConformanceError::ConcurrentWinners {
                    winners: winners(outcomes@) as usize,
                    racers: outcomes@.len() as usize,
                })
                &&& winners(outcomes@) != 1
                &&& forall|i: int| 0 <= i < outcomes@.len() ==> !(#[trigger] outcomes@[i] is Failed)
            },
        },
{
    let mut won: usize = 0;
    let mut winner: usize = 0;
    let mut i: usize = 0;
    while i < outcomes.len()
        invariant
            i <= outcomes@.len(),
            won <= i,
            won == winners(outcomes@.take(i as int)),
            forall|j: int| 0 <= j < i ==> !(#[trigger] outcomes@[j] is Failed),
            won == 1 ==> winner < i && outcomes@[winner as int] is Created && forall|j: int|
                0 <= j < i && j != winner ==> #[trigger] outcomes@[j] is AlreadyExists,
        decreases outcomes@.len() - i,
    {
        proof {
            assert(outcomes@.take(i + 1).drop_last() =~= outcomes@.take(i as int));
            winners_are_counted(outcomes@.take(i as int));
            assert forall|j: int| won == 0 && 0 <= j < i implies #[trigger] outcomes@[j]
                is AlreadyExists by {
                assert(outcomes@.take(i as int)[j] == outcomes@[j]);
            }
        }
        match outcomes[i] {
            PutOutcome::Created => {
                won += 1;
                winner = i;
            },
            PutOutcome::AlreadyExists => {},
            PutOutcome::Failed => {
                assert(outcomes@[i as int] is Failed);
                return Err(ConformanceError::Unusable);
            },
        }
        i += 1;
    }
    assert(outcomes@.take(i as int) =~= outcomes@);
    if won != 1 {
        return Err(ConformanceError::ConcurrentWinners { winners: won, racers: outcomes.len() });
    }
    Ok(winner)
}

/// The value that the store kept must be the winner's.
pub fn check_kept_winner(stored: Option<&str>, winner: usize) -> (r: Result<
    (),
    ConformanceError,
>)
    ensures
        r is Ok <==> stored is Some && stored->Some_0@ == racer_text(winner as nat),
        r matches Err(e) ==> e is WinnerNotStored,
{
    let expected = racer_body(winner);
    if let Some(s) = stored {
        if same_text(s, expected.as_str()) {
            return Ok(());
        }
    }
    Err(ConformanceError::WinnerNotStored)
}

// --- the order of the probes ---------------------------------------------------------------------------

/// What to try on the store next.
#[derive(Debug, Clone, Copy, PartialEq, Eq, Structural)]
pub enum Probe {
    /// Put [`FIRST_BODY`] under a fresh key.
    PutFirst,
    /// Put [`SECOND_BODY`] under the same key.
    PutSecond,
    /// Read that key back.
    ReadFirst,
    /// Let [`RACERS`] callers put under one fresh key at once.
    Race { round: usize },
    /// Read that key back: `winner` was told that it won.
    ReadWinner { round: usize, winner: usize },
}

/// What the store answered.
#[derive(Debug)]
pub enum Answer {
    Put(PutOutcome),
    /// How each racer's put ended.
    Raced(Vec<PutOutcome>),
    /// What is stored; `None` where the bytes are no text.
    Read(Option<String>),
    /// There was no answer.
    Nothing,
}

/// What an answer means.
#[derive(Debug, Clone, Copy, PartialEq, Eq, Structural)]
pub enum Verdict {
    Next(Probe),
    Conforms,
    Unfit(ConformanceError),
}

/// Racer `w`, and no other, was told that it won.
pub open spec fn lone_winner(outcomes: Seq<PutOutcome>, w: int) -> bool {
    &&& 0 <= w < outcomes.len()
    &&& outcomes[w] is Created
    &&& forall|i: int|
        0 <= i < outcomes.len() && i != w ==> #[trigger] outcomes[i] is AlreadyExists
}

pub open spec fn some_failed(outcomes: Seq<PutOutcome>) -> bool {
    exists|i: int| 0 <= i < outcomes.len() && #[trigger] outcomes[i] is Failed
}

pub open spec fn holds_text(stored: Option<String>, text: Seq<char>) -> bool {
    stored is Some && stored->Some_0@ == text
}

impl Probe {
    pub open spec fn wf(&self) -> bool {
        match *self {
            Probe::Race { round } => round < ROUNDS,
            Probe::ReadWinner { round, .. } => round < ROUNDS,
            _ => true,
        }
    }

    /// How many answers a store that conforms still owes, this one among them.
    pub open spec fn answers_owed(&self) -> int {
        match *self {
            Probe::PutFirst => 2 * ROUNDS + 3,
            Probe::PutSecond => 2 * ROUNDS + 2,
            Probe::ReadFirst => 2 * ROUNDS + 1,
            Probe::Race { round } => 2 * (ROUNDS - round),
            Probe::ReadWinner { round, .. } => 2 * (ROUNDS - round) - 1,
        }
    }

    /// What the key that this probe uses is called in the run `run`.
    pub open spec fn key_text(&self, run: Seq<char>) -> Seq<char> {
        match *self {
            Probe::Race { round } => run + "-race-"@ + decimal(round as nat),
            Probe::ReadWinner { round, .. } => run + "-race-"@ + decimal(round as nat),
            _ => run + "-sequential"@,
        }
    }

    /// The probe that a run starts with.
    pub fn first() -> (p: Probe)
        ensures
            p == Probe::PutFirst,
            p.wf(),
    {
        Probe::PutFirst
    }

    /// What the key that this probe uses is called in the run `run`.
    pub fn key(&self, run: &str) -> (s: String)
        ensures
            s@ == self.key_text(run@),
    {
        let mut s = String::from_str(run);
        match *self {
            Probe::Race { round } => {
                s.append("-race-");
                push_decimal(&mut s, round as u64);
            },
            Probe::ReadWinner { round, .. } => {
                s.append("-race-");
                push_decimal(&mut s, round as u64);
            },
            _ => {
                s.append("-sequential");
            },
        }
        s
    }

    /// Whether this probe is the first to use its key.
    pub fn opens_key(&self) -> (r: bool)
        ensures
            r == (*self is PutFirst || *self is Race),
    {
        match *self {
            Probe::PutFirst => true,
            Probe::Race { .. } => true,
            _ => false,
        }
    }

    /// What the answer to this probe means. The race is what the protocol
    /// depends on; a store that serializes puts per key passes what comes
    /// before it for free.
    pub fn judge(&self, answer: &Answer) -> (v: Verdict)
        requires
            self.wf(),
        ensures
            match (*self, *answer) {
                (Probe::PutFirst, Answer::Put(o)) => v == if o is Created {
                    Verdict::Next(Probe::PutSecond)
                } else {
                    Verdict::Unfit(ConformanceError::CreateUnsupported)
                },
                (Probe::PutSecond, Answer::Put(o)) => v == match o {
                    PutOutcome::AlreadyExists => Verdict::Next(Probe::ReadFirst),
                    PutOutcome::Created => Verdict::Unfit(ConformanceError::OverwritesOnCreate),
                    PutOutcome::Failed => Verdict::Unfit(ConformanceError::Unusable),
                },
                (Probe::ReadFirst, Answer::Read(stored)) => v == if holds_text(stored, "first"@) {
                    Verdict::Next(Probe::Race { round: 0 })
                } else {
                    Verdict::Unfit(ConformanceError::ConflictButOverwrote)
                },
                (Probe::Race { round }, Answer::Raced(outcomes)) => match v {
                    Verdict::Next(q) => q matches Probe::ReadWinner { round: r, winner } && r
                        == round && lone_winner(outcomes@, winner as int),
                    Verdict::Unfit(e) => e == (if some_failed(outcomes@) {
                        ConformanceError::Unusable
                    } else {
                        ConformanceError::ConcurrentWinners {
                            winners: winners(outcomes@) as usize,
                            racers: outcomes@.len() as usize,
                        }
                    }) && (some_failed(outcomes@) || winners(outcomes@) != 1),
                    Verdict::Conforms => false,
                },
                (Probe::ReadWinner { round, winner }, Answer::Read(stored)) => v == if !holds_text(
                    stored,
                    racer_text(winner as nat),
                ) {
                    Verdict::Unfit(ConformanceError::WinnerNotStored)
                } else if round + 1 < ROUNDS {
                    Verdict::Next(Probe::Race { round: (round + 1) as usize })
                } else {
                    Verdict::Conforms
                },
                _ => v == Verdict::Unfit(ConformanceError::Unusable),
            },
            v matches Verdict::Next(q) ==> q.wf() && q.answers_owed() == self.answers_owed() - 1,
            v is Conforms ==> self.answers_owed() == 1,
    {
        match (*self, answer) {
            (Probe::PutFirst, Answer::Put(o)) => match check_fresh_put(*o) {
                Ok(()) => Verdict::Next(Probe::PutSecond),
                Err(e) => Verdict::Unfit(e),
            },
            (Probe::PutSecond, Answer::Put(o)) => match check_repeated_put(*o) {
                Ok(()) => Verdict::Next(Probe::ReadFirst),
                Err(e) => Verdict::Unfit(e),
            },
            (Probe::ReadFirst, Answer::Read(stored)) => match check_kept_first(as_text(stored)) {
                Ok(()) => Verdict::Next(Probe::Race { round: 0 }),
                Err(e) => Verdict::Unfit(e),
            },
            (Probe::Race { round }, Answer::Raced(outcomes)) => match check_race(
                outcomes.as_slice(),
            ) {
                Ok(winner) => Verdict::Next(Probe::ReadWinner { round, winner }),
                Err(e) => Verdict::Unfit(e),
            },
            (Probe::ReadWinner { round, winner }, Answer::Read(stored)) => {
                match check_kept_winner(as_text(stored), winner) {
                    Err(e) => Verdict::Unfit(e),
                    Ok(()) => if round + 1 < ROUNDS {
                        Verdict::Next(Probe::Race { round: round + 1 })
                    } else {
                        Verdict::Conforms
                    },
                }
            },
            _ => Verdict::Unfit(ConformanceError::Unusable),
        }
    }
}

fn as_text(stored: &Option<String>) -> (s: Option<&str>)
    ensures
        s is Some == stored is Some,
        s matches Some(text) ==> text@ == stored->Some_0@,
{
    match stored {
        Some(text) => Some(text.as_str()),
        None => None,
    }
}

/// The answers `run[0], run[1], ..` were given to the probes of one run, each
/// of which was what the answer before it called for.
pub open spec fn one_run(run: Seq<(Probe, Verdict)>) -> bool {
    &&& run.len() > 0
    &&& run[0].0 == Probe::PutFirst
    &&& forall|i: int| 0 < i < run.len() ==> run[i - 1].1 == Verdict::Next(#[trigger] run[i].0)
    &&& forall|i: int|
        0 <= i < run.len() ==> match (#[trigger] run[i]).1 {
            Verdict::Next(q) => q.answers_owed() == run[i].0.answers_owed() - 1,
            Verdict::Conforms => run[i].0.answers_owed() == 1,
            Verdict::Unfit(_) => true,
        }
}

/// **No store is passed early**: a run that ends with a store that conforms
/// put, repeated and read once, and raced and read back every round.
pub proof fn a_passing_run_is_complete(run: Seq<(Probe, Verdict)>)
    requires
        one_run(run),
        run.last().1 is Conforms,
    ensures
        run.len() == 2 * ROUNDS + 3,
{
    owed_in_turn(run, run.len() - 1);
}

proof fn owed_in_turn(run: Seq<(Probe, Verdict)>, i: int)
    requires
        one_run(run),
        0 <= i < run.len(),
    ensures
        run[i].0.answers_owed() == 2 * ROUNDS + 3 - i,
    decreases i,
{
    if i > 0 {
        owed_in_turn(run, i - 1);
        assert(run[i - 1].1 == Verdict::Next(run[i].0));
    }
}

/// **Winners are counted one by one**: a put that was accepted counts once, any
/// other not at all, and two groups of racers have the winners of both.
pub proof fn winners_are_those_accepted(
    a: Seq<PutOutcome>,
    b: Seq<PutOutcome>,
    o: PutOutcome,
    w: int,
)
    ensures
        winners(seq![o]) == if o is Created {
            1nat
        } else {
            0
        },
        winners(a + b) == winners(a) + winners(b),
        lone_winner(a, w) ==> winners(a) == 1,
    decreases b.len(),
{
    assert(seq![o].drop_last() =~= Seq::empty());
    assert(winners(Seq::empty()) == 0);
    assert(seq![o].last() == o);
    if b.len() == 0 {
        assert(a + b =~= a);
    } else {
        winners_are_those_accepted(a, b.drop_last(), o, w);
        assert((a + b).drop_last() =~= a + b.drop_last());
        assert((a + b).last() == b.last());
    }
    if lone_winner(a, w) {
        one_winner_counts_once(a, w);
    }
}

proof fn one_winner_counts_once(a: Seq<PutOutcome>, w: int)
    requires
        0 <= w < a.len(),
        a[w] is Created,
        forall|i: int| 0 <= i < a.len() && i != w ==> !(#[trigger] a[i] is Created),
    ensures
        winners(a) == 1,
    decreases a.len(),
{
    let front = a.drop_last();
    if w == a.len() - 1 {
        no_winner_counts_none(front);
    } else {
        assert(!(a[a.len() - 1] is Created));
        one_winner_counts_once(front, w);
    }
}

proof fn no_winner_counts_none(a: Seq<PutOutcome>)
    requires
        forall|i: int| 0 <= i < a.len() ==> !(#[trigger] a[i] is Created),
    ensures
        winners(a) == 0,
    decreases a.len(),
{
    if a.len() > 0 {
        no_winner_counts_none(a.drop_last());
        assert(!(a[a.len() - 1] is Created));
    }
}

/// **Racers are told apart by what they store, and rounds by their keys**: no two
/// racers store the same, no two rounds use one key, and a round reads the key
/// that it raced for.
pub proof fn racers_and_rounds_are_told_apart(
    a: nat,
    b: nat,
    run: Seq<char>,
    round: usize,
    other: usize,
    winner: usize,
)
    ensures
        racer_text(a) == racer_text(b) <==> a == b,
        (Probe::Race { round }).key_text(run) == (Probe::Race { round: other }).key_text(run)
            <==> round == other,
        (Probe::ReadWinner { round, winner }).key_text(run) == (Probe::Race { round }).key_text(
            run,
        ),
        Probe::PutSecond.key_text(run) == Probe::PutFirst.key_text(run),
        Probe::ReadFirst.key_text(run) == Probe::PutFirst.key_text(run),
        (Probe::Race { round }).key_text(run) != Probe::PutFirst.key_text(run),
{
    let p = "racer-"@;
    if racer_text(a) == racer_text(b) {
        assert(decimal(a) =~= racer_text(a).skip(p.len() as int));
        assert(decimal(b) =~= racer_text(b).skip(p.len() as int));
        crate::text::decimal_is_injective(a, b);
    }
    let q = run + "-race-"@;
    let x = (Probe::Race { round }).key_text(run);
    let y = (Probe::Race { round: other }).key_text(run);
    if x == y {
        assert(decimal(round as nat) =~= x.skip(q.len() as int));
        assert(decimal(other as nat) =~= y.skip(q.len() as int));
        crate::text::decimal_is_injective(round as nat, other as nat);
    }
    reveal_strlit("-race-");
    reveal_strlit("-sequential");
    let z = Probe::PutFirst.key_text(run);
    assert(x[run.len() as int + 1] == 'r');
    assert(z[run.len() as int + 1] == 's');
}

/// **A store that fails is quoted, and a lost race is counted**: what the store said
/// stands in the words, and so do how many of how many writers won.
pub proof fn a_failing_store_is_quoted(e: ConformanceError, source: &str, s: String)
    requires
        call_ensures(ConformanceError::to_text, (&e, source), s),
    ensures
        e is CreateUnsupported || e is Unusable ==> says(s@, source@),
        e matches ConformanceError::ConcurrentWinners { winners, racers } ==> says(
            s@,
            decimal(winners as nat) + " of "@ + decimal(racers as nat),
        ),
{
    let t = s@;
    let no: Seq<char> = Seq::empty();
    match e {
        ConformanceError::CreateUnsupported => {
            let a = "store rejected a plain conditional put of a fresh key: "@;
            said_between(t, a, source@, t.skip((a + source@).len() as int));
        },
        ConformanceError::ConcurrentWinners { winners, racers } => {
            let x = decimal(winners as nat) + " of "@ + decimal(racers as nat);
            assert(no + x =~= x);
            said_between(t, no, x, t.skip(x.len() as int));
        },
        ConformanceError::Unusable => {
            let a = "probing the store failed: "@;
            assert(t + no =~= t);
            said_between(t, a, source@, no);
        },
        _ => {},
    }
}

/// **A race is won by exactly one writer**: it is judged sound only where one write
/// was accepted and every other refused.
pub proof fn a_race_is_won_by_one(
    outcomes: &[PutOutcome],
    r: Result<usize, ConformanceError>,
    again: PutOutcome,
    s: Result<(), ConformanceError>,
    i: int,
    j: int,
)
    requires
        call_ensures(check_race, (outcomes,), r),
        call_ensures(check_repeated_put, (again,), s),
        0 <= i < outcomes@.len(),
        0 <= j < outcomes@.len(),
    ensures
        r is Ok && outcomes@[i] is Created && outcomes@[j] is Created ==> i == j,
        r matches Ok(w) ==> w < outcomes@.len() && outcomes@[w as int] is Created,
        r is Ok ==> !(outcomes@[i] is Failed),
        s is Ok <==> again is AlreadyExists,
        again is Created ==> s is Err && s->Err_0 is OverwritesOnCreate,
{
}

} // verus!
