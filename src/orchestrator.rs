use vstd::prelude::*;
use crate::allocation::{Allocation, allocate, expected_amounts, expected_dust, total_weight};
use crate::error::DistributionError;
use crate::ledger::{BalanceLedger, credited_to};
use crate::participant::ParticipantId;

verus! {

/// What the weight provider answered: the pool to distribute and each participant's weight.
#[derive(Debug)]
pub struct WeightSnapshot {
    pub pool: u128,
    pub weights: Vec<(ParticipantId, u64)>,
}

/// Some identity is listed twice.
pub open spec fn has_duplicate_ids(ws: Seq<(ParticipantId, u64)>) -> bool {
    exists|i: int, j: int| 0 <= i < j < ws.len() && (#[trigger] ws[i]).0@ == (#[trigger] ws[j]).0@
}

/// `after` is `before` with the amounts `paid` credited and one record appended,
/// numbered `sequence`, that holds the pool, the participant count, the amounts and the dust.
pub open spec fn recorded(
    before: BalanceLedger,
    after: BalanceLedger,
    sequence: usize,
    pool: u128,
    count: nat,
    paid: Seq<(Seq<char>, nat)>,
    dust: int,
) -> bool {
    let rec = after.records().last();
    &&& sequence == before.records().len()
    &&& after.records().len() == before.records().len() + 1
    &&& after.records().drop_last() == before.records()
    &&& rec.sequence == sequence
    &&& rec.pool == pool
    &&& rec.participant_count == count
    &&& rec.allocation.model() == paid
    &&& rec.allocation.dust == dust
    &&& forall|k: Seq<char>| #[trigger] after.balance(k) == before.balance(k) + credited_to(paid, k)
}

/// `after` is `before` with the first `applied` amounts of `paid` credited, the next
/// one did not fit, and no record was appended.
pub open spec fn partially_credited(
    before: BalanceLedger,
    after: BalanceLedger,
    paid: Seq<(Seq<char>, nat)>,
    applied: usize,
) -> bool {
    let done = paid.take(applied as int);
    let failed = paid[applied as int];
    &&& applied < paid.len()
    &&& before.balance(failed.0) + credited_to(done, failed.0) + failed.1 > u128::MAX
    &&& forall|k: Seq<char>| #[trigger] after.balance(k) == before.balance(k) + credited_to(done, k)
    &&& after.records() == before.records()
}

/// The outcome of distributing `snapshot` over the ledger `before`, giving `after` and `r`.
pub open spec fn distribution_outcome(
    before: BalanceLedger,
    after: BalanceLedger,
    snapshot: WeightSnapshot,
    r: Result<usize, DistributionError>,
) -> bool {
    let ws = snapshot.weights@;
    let pool = snapshot.pool;
    &&& after.wf()
    &&& if pool == 0 {
        r == Ok::<usize, DistributionError>(before.records().len() as usize) && recorded(
            before,
            after,
            before.records().len() as usize,
            0,
            ws.len(),
            Seq::empty(),
            0,
        )
    } else if has_duplicate_ids(ws) {
        r == Err::<usize, DistributionError>(DistributionError::DuplicateParticipant) && after == before
    } else if total_weight(ws) > u64::MAX {
        r == Err::<usize, DistributionError>(DistributionError::ArithmeticOverflow) && after == before
    } else {
        match r {
            Ok(sequence) => recorded(
                before,
                after,
                sequence,
                pool,
                ws.len(),
                expected_amounts(pool as nat, ws),
                expected_dust(pool as nat, ws),
            ),
            Err(DistributionError::LedgerWriteFailed { applied }) => partially_credited(
                before,
                after,
                expected_amounts(pool as nat, ws),
                applied,
            ),
            Err(_) => false,
        }
    }
}

/// Tells whether some identity is listed twice.
pub fn has_duplicates(weights: &Vec<(ParticipantId, u64)>) -> (r: bool)
    ensures
        r == has_duplicate_ids(weights@),
{
    let mut j: usize = 0;
    while j < weights.len()
        invariant
            j <= weights@.len(),
            forall|a: int, b: int|
                0 <= a < b < j ==> (#[trigger] weights@[a]).0@ != (#[trigger] weights@[b]).0@,
        decreases weights@.len() - j,
    {
        let mut i: usize = 0;
        while i < j
            invariant
                i <= j < weights@.len(),
                forall|a: int| 0 <= a < i ==> (#[trigger] weights@[a]).0@ != weights@[j as int].0@,
            decreases j - i,
        {
            if weights[i].0.same_as(&weights[j].0) {
                return true;
            }
            i = i + 1;
        }
        j = j + 1;
    }
    false
}

/// Runs one distribution over the fetched `snapshot`: validates it, allocates the
/// pool, credits the ledger and appends the record, returning its sequence number.
///
/// An empty pool is a successful no-op that still writes a record with no amounts.
/// Otherwise a duplicated identity, or weights that do not sum within 64 bits, abort
/// before any change. A credit that overflows stops the batch with the credits before it kept
/// and no record written.
pub fn distribute(ledger: &mut BalanceLedger, snapshot: WeightSnapshot) -> (r: Result<usize, DistributionError>)
    requires
        old(ledger).wf(),
    ensures
        distribution_outcome(*old(ledger), *final(ledger), snapshot, r),
{
    let ghost before = *ledger;
    let count = snapshot.weights.len();
    if snapshot.pool == 0 {
        let nothing = Allocation::empty(0);
        proof {
            assert(nothing.model() =~= Seq::<(Seq<char>, nat)>::empty());
        }
        let r = ledger.apply_allocation(0, count, nothing);
        proof {
            assert(ledger.records().drop_last() =~= before.records());
        }
        return r;
    }
    if has_duplicates(&snapshot.weights) {
        return Err(DistributionError::DuplicateParticipant);
    }
    let allocation = match allocate(snapshot.pool, &snapshot.weights) {
        Ok(a) => a,
        Err(e) => {
            return Err(e);
        },
    };
    let r = ledger.apply_allocation(snapshot.pool, count, allocation);
    proof {
        if r is Ok {
            assert(ledger.records().drop_last() =~= before.records());
        }
    }
    r
}

/// Distributing an empty pool succeeds, changes no balance, and appends one record
/// that pays nobody.
pub proof fn lemma_empty_pool_is_no_op(
    before: BalanceLedger,
    after: BalanceLedger,
    snapshot: WeightSnapshot,
    r: Result<usize, DistributionError>,
)
    requires
        snapshot.pool == 0,
        distribution_outcome(before, after, snapshot, r),
    ensures
        r is Ok,
        forall|k: Seq<char>| #[trigger] after.balance(k) == before.balance(k),
        after.records().len() == before.records().len() + 1,
        after.records().last().allocation.amounts@.len() == 0,
        after.records().last().allocation.dust == 0,
{
    assert forall|k: Seq<char>| #[trigger] after.balance(k) == before.balance(k) by {
        assert(after.balance(k) == before.balance(k) + credited_to(Seq::empty(), k));
    }
    assert(after.records().last().allocation.model().len() == 0);
}

/// Where an invocation of "distribute rewards" stands between two events.
#[derive(Clone, Copy, Debug, PartialEq, Eq, Structural)]
pub enum Phase {
    /// No invocation is in progress.
    Idle,
    /// The caller was authorized and the weights were asked for.
    FetchingWeights,
}

/// What the surrounding environment reports to the orchestrator.
#[derive(Debug)]
pub enum Event {
    /// A caller asks for a distribution.
    DistributeRequested { caller: ParticipantId },
    /// The weight provider answered.
    WeightsFetched(WeightSnapshot),
    /// The weight provider failed or timed out.
    ProviderFailed,
}

/// What the orchestrator asks of the environment after an event.
#[derive(Clone, Copy, Debug, PartialEq, Eq)]
pub enum Action {
    /// Ask the weight provider for the pool and the weights.
    FetchWeights,
    /// The invocation is over: the sequence number of its record, or why it aborted.
    Finished(Result<usize, DistributionError>),
    /// The event does not belong to the current phase; nothing changed.
    Ignored,
}

/// The distribution state machine: it authorizes the caller, waits for the weights,
/// then allocates, credits and records in one step.
#[derive(Debug)]
pub struct Orchestrator {
    pub admin: ParticipantId,
    pub phase: Phase,
}

impl Orchestrator {
    /// An idle orchestrator that accepts requests from `admin` only.
    pub fn new(admin: ParticipantId) -> (r: Orchestrator)
        ensures
            r.admin@ == admin@,
            r.phase == Phase::Idle,
    {
        Orchestrator { admin, phase: Phase::Idle }
    }

    /// Handles one event and says what to do next.
    ///
    /// A request from anyone but the administrator finishes with `Unauthorized` and
    /// touches no balance; a request from the administrator asks for the weights.
    /// The weights then run the distribution; a provider failure finishes with
    /// `ProviderUnavailable`. Any other event is ignored.
    pub fn step(&mut self, ledger: &mut BalanceLedger, event: Event) -> (a: Action)
        requires
            old(ledger).wf(),
        ensures
            final(ledger).wf(),
            final(self).admin == old(self).admin,
            match (old(self).phase, event) {
                (Phase::Idle, Event::DistributeRequested { caller }) => {
                    &&& *final(ledger) == *old(ledger)
                    &&& if caller@ == old(self).admin@ {
                        a == Action::FetchWeights && final(self).phase == Phase::FetchingWeights
                    } else {
                        a == Action::Finished(Err(DistributionError::Unauthorized)) && final(self).phase
                            == Phase::Idle
                    }
                },
                (Phase::FetchingWeights, Event::WeightsFetched(snapshot)) => {
                    &&& final(self).phase == Phase::Idle
                    &&& exists|r: Result<usize, DistributionError>|
                        a == Action::Finished(r) && #[trigger] distribution_outcome(
                            *old(ledger),
                            *final(ledger),
                            snapshot,
                            r,
                        )
                },
                (Phase::FetchingWeights, Event::ProviderFailed) => {
                    &&& a == Action::Finished(Err(DistributionError::ProviderUnavailable))
                    &&& final(self).phase == Phase::Idle
                    &&& *final(ledger) == *old(ledger)
                },
                _ => {
                    &&& a == Action::Ignored
                    &&& final(self).phase == old(self).phase
                    &&& *final(ledger) == *old(ledger)
                },
            },
    {
        match (self.phase, event) {
            (Phase::Idle, Event::DistributeRequested { caller }) => {
                if caller.same_as(&self.admin) {
                    self.phase = Phase::FetchingWeights;
                    Action::FetchWeights
                } else {
                    Action::Finished(Err(DistributionError::Unauthorized))
                }
            },
            (Phase::FetchingWeights, Event::WeightsFetched(snapshot)) => {
                self.phase = Phase::Idle;
                let r = distribute(ledger, snapshot);
                Action::Finished(r)
            },
            (Phase::FetchingWeights, Event::ProviderFailed) => {
                self.phase = Phase::Idle;
                Action::Finished(Err(DistributionError::ProviderUnavailable))
            },
            _ => Action::Ignored,
        }
    }
}

} // verus!
