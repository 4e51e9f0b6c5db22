use vstd::prelude::*;
use crate::allocation::Allocation;
use crate::error::DistributionError;
use crate::participant::ParticipantId;

verus! {

/// Total of the amounts that a sequence of credits gives to `id`.
pub open spec fn credited_to(s: Seq<(Seq<char>, nat)>, id: Seq<char>) -> nat
    decreases s.len(),
{
    if s.len() == 0 {
        0
    } else {
        credited_to(s.drop_last(), id) + if s.last().0 == id {
            s.last().1
        } else {
            0
        }
    }
}

/// The audit entry of one completed distribution.
#[derive(Debug)]
pub struct DistributionRecord {
    /// Position of this record in the ledger's log, counting from zero.
    pub sequence: usize,
    /// The pool that was distributed.
    pub pool: u128,
    /// How many participants the weight provider listed.
    pub participant_count: usize,
    /// What each participant was credited, and the dust.
    pub allocation: Allocation,
}

/// Per-participant balances, created at zero on first credit and never removed,
/// with the append-only log of distribution records.
#[derive(Debug)]
pub struct BalanceLedger {
    ids: Vec<ParticipantId>,
    balances: Vec<u128>,
    records: Vec<DistributionRecord>,
}

/// `after` is `before` with `amount` added to the balance of `id` and nothing else changed.
pub open spec fn credited(before: BalanceLedger, after: BalanceLedger, id: Seq<char>, amount: nat) -> bool {
    &&& after.wf()
    &&& after.balance(id) == before.balance(id) + amount
    &&& forall|k: Seq<char>| k != id ==> #[trigger] after.balance(k) == before.balance(k)
    &&& after.has_account(id)
    &&& forall|k: Seq<char>| k != id ==> #[trigger] after.has_account(k) == before.has_account(k)
    &&& after.records() == before.records()
}

impl BalanceLedger {
    /// Identities are stored once each, one balance per identity, and each record
    /// carries its position in the log.
    pub closed spec fn wf(&self) -> bool {
        &&& self.ids@.len() == self.balances@.len()
        &&& forall|i: int, j: int|
            0 <= i < j < self.ids@.len() ==> (#[trigger] self.ids@[i])@ != (#[trigger] self.ids@[j])@
        &&& forall|i: int| 0 <= i < self.records@.len() ==> (#[trigger] self.records@[i]).sequence == i
    }

    /// The balance of `id`: zero for an account never credited.
    pub closed spec fn balance(&self, id: Seq<char>) -> nat {
        if exists|i: int| 0 <= i < self.ids@.len() && (#[trigger] self.ids@[i])@ == id {
            let i = choose|i: int| 0 <= i < self.ids@.len() && (#[trigger] self.ids@[i])@ == id;
            self.balances@[i] as nat
        } else {
            0
        }
    }

    /// `id` has been credited at least once.
    pub closed spec fn has_account(&self, id: Seq<char>) -> bool {
        exists|i: int| 0 <= i < self.ids@.len() && (#[trigger] self.ids@[i])@ == id
    }

    /// The distribution records, oldest first.
    pub closed spec fn records(&self) -> Seq<DistributionRecord> {
        self.records@
    }

    proof fn lemma_balance_at(&self, i: int)
        requires
            self.wf(),
            0 <= i < self.ids@.len(),
        ensures
            self.balance(self.ids@[i]@) == self.balances@[i],
    {
        let id = self.ids@[i]@;
        assert(exists|j: int| 0 <= j < self.ids@.len() && (#[trigger] self.ids@[j])@ == id);
        let j = choose|j: int| 0 <= j < self.ids@.len() && (#[trigger] self.ids@[j])@ == id;
        if j != i {
            if j < i {
                assert(self.ids@[j]@ != self.ids@[i]@);
            } else {
                assert(self.ids@[i]@ != self.ids@[j]@);
            }
        }
    }

    /// An empty ledger: every balance is zero and no record is written.
    pub fn new() -> (r: BalanceLedger)
        ensures
            r.wf(),
            forall|k: Seq<char>| #[trigger] r.balance(k) == 0,
            forall|k: Seq<char>| !(#[trigger] r.has_account(k)),
            r.records().len() == 0,
    {
        BalanceLedger { ids: Vec::new(), balances: Vec::new(), records: Vec::new() }
    }

    fn position(&self, id: &ParticipantId) -> (r: Option<usize>)
        requires
            self.wf(),
        ensures
            match r {
                Some(i) => i < self.ids@.len() && self.ids@[i as int]@ == id@,
                None => forall|i: int| 0 <= i < self.ids@.len() ==> (#[trigger] self.ids@[i])@ != id@,
            },
    {
        let mut i: usize = 0;
        while i < self.ids.len()
            invariant
                i <= self.ids@.len(),
                forall|j: int| 0 <= j < i ==> (#[trigger] self.ids@[j])@ != id@,
            decreases self.ids@.len() - i,
        {
            if self.ids[i].same_as(id) {
                return Some(i);
            }
            i = i + 1;
        }
        None
    }

    /// The balance of `id`; zero if it was never credited.
    pub fn get_balance(&self, id: &ParticipantId) -> (r: u128)
        requires
            self.wf(),
        ensures
            r == self.balance(id@),
    {
        match self.position(id) {
            Some(i) => {
                proof {
                    self.lemma_balance_at(i as int);
                }
                self.balances[i]
            },
            None => 0,
        }
    }

    /// Whether `id` has an account, that is, has been credited at least once.
    pub fn contains(&self, id: &ParticipantId) -> (r: bool)
        requires
            self.wf(),
        ensures
            r == self.has_account(id@),
    {
        self.position(id).is_some()
    }

    /// Adds `amount` to the balance of `id`, opening its account if it has none. Fails, changing nothing, exactly when
    /// the new balance would not fit 128 bits.
    pub fn credit(&mut self, id: &ParticipantId, amount: u128) -> (r: Result<(), DistributionError>)
        requires
            old(self).wf(),
        ensures
            r is Ok <==> old(self).balance(id@) + amount <= u128::MAX,
            r is Ok ==> credited(*old(self), *final(self), id@, amount as nat),
            r is Err ==> r == Err::<(), DistributionError>(DistributionError::ArithmeticOverflow)
                && *final(self) == *old(self),
    {
        let ghost before = *self;
        match self.position(id) {
            Some(i) => {
                proof {
                    self.lemma_balance_at(i as int);
                }
                match self.balances[i].checked_add(amount) {
                    Some(v) => {
                        self.balances[i] = v;
                        proof {
                            assert(self.ids@ == before.ids@);
                            assert(self.ids@[i as int]@ == id@);
                            self.lemma_balance_at(i as int);
                            assert forall|k: Seq<char>| k != id@ implies #[trigger] self.balance(k)
                                == before.balance(k) by {
                                if exists|j: int| 0 <= j < self.ids@.len() && (#[trigger] self.ids@[j])@ == k {
                                    let j = choose|j: int|
                                        0 <= j < self.ids@.len() && (#[trigger] self.ids@[j])@ == k;
                                    self.lemma_balance_at(j);
                                    before.lemma_balance_at(j);
                                }
                            }
                        }
                        Ok(())
                    },
                    None => Err(DistributionError::ArithmeticOverflow),
                }
            },
            None => {
                proof {
                    assert(before.balance(id@) == 0);
                }
                self.ids.push(id.duplicate());
                self.balances.push(amount);
                proof {
                    let n = before.ids@.len() as int;
                    assert(self.ids@[n]@ == id@);
                    self.lemma_balance_at(n);
                    assert forall|k: Seq<char>| k != id@ implies #[trigger] self.has_account(k)
                        == before.has_account(k) by {
                        if before.has_account(k) {
                            let j = choose|j: int|
                                0 <= j < before.ids@.len() && (#[trigger] before.ids@[j])@ == k;
                            assert(self.ids@[j] == before.ids@[j]);
                        }
                        if self.has_account(k) {
                            let j = choose|j: int|
                                0 <= j < self.ids@.len() && (#[trigger] self.ids@[j])@ == k;
                            assert(j < n);
                            assert(self.ids@[j] == before.ids@[j]);
                        }
                    }
                    assert forall|k: Seq<char>| k != id@ implies #[trigger] self.balance(k)
                        == before.balance(k) by {
                        if exists|j: int| 0 <= j < self.ids@.len() && (#[trigger] self.ids@[j])@ == k {
                            let j = choose|j: int|
                                0 <= j < self.ids@.len() && (#[trigger] self.ids@[j])@ == k;
                            assert(j < n);
                            self.lemma_balance_at(j);
                            before.lemma_balance_at(j);
                            assert(before.ids@[j] == self.ids@[j]);
                        } else {
                            assert forall|j: int| 0 <= j < before.ids@.len() implies (#[trigger] before.ids@[j])@
                                != k by {
                                assert(self.ids@[j] == before.ids@[j]);
                            }
                        }
                    }
                }
                Ok(())
            },
        }
    }
}


impl BalanceLedger {
    /// How many distribution records the log holds.
    pub fn record_count(&self) -> (r: usize)
        ensures
            r == self.records().len(),
    {
        self.records.len()
    }

    /// The record with the given sequence number.
    pub fn record(&self, sequence: usize) -> (r: &DistributionRecord)
        requires
            sequence < self.records().len(),
        ensures
            *r == self.records()[sequence as int],
    {
        &self.records[sequence]
    }

    /// Credits every entry of `allocation`, in order, each as an independent credit;
    /// then appends one record of the batch and returns its sequence number.
    ///
    /// At the first credit that would overflow, the batch stops: the credits before it
    /// stay, no record is written, and the error says how many credits were applied.
    pub fn apply_allocation(&mut self, pool: u128, participant_count: usize, allocation: Allocation) -> (r:
        Result<usize, DistributionError>)
        requires
            old(self).wf(),
        ensures
            final(self).wf(),
            match r {
                Ok(sequence) => {
                    &&& sequence == old(self).records().len()
                    &&& forall|k: Seq<char>|
                        #[trigger] final(self).balance(k) == old(self).balance(k) + credited_to(
                            allocation.model(),
                            k,
                        )
                    &&& final(self).records() == old(self).records().push(
                        (DistributionRecord { sequence, pool, participant_count, allocation }),
                    )
                },
                Err(DistributionError::LedgerWriteFailed { applied }) => {
                    let done = allocation.model().take(applied as int);
                    let failed = allocation.model()[applied as int];
                    &&& applied < allocation.model().len()
                    &&& old(self).balance(failed.0) + credited_to(done, failed.0) + failed.1 > u128::MAX
                    &&& forall|k: Seq<char>|
                        #[trigger] final(self).balance(k) == old(self).balance(k) + credited_to(done, k)
                    &&& final(self).records() == old(self).records()
                },
                Err(_) => false,
            },
    {
        let ghost before = *self;
        let ghost model = allocation.model();
        let mut i: usize = 0;
        while i < allocation.amounts.len()
            invariant
                before == *old(self),
                model == allocation.model(),
                i <= model.len(),
                self.wf(),
                self.records() == before.records(),
                forall|k: Seq<char>|
                    #[trigger] self.balance(k) == before.balance(k) + credited_to(model.take(i as int), k),
            decreases model.len() - i,
        {
            let entry = &allocation.amounts[i];
            proof {
                assert(model.take(i as int + 1).drop_last() =~= model.take(i as int));
            }
            match self.credit(&entry.0, entry.1) {
                Ok(()) => {},
                Err(_) => {
                    proof {
                        assert(model[i as int] == (entry.0@, entry.1 as nat));
                    }
                    return Err(DistributionError::LedgerWriteFailed { applied: i });
                },
            }
            i = i + 1;
        }
        proof {
            assert(model.take(i as int) =~= model);
        }
        let ghost credited_all = *self;
        let sequence = self.records.len();
        self.records.push(DistributionRecord { sequence, pool, participant_count, allocation });
        proof {
            assert forall|k: Seq<char>| #[trigger] self.balance(k) == credited_all.balance(k) by {
                assert(self.ids@ == credited_all.ids@ && self.balances@ == credited_all.balances@);
            }
        }
        Ok(sequence)
    }
}

/// Sum of a sequence of amounts.
pub open spec fn amounts_total(amounts: Seq<u128>) -> nat
    decreases amounts.len(),
{
    if amounts.len() == 0 {
        0
    } else {
        amounts_total(amounts.drop_last()) + amounts.last() as nat
    }
}

/// Credits accumulate: when each ledger of `ledgers` is the one before it with
/// `amounts[i]` credited to `id`, the last balance of `id` is the first one plus the
/// sum of the amounts, and the balance never went down on the way.
pub proof fn lemma_credits_accumulate(ledgers: Seq<BalanceLedger>, id: Seq<char>, amounts: Seq<u128>)
    requires
        ledgers.len() == amounts.len() + 1,
        forall|i: int|
            0 <= i < amounts.len() ==> credited(#[trigger] ledgers[i], ledgers[i + 1], id, amounts[i] as nat),
    ensures
        ledgers.last().balance(id) == ledgers[0].balance(id) + amounts_total(amounts),
        forall|i: int, j: int|
            0 <= i <= j < ledgers.len() ==> (#[trigger] ledgers[i]).balance(id) <= (#[trigger] ledgers[j]).balance(
                id,
            ),
    decreases amounts.len(),
{
    if amounts.len() > 0 {
        let n = amounts.len() as int;
        let prev = ledgers.drop_last();
        assert forall|i: int| 0 <= i < n - 1 implies credited(
            #[trigger] prev[i],
            prev[i + 1],
            id,
            amounts.drop_last()[i] as nat,
        ) by {
            assert(credited(ledgers[i], ledgers[i + 1], id, amounts[i] as nat));
        }
        lemma_credits_accumulate(prev, id, amounts.drop_last());
        assert(credited(ledgers[n - 1], ledgers[n], id, amounts[n - 1] as nat));
        assert forall|i: int, j: int| 0 <= i <= j < ledgers.len() implies (#[trigger] ledgers[i]).balance(id)
            <= (#[trigger] ledgers[j]).balance(id) by {
            if j < n {
                assert(prev[i] == ledgers[i] && prev[j] == ledgers[j]);
            } else if i < n {
                assert(prev[i] == ledgers[i] && prev[n - 1] == ledgers[n - 1]);
            }
        }
    }
}

} // verus!
