use vstd::prelude::*;
use crate::error::DistributionError;
use crate::participant::ParticipantId;

verus! {

/// Sum of all weights of a participant list, as a mathematical integer.
pub open spec fn total_weight(ws: Seq<(ParticipantId, u64)>) -> nat
    decreases ws.len(),
{
    if ws.len() == 0 {
        0
    } else {
        total_weight(ws.drop_last()) + ws.last().1 as nat
    }
}

/// The floored share of `pool` owed to weight `w` out of `total`; nothing when `total` is zero.
pub open spec fn share(pool: nat, w: nat, total: nat) -> nat {
    if total == 0 {
        0
    } else {
        pool * w / total
    }
}

/// Sum of the shares of every participant of `ws`, each taken out of `total`.
pub open spec fn share_sum(pool: nat, ws: Seq<(ParticipantId, u64)>, total: nat) -> nat
    decreases ws.len(),
{
    if ws.len() == 0 {
        0
    } else {
        share_sum(pool, ws.drop_last(), total) + share(pool, ws.last().1 as nat, total)
    }
}

/// The amounts owed: one entry per participant, in order, when the total weight
/// is positive; none when it is zero.
pub open spec fn expected_amounts(pool: nat, ws: Seq<(ParticipantId, u64)>) -> Seq<(Seq<char>, nat)> {
    let total = total_weight(ws);
    if total == 0 {
        Seq::empty()
    } else {
        Seq::new(ws.len(), |i: int| (ws[i].0@, share(pool, ws[i].1 as nat, total)))
    }
}

/// What is left of `pool` once every share is paid.
pub open spec fn expected_dust(pool: nat, ws: Seq<(ParticipantId, u64)>) -> int {
    pool - share_sum(pool, ws, total_weight(ws))
}

/// Sum of the amounts of an allocation model.
pub open spec fn amounts_sum(s: Seq<(Seq<char>, nat)>) -> nat
    decreases s.len(),
{
    if s.len() == 0 {
        0
    } else {
        amounts_sum(s.drop_last()) + s.last().1
    }
}

/// The outcome of one allocation pass: what each participant receives, and the
/// rounding remainder that nobody receives.
#[derive(Debug)]
pub struct Allocation {
    pub amounts: Vec<(ParticipantId, u128)>,
    pub dust: u128,
}

impl Allocation {
    /// The amounts with each identity replaced by its address.
    pub open spec fn model(&self) -> Seq<(Seq<char>, nat)> {
        Seq::new(self.amounts@.len(), |i: int| (self.amounts@[i].0@, self.amounts@[i].1 as nat))
    }

    /// This allocation is exactly the one owed for `pool` over `ws`.
    pub open spec fn is_allocation_of(&self, pool: u128, ws: Seq<(ParticipantId, u64)>) -> bool {
        &&& self.model() == expected_amounts(pool as nat, ws)
        &&& self.dust == expected_dust(pool as nat, ws)
    }

    /// An allocation that pays nobody and reports `pool` as dust.
    pub fn empty(pool: u128) -> (r: Allocation)
        ensures
            r.amounts@.len() == 0,
            r.dust == pool,
    {
        Allocation { amounts: Vec::new(), dust: pool }
    }
}

/// Relies on cosmwasm_std::Uint128::multiply_ratio: `value * numerator / denominator`,
/// floored, computed over a 256-bit product; it panics only on a zero denominator or
/// a quotient above the 128-bit range.
#[verifier::external_body]
fn multiply_ratio(value: u128, numerator: u128, denominator: u128) -> (r: u128)
    requires
        denominator > 0,
        (value as nat) * (numerator as nat) / (denominator as nat) <= u128::MAX,
    ensures
        r as nat == (value as nat) * (numerator as nat) / (denominator as nat),
{
    cosmwasm_std::Uint128::new(value).multiply_ratio(numerator, denominator).u128()
}

proof fn lemma_total_weight_prefix(ws: Seq<(ParticipantId, u64)>, k: int)
    requires
        0 <= k <= ws.len(),
    ensures
        total_weight(ws.take(k)) <= total_weight(ws),
    decreases ws.len(),
{
    if k < ws.len() {
        assert(ws.drop_last().take(k) =~= ws.take(k));
        lemma_total_weight_prefix(ws.drop_last(), k);
    } else {
        assert(ws.take(k) =~= ws);
    }
}

proof fn lemma_share_step(pool: nat, w: nat, total: nat, s: nat, weight: nat, k: nat)
    by (nonlinear_arith)
    requires
        total > 0,
        total * s <= pool * weight,
        pool * weight - total * s <= k * (total - 1),
    ensures
        total * (s + pool * w / total) <= pool * (weight + w),
        pool * (weight + w) - total * (s + pool * w / total) <= (k + 1) * (total - 1),
{
    let q = pool * w / total;
    let r = pool * w % total;
    assert(pool * w == total * q + r);
    assert(0 <= r < total);
    assert(total * (s + q) == total * s + total * q);
    assert(pool * (weight + w) == pool * weight + pool * w);
}

/// Over a prefix of the participants, the paid shares never exceed the exact
/// proportional amount, and fall short of it by under one unit per participant.
proof fn lemma_share_sum_bounds(pool: nat, ws: Seq<(ParticipantId, u64)>, total: nat)
    requires
        total > 0,
    ensures
        total * share_sum(pool, ws, total) <= pool * total_weight(ws),
        pool * total_weight(ws) - total * share_sum(pool, ws, total) <= ws.len() * (total - 1),
    decreases ws.len(),
{
    if ws.len() == 0 {
        assert(ws.len() * (total - 1) == 0);
        assert(total * share_sum(pool, ws, total) == 0) by (nonlinear_arith)
            requires
                share_sum(pool, ws, total) == 0,
        ;
        assert(pool * total_weight(ws) == 0) by (nonlinear_arith)
            requires
                total_weight(ws) == 0,
        ;
    } else {
        let p = ws.drop_last();
        lemma_share_sum_bounds(pool, p, total);
        assert(total_weight(ws) == total_weight(p) + ws.last().1 as nat);
        assert(share_sum(pool, ws, total) == share_sum(pool, p, total) + pool * (ws.last().1 as nat) / total);
        assert(ws.len() == p.len() + 1);
        lemma_share_step(
            pool,
            ws.last().1 as nat,
            total,
            share_sum(pool, p, total),
            total_weight(p),
            p.len(),
        );
    }
}

proof fn lemma_bounded_by_pool(pool: nat, total: nat, s: nat, weight: nat, n: nat)
    by (nonlinear_arith)
    requires
        total > 0,
        weight <= total,
        total * s <= pool * weight,
        pool * weight - total * s <= n * (total - 1),
    ensures
        s <= pool,
        weight == total ==> pool - s <= n - 1 || n == 0,
{
    assert(pool * weight <= pool * total);
    if weight == total && n > 0 {
        assert(total * (pool - s) <= n * (total - 1));
        assert(n * (total - 1) < n * total);
    }
}

/// Conservation: the amounts owed and the dust add up to the pool exactly; with a
/// positive total weight the dust is smaller than the number of participants.
pub proof fn lemma_conservation(pool: u128, ws: Seq<(ParticipantId, u64)>)
    ensures
        amounts_sum(expected_amounts(pool as nat, ws)) + expected_dust(pool as nat, ws) == pool,
        total_weight(ws) > 0 ==> 0 <= expected_dust(pool as nat, ws) < ws.len(),
{
    let total = total_weight(ws);
    if total == 0 {
        lemma_share_sum_zero_total(pool as nat, ws);
    } else {
        lemma_share_sum_bounds(pool as nat, ws, total);
        lemma_bounded_by_pool(pool as nat, total, share_sum(pool as nat, ws, total), total, ws.len());
        lemma_amounts_sum_matches(pool as nat, ws, ws.len() as int);
        assert(ws.take(ws.len() as int) =~= ws);
        assert(expected_amounts(pool as nat, ws).take(ws.len() as int) =~= expected_amounts(pool as nat, ws));
    }
}

/// The amounts owed to the first `k` participants add up to their share sum.
proof fn lemma_amounts_sum_matches(pool: nat, ws: Seq<(ParticipantId, u64)>, k: int)
    requires
        total_weight(ws) > 0,
        0 <= k <= ws.len(),
    ensures
        amounts_sum(expected_amounts(pool, ws).take(k)) == share_sum(pool, ws.take(k), total_weight(ws)),
    decreases k,
{
    if k > 0 {
        lemma_amounts_sum_matches(pool, ws, k - 1);
        assert(expected_amounts(pool, ws).take(k).drop_last() =~= expected_amounts(pool, ws).take(k - 1));
        assert(ws.take(k).drop_last() =~= ws.take(k - 1));
    }
}

proof fn lemma_share_sum_zero_total(pool: nat, ws: Seq<(ParticipantId, u64)>)
    ensures
        share_sum(pool, ws, 0) == 0,
    decreases ws.len(),
{
    if ws.len() > 0 {
        lemma_share_sum_zero_total(pool, ws.drop_last());
    }
}

/// Sums the weights, or reports that the sum does not fit 64 bits.
pub fn checked_total_weight(weights: &Vec<(ParticipantId, u64)>) -> (r: Option<u64>)
    ensures
        match r {
            Some(t) => t == total_weight(weights@),
            None => total_weight(weights@) > u64::MAX,
        },
{
    let mut total: u64 = 0;
    let mut i: usize = 0;
    while i < weights.len()
        invariant
            i <= weights@.len(),
            total == total_weight(weights@.take(i as int)),
        decreases weights@.len() - i,
    {
        assert(weights@.take(i as int + 1).drop_last() =~= weights@.take(i as int));
        match total.checked_add(weights[i].1) {
            Some(t) => {
                total = t;
            },
            None => {
                proof {
                    lemma_total_weight_prefix(weights@, i as int + 1);
                }
                return None;
            },
        }
        i = i + 1;
    }
    assert(weights@.take(i as int) =~= weights@);
    Some(total)
}

/// Splits `pool` among `weights` in proportion to the weights, each amount floored,
/// with the remainder reported as dust. Fails only when the weights do not sum
/// within 64 bits.
pub fn allocate(pool: u128, weights: &Vec<(ParticipantId, u64)>) -> (r: Result<Allocation, DistributionError>)
    ensures
        match r {
            Ok(a) => total_weight(weights@) <= u64::MAX && a.is_allocation_of(pool, weights@),
            Err(e) => total_weight(weights@) > u64::MAX && e == DistributionError::ArithmeticOverflow,
        },
{
    let total = match checked_total_weight(weights) {
        Some(t) => t,
        None => {
            return Err(DistributionError::ArithmeticOverflow);
        },
    };
    if total == 0 {
        let a = Allocation::empty(pool);
        proof {
            lemma_share_sum_zero_total(pool as nat, weights@);
        }
        assert(a.model() =~= expected_amounts(pool as nat, weights@));
        return Ok(a);
    }
    let ghost ws = weights@;
    let ghost t = total as nat;
    let mut amounts: Vec<(ParticipantId, u128)> = Vec::new();
    let mut paid: u128 = 0;
    let mut i: usize = 0;
    while i < weights.len()
        invariant
            ws == weights@,
            t == total_weight(ws),
            t == total,
            t > 0,
            i <= ws.len(),
            amounts@.len() == i,
            forall|j: int|
                0 <= j < i ==> #[trigger] amounts@[j].0@ == ws[j].0@ && amounts@[j].1 == share(
                    pool as nat,
                    ws[j].1 as nat,
                    t,
                ),
            paid == share_sum(pool as nat, ws.take(i as int), t),
        decreases ws.len() - i,
    {
        let ghost next = ws.take(i as int + 1);
        proof {
            assert(next.drop_last() =~= ws.take(i as int));
            lemma_total_weight_prefix(ws, i as int + 1);
            lemma_share_sum_bounds(pool as nat, next, t);
            lemma_bounded_by_pool(
                pool as nat,
                t,
                share_sum(pool as nat, next, t),
                total_weight(next),
                next.len(),
            );
        }
        let w = weights[i].1;
        let amount = multiply_ratio(pool, w as u128, total as u128);
        amounts.push((weights[i].0.duplicate(), amount));
        paid = paid + amount;
        i = i + 1;
    }
    proof {
        assert(ws.take(i as int) =~= ws);
        lemma_share_sum_bounds(pool as nat, ws, t);
        lemma_bounded_by_pool(pool as nat, t, share_sum(pool as nat, ws, t), t, ws.len());
    }
    let a = Allocation { amounts, dust: pool - paid };
    assert(a.model() =~= expected_amounts(pool as nat, weights@));
    Ok(a)
}

/// Determinism: two allocations of the same pool over the same weights are equal
/// amount for amount, and in their dust.
pub proof fn lemma_allocation_deterministic(
    pool: u128,
    ws: Seq<(ParticipantId, u64)>,
    a: Allocation,
    b: Allocation,
)
    requires
        a.is_allocation_of(pool, ws),
        b.is_allocation_of(pool, ws),
    ensures
        a.model() == b.model(),
        a.dust == b.dust,
{
}

/// With every weight zero, nobody is paid and the whole pool is dust.
pub proof fn lemma_zero_weights(pool: u128, ws: Seq<(ParticipantId, u64)>)
    requires
        forall|i: int| 0 <= i < ws.len() ==> #[trigger] ws[i].1 == 0,
    ensures
        expected_amounts(pool as nat, ws).len() == 0,
        expected_dust(pool as nat, ws) == pool,
    decreases ws.len(),
{
    if ws.len() > 0 {
        lemma_zero_weights(pool, ws.drop_last());
        assert(ws.drop_last().len() < ws.len());
    }
}

} // verus!
