use reward_split::allocation::checked_total_weight;
use reward_split::orchestrator::has_duplicates;
use reward_split::{
    allocate, distribute, Action, Allocation, BalanceLedger, DistributionError, Event, Orchestrator, Phase,
    ParticipantId, WeightSnapshot,
};

fn id(s: &str) -> ParticipantId {
    ParticipantId::new(s.to_string())
}

fn weights(list: &[(&str, u64)]) -> Vec<(ParticipantId, u64)> {
    list.iter().map(|(a, w)| (id(a), *w)).collect()
}

fn amounts(a: &Allocation) -> Vec<(String, u128)> {
    a.amounts.iter().map(|(p, v)| (p.address.clone(), *v)).collect()
}

fn pairs(list: &[(&str, u128)]) -> Vec<(String, u128)> {
    list.iter().map(|(a, v)| (a.to_string(), *v)).collect()
}

#[test]
fn allocate_three_to_one_split() {
    let a = allocate(10, &weights(&[("x", 3), ("y", 1)])).unwrap();
    assert_eq!(amounts(&a), pairs(&[("x", 7), ("y", 2)]));
    assert_eq!(a.dust, 1);
}

#[test]
fn allocate_conserves_pool_with_small_dust() {
    let ws = weights(&[("a", 1), ("b", 1), ("c", 1)]);
    let a = allocate(100, &ws).unwrap();
    assert_eq!(amounts(&a), pairs(&[("a", 33), ("b", 33), ("c", 33)]));
    let paid: u128 = a.amounts.iter().map(|(_, v)| *v).sum();
    assert_eq!(paid + a.dust, 100);
    assert!(a.dust < ws.len() as u128);
}

#[test]
fn allocate_uneven_weights_exact_amounts() {
    let a = allocate(1000, &weights(&[("a", 5), ("b", 0), ("c", 2)])).unwrap();
    assert_eq!(amounts(&a), pairs(&[("a", 714), ("b", 0), ("c", 285)]));
    assert_eq!(a.dust, 1);
}

#[test]
fn allocate_is_deterministic() {
    let ws = weights(&[("a", 7), ("b", 11), ("c", 13)]);
    let first = allocate(12345, &ws).unwrap();
    let second = allocate(12345, &ws).unwrap();
    assert_eq!(amounts(&first), amounts(&second));
    assert_eq!(first.dust, second.dust);
}

#[test]
fn allocate_zero_weights_gives_everything_to_dust() {
    let a = allocate(50, &weights(&[("a", 0), ("b", 0)])).unwrap();
    assert!(a.amounts.is_empty());
    assert_eq!(a.dust, 50);
}

#[test]
fn allocate_empty_list_gives_everything_to_dust() {
    let a = allocate(9, &Vec::new()).unwrap();
    assert!(a.amounts.is_empty());
    assert_eq!(a.dust, 9);
}

#[test]
fn allocate_weight_sum_overflow() {
    let r = allocate(10, &weights(&[("a", u64::MAX), ("b", 1)]));
    assert_eq!(r.unwrap_err(), DistributionError::ArithmeticOverflow);
}

#[test]
fn allocate_uses_wide_intermediate_product() {
    let a = allocate(u128::MAX, &weights(&[("a", 3), ("b", 1)])).unwrap();
    assert_eq!(amounts(&a), pairs(&[("a", 3 * (1u128 << 126) - 1), ("b", (1u128 << 126) - 1)]));
    assert_eq!(a.dust, 1);
}

#[test]
fn total_weight_sums_or_overflows() {
    assert_eq!(checked_total_weight(&weights(&[("a", 2), ("b", 40)])), Some(42));
    assert_eq!(checked_total_weight(&Vec::new()), Some(0));
    assert_eq!(checked_total_weight(&weights(&[("a", u64::MAX - 1), ("b", 1)])), Some(u64::MAX));
    assert_eq!(checked_total_weight(&weights(&[("a", u64::MAX), ("b", 1)])), None);
}

#[test]
fn duplicates_are_detected() {
    assert!(has_duplicates(&weights(&[("a", 1), ("b", 1), ("a", 2)])));
    assert!(!has_duplicates(&weights(&[("a", 1), ("b", 1), ("c", 2)])));
    assert!(!has_duplicates(&Vec::new()));
}

#[test]
fn ledger_unknown_account_reads_zero() {
    let ledger = BalanceLedger::new();
    assert_eq!(ledger.get_balance(&id("nobody")), 0);
    assert_eq!(ledger.record_count(), 0);
}

#[test]
fn credits_accumulate_on_one_account() {
    let mut ledger = BalanceLedger::new();
    let a = id("a");
    let mut seen = 0;
    for amount in [3u128, 0, 4, 5] {
        ledger.credit(&a, amount).unwrap();
        let now = ledger.get_balance(&a);
        assert!(now >= seen);
        seen = now;
    }
    assert_eq!(ledger.get_balance(&a), 12);
    assert_eq!(ledger.get_balance(&id("b")), 0);
}

#[test]
fn credit_overflow_leaves_balance() {
    let mut ledger = BalanceLedger::new();
    let a = id("a");
    ledger.credit(&a, u128::MAX).unwrap();
    assert_eq!(ledger.credit(&a, 1), Err(DistributionError::ArithmeticOverflow));
    assert_eq!(ledger.get_balance(&a), u128::MAX);
}

#[test]
fn apply_allocation_stops_at_first_overflow() {
    let mut ledger = BalanceLedger::new();
    ledger.credit(&id("y"), u128::MAX).unwrap();
    let a = allocate(10, &weights(&[("x", 1), ("y", 1), ("z", 1)])).unwrap();
    let r = ledger.apply_allocation(10, 3, a);
    assert_eq!(r, Err(DistributionError::LedgerWriteFailed { applied: 1 }));
    assert_eq!(ledger.get_balance(&id("x")), 3);
    assert_eq!(ledger.get_balance(&id("y")), u128::MAX);
    assert_eq!(ledger.get_balance(&id("z")), 0);
    assert_eq!(ledger.record_count(), 0);
}

#[test]
fn concrete_scenario_through_orchestrator() {
    let mut ledger = BalanceLedger::new();
    ledger.credit(&id("y"), 5).unwrap();
    let mut orch = Orchestrator::new(id("admin"));
    let a = orch.step(&mut ledger, Event::DistributeRequested { caller: id("admin") });
    assert_eq!(a, Action::FetchWeights);
    assert_eq!(orch.phase, Phase::FetchingWeights);
    let snapshot = WeightSnapshot { pool: 10, weights: weights(&[("x", 3), ("y", 1)]) };
    let a = orch.step(&mut ledger, Event::WeightsFetched(snapshot));
    assert_eq!(a, Action::Finished(Ok(0)));
    assert_eq!(orch.phase, Phase::Idle);
    assert_eq!(ledger.get_balance(&id("x")), 7);
    assert_eq!(ledger.get_balance(&id("y")), 7);
    let rec = ledger.record(0);
    assert_eq!(rec.sequence, 0);
    assert_eq!(rec.pool, 10);
    assert_eq!(rec.participant_count, 2);
    assert_eq!(amounts(&rec.allocation), pairs(&[("x", 7), ("y", 2)]));
    assert_eq!(rec.allocation.dust, 1);
}

#[test]
fn non_admin_request_is_unauthorized() {
    let mut ledger = BalanceLedger::new();
    ledger.credit(&id("x"), 4).unwrap();
    let mut orch = Orchestrator::new(id("admin"));
    let a = orch.step(&mut ledger, Event::DistributeRequested { caller: id("mallory") });
    assert_eq!(a, Action::Finished(Err(DistributionError::Unauthorized)));
    assert_eq!(orch.phase, Phase::Idle);
    assert_eq!(ledger.get_balance(&id("x")), 4);
    assert_eq!(ledger.record_count(), 0);
}

#[test]
fn provider_failure_aborts() {
    let mut ledger = BalanceLedger::new();
    let mut orch = Orchestrator::new(id("admin"));
    orch.step(&mut ledger, Event::DistributeRequested { caller: id("admin") });
    let a = orch.step(&mut ledger, Event::ProviderFailed);
    assert_eq!(a, Action::Finished(Err(DistributionError::ProviderUnavailable)));
    assert_eq!(orch.phase, Phase::Idle);
    assert_eq!(ledger.record_count(), 0);
}

#[test]
fn out_of_turn_events_are_ignored() {
    let mut ledger = BalanceLedger::new();
    let mut orch = Orchestrator::new(id("admin"));
    let snapshot = WeightSnapshot { pool: 10, weights: weights(&[("x", 1)]) };
    assert_eq!(orch.step(&mut ledger, Event::WeightsFetched(snapshot)), Action::Ignored);
    assert_eq!(orch.step(&mut ledger, Event::ProviderFailed), Action::Ignored);
    orch.step(&mut ledger, Event::DistributeRequested { caller: id("admin") });
    let again = orch.step(&mut ledger, Event::DistributeRequested { caller: id("admin") });
    assert_eq!(again, Action::Ignored);
    assert_eq!(orch.phase, Phase::FetchingWeights);
    assert_eq!(ledger.get_balance(&id("x")), 0);
}

#[test]
fn empty_pool_records_without_credit() {
    let mut ledger = BalanceLedger::new();
    ledger.credit(&id("x"), 2).unwrap();
    let snapshot = WeightSnapshot { pool: 0, weights: weights(&[("x", 3), ("y", 1)]) };
    assert_eq!(distribute(&mut ledger, snapshot), Ok(0));
    assert_eq!(ledger.get_balance(&id("x")), 2);
    assert_eq!(ledger.get_balance(&id("y")), 0);
    let rec = ledger.record(0);
    assert!(rec.allocation.amounts.is_empty());
    assert_eq!(rec.allocation.dust, 0);
    assert_eq!(rec.participant_count, 2);
}

#[test]
fn weight_overflow_leaves_balances() {
    let mut ledger = BalanceLedger::new();
    ledger.credit(&id("a"), 6).unwrap();
    let snapshot = WeightSnapshot { pool: 100, weights: weights(&[("a", u64::MAX), ("b", 1)]) };
    assert_eq!(distribute(&mut ledger, snapshot), Err(DistributionError::ArithmeticOverflow));
    assert_eq!(ledger.get_balance(&id("a")), 6);
    assert_eq!(ledger.get_balance(&id("b")), 0);
    assert_eq!(ledger.record_count(), 0);
}

#[test]
fn duplicate_participant_rejected() {
    let mut ledger = BalanceLedger::new();
    let snapshot = WeightSnapshot { pool: 100, weights: weights(&[("a", 1), ("a", 1)]) };
    assert_eq!(distribute(&mut ledger, snapshot), Err(DistributionError::DuplicateParticipant));
    assert_eq!(ledger.get_balance(&id("a")), 0);
    assert_eq!(ledger.record_count(), 0);
}

#[test]
fn successive_distributions_number_records() {
    let mut ledger = BalanceLedger::new();
    let first = WeightSnapshot { pool: 9, weights: weights(&[("a", 1), ("b", 2)]) };
    let second = WeightSnapshot { pool: 4, weights: weights(&[("a", 1), ("b", 1)]) };
    assert_eq!(distribute(&mut ledger, first), Ok(0));
    assert_eq!(distribute(&mut ledger, second), Ok(1));
    assert_eq!(ledger.get_balance(&id("a")), 5);
    assert_eq!(ledger.get_balance(&id("b")), 8);
    assert_eq!(ledger.record(1).sequence, 1);
    assert_eq!(ledger.record_count(), 2);
}

#[test]
fn participant_identity_is_exact() {
    assert!(id("abc").same_as(&id("abc")));
    assert!(!id("abc").same_as(&id("abC")));
    assert_eq!(id("q").duplicate().address, "q");
}

#[test]
fn accounts_open_on_first_credit() {
    let mut ledger = BalanceLedger::new();
    let a = id("a");
    assert!(!ledger.contains(&a));
    ledger.credit(&a, 0).unwrap();
    assert!(ledger.contains(&a));
    assert_eq!(ledger.get_balance(&a), 0);
    assert!(!ledger.contains(&id("b")));
}
