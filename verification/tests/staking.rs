use staking::ledger::{Entry, Staking, StakingError};

const DAY: u128 = 86400;

fn ledger_with(account: u128, amount: u128, tick: u128) -> Staking {
    let mut ledger = Staking::new();
    assert_eq!(ledger.stake(account, amount, tick, u128::MAX / 20), Ok(()));
    ledger
}

fn entries(ledger: &Staking, account: u128) -> &Vec<Entry> {
    ledger.accounts.get(&account).expect("account has staked")
}

#[test]
fn default_works() {
    let ledger = Staking::new();
    assert_eq!(ledger.staking_time, 86400 * 5);
    assert_eq!(ledger.block_time, 5);
    assert!(ledger.accounts.is_empty());
}

#[test]
fn curve_boundary_table() {
    let ledger = Staking::new();
    // One fifth-of-period unit is 86400 ticks: clocks = elapsed * 5 / 86400.
    assert_eq!(ledger.get_unstakable(0, 0), 0);
    assert_eq!(ledger.get_unstakable(17279, 0), 0);
    assert_eq!(ledger.get_unstakable(17280, 0), 5); // clocks = 1
    assert_eq!(ledger.get_unstakable(34560, 0), 6); // clocks = 2
    assert_eq!(ledger.get_unstakable(DAY, 0), 9); // clocks = 5
    assert_eq!(ledger.get_unstakable(103680, 0), 10); // clocks = 6
    assert_eq!(ledger.get_unstakable(100 * 17280, 0), 10); // clocks = 100, saturated
    assert_eq!(ledger.get_unstakable(u128::MAX, 1), 10);
}

#[test]
fn curve_negative_elapsed_is_zero() {
    let ledger = Staking::new();
    // Deposit recorded in the future relative to the queried tick.
    assert_eq!(ledger.get_unstakable(0, 5), 0);
    assert_eq!(ledger.get_unstakable(100, u128::MAX), 0);
}

#[test]
fn curve_is_monotonic_on_samples() {
    let ledger = Staking::new();
    let samples: Vec<u128> = vec![0, 1, 17279, 17280, 20000, 34560, 51840, DAY, 103679, 103680, 200000, 1000000];
    let mut last: u128 = 0;
    for elapsed in samples {
        let level = ledger.get_unstakable(elapsed, 0);
        assert!(level >= last);
        assert!(level <= 10);
        last = level;
    }
}

#[test]
fn stake_appends_one_pair_and_keeps_prior_entries() {
    let mut ledger = ledger_with(1, 100, 0);
    assert_eq!(ledger.stake(1, 40, 7, 1000), Ok(()));
    let history = entries(&ledger, 1);
    assert_eq!(history.len(), 2);
    assert_eq!(history[0].stake.amount, 100);
    assert_eq!(history[0].stake.timestamp, 0);
    assert_eq!(history[0].withdrawn, 0);
    assert_eq!(history[1].stake.amount, 40);
    assert_eq!(history[1].stake.timestamp, 7);
    assert_eq!(history[1].withdrawn, 0);
    assert_eq!(ledger.get_staked_amount(1, 0), Ok(100));
    assert_eq!(ledger.get_staked_timestamp(1, 1), Ok(7));
}

#[test]
fn stakes_in_the_same_tick_stay_separate() {
    let mut ledger = ledger_with(1, 10, 3);
    assert_eq!(ledger.stake(1, 10, 3, 1000), Ok(()));
    assert_eq!(entries(&ledger, 1).len(), 2);
}

#[test]
fn stake_rejects_insufficient_funds_without_mutation() {
    let mut ledger = ledger_with(1, 100, 0);
    let before = entries(&ledger, 1).clone();
    assert_eq!(ledger.stake(1, 51, 5, 50), Err(StakingError::InsufficientFunds));
    assert_eq!(entries(&ledger, 1), &before);
    // A never-seen account is not created by a rejected deposit.
    assert_eq!(ledger.stake(2, 51, 5, 50), Err(StakingError::InsufficientFunds));
    assert!(ledger.accounts.get(&2).is_none());
}

#[test]
fn stake_does_not_touch_other_accounts() {
    let mut ledger = ledger_with(1, 100, 0);
    assert_eq!(ledger.stake(2, 70, 4, 1000), Ok(()));
    assert_eq!(entries(&ledger, 1).len(), 1);
    assert_eq!(entries(&ledger, 1)[0].stake.amount, 100);
    assert_eq!(entries(&ledger, 2)[0].stake.amount, 70);
}

#[test]
fn balance_scenario_at_level_nine() {
    // Stake 100 at tick 0; at tick 86400 the curve sits at level 9,
    // so 90 of the deposit is claimable.
    let mut ledger = ledger_with(1, 100, 0);
    assert_eq!(ledger.get_balance(1, DAY), Ok(90));
    // Claiming 50 debits the single entry and keeps it.
    assert_eq!(ledger.claim(1, 50, DAY), Ok(()));
    let history = entries(&ledger, 1);
    assert_eq!(history.len(), 1);
    assert_eq!(history[0].withdrawn, 50);
    assert_eq!(history[0].stake.amount, 100);
    assert_eq!(ledger.get_balance(1, DAY), Ok(40));
}

#[test]
fn claim_rejects_beyond_claimable_without_mutation() {
    let mut ledger = ledger_with(1, 100, 0);
    let before = entries(&ledger, 1).clone();
    assert_eq!(ledger.claim(1, 91, DAY), Err(StakingError::ExceedsClaimable));
    assert_eq!(entries(&ledger, 1), &before);
    assert_eq!(ledger.get_balance(1, DAY), Ok(90));
}

#[test]
fn claim_of_exact_claimable_balance_succeeds() {
    let mut ledger = ledger_with(1, 100, 0);
    assert_eq!(ledger.claim(1, 90, DAY), Ok(()));
    assert_eq!(entries(&ledger, 1)[0].withdrawn, 90);
    assert_eq!(ledger.get_balance(1, DAY), Ok(0));
}

#[test]
fn claim_of_zero_changes_nothing() {
    let mut ledger = ledger_with(1, 100, 0);
    let before = entries(&ledger, 1).clone();
    assert_eq!(ledger.claim(1, 0, DAY), Ok(()));
    assert_eq!(entries(&ledger, 1), &before);
}

#[test]
fn exhausted_entry_is_removed_and_order_is_kept() {
    // First stake fully unlocks at tick 103680; the second, made later, is
    // still locked there.
    let mut ledger = ledger_with(1, 30, 0);
    assert_eq!(ledger.stake(1, 100, 96000, 1000), Ok(()));
    assert_eq!(ledger.get_balance(1, 103680), Ok(30));
    assert_eq!(ledger.claim(1, 30, 103680), Ok(()));
    let history = entries(&ledger, 1);
    assert_eq!(history.len(), 1);
    assert_eq!(history[0].stake.amount, 100);
    assert_eq!(history[0].stake.timestamp, 96000);
    assert_eq!(history[0].withdrawn, 0);
}

#[test]
fn claim_walks_oldest_entries_first() {
    // Both entries fully unlocked: a partial claim must debit the oldest
    // entry first and leave the newer one untouched.
    let mut ledger = ledger_with(1, 30, 0);
    assert_eq!(ledger.stake(1, 50, 10, 1000), Ok(()));
    assert_eq!(ledger.get_balance(1, 200000), Ok(80));
    assert_eq!(ledger.claim(1, 40, 200000), Ok(()));
    let history = entries(&ledger, 1);
    // The 30-stake was exhausted and removed; 10 came out of the 50-stake.
    assert_eq!(history.len(), 1);
    assert_eq!(history[0].stake.amount, 50);
    assert_eq!(history[0].withdrawn, 10);
    assert_eq!(ledger.get_balance(1, 200000), Ok(40));
}

#[test]
fn claim_all_exhausts_exactly_the_claimable_total() {
    let mut ledger = ledger_with(1, 100, 0);
    assert_eq!(ledger.stake(1, 50, 90000, 1000), Ok(()));
    // At 103680 the first entry is fully unlocked, the second not at all.
    assert_eq!(ledger.get_balance(1, 103680), Ok(100));
    assert_eq!(ledger.claim_all(1, 103680), Ok(100));
    let history = entries(&ledger, 1);
    assert_eq!(history.len(), 1);
    assert_eq!(history[0].stake.amount, 50);
    assert_eq!(history[0].withdrawn, 0);
    assert_eq!(ledger.get_balance(1, 103680), Ok(0));
}

#[test]
fn claim_all_on_partial_unlock_keeps_the_entry() {
    let mut ledger = ledger_with(1, 100, 0);
    assert_eq!(ledger.claim_all(1, DAY), Ok(90));
    assert_eq!(entries(&ledger, 1)[0].withdrawn, 90);
    assert_eq!(ledger.get_balance(1, DAY), Ok(0));
    // Later the last tenth unlocks; claiming it exhausts and removes the
    // entry, leaving the account with an empty history, not no history.
    assert_eq!(ledger.claim_all(1, 103680), Ok(10));
    assert_eq!(entries(&ledger, 1).len(), 0);
    assert_eq!(ledger.get_balance(1, 103680), Ok(0));
}

#[test]
fn withdrawn_never_decreases_across_claims() {
    let mut ledger = ledger_with(1, 100, 0);
    let mut last: u128 = 0;
    for (tick, request) in [(DAY, 20u128), (DAY + 10, 30), (103680, 25)] {
        assert_eq!(ledger.claim(1, request, tick), Ok(()));
        let now = entries(&ledger, 1)[0].withdrawn;
        assert!(now >= last);
        last = now;
    }
    assert_eq!(last, 75);
}

#[test]
fn claim_all_with_nothing_claimable_is_rejected() {
    let mut ledger = ledger_with(1, 100, 0);
    let before = entries(&ledger, 1).clone();
    assert_eq!(ledger.claim_all(1, 0), Err(StakingError::NothingToClaim));
    assert_eq!(entries(&ledger, 1), &before);
}

#[test]
fn operations_on_unknown_accounts_report_no_history() {
    let mut ledger = ledger_with(1, 100, 0);
    assert_eq!(ledger.get_balance(9, DAY), Err(StakingError::NoStakeHistory));
    assert_eq!(ledger.claim(9, 1, DAY), Err(StakingError::NoStakeHistory));
    assert_eq!(ledger.claim_all(9, DAY), Err(StakingError::NoStakeHistory));
    assert_eq!(ledger.get_staked_timestamp(9, 0), Err(StakingError::NoStakeHistory));
    assert_eq!(ledger.get_staked_amount(9, 0), Err(StakingError::NoStakeHistory));
}

#[test]
fn accessors_reject_an_out_of_range_index() {
    let ledger = ledger_with(1, 100, 0);
    assert_eq!(ledger.get_staked_timestamp(1, 1), Err(StakingError::NoStakeHistory));
    assert_eq!(ledger.get_staked_amount(1, 1), Err(StakingError::NoStakeHistory));
}

#[test]
fn claims_do_not_touch_other_accounts() {
    let mut ledger = ledger_with(1, 100, 0);
    assert_eq!(ledger.stake(2, 60, 0, 1000), Ok(()));
    assert_eq!(ledger.claim(1, 10, DAY), Ok(()));
    assert_eq!(ledger.claim_all(2, DAY), Ok(54));
    assert_eq!(entries(&ledger, 1)[0].withdrawn, 10);
    assert_eq!(entries(&ledger, 2)[0].withdrawn, 54);
}

#[test]
fn zero_amount_stake_is_swept_away_by_a_claim() {
    let mut ledger = ledger_with(1, 0, 0);
    assert_eq!(ledger.stake(1, 100, 0, 1000), Ok(()));
    assert_eq!(entries(&ledger, 1).len(), 2);
    assert_eq!(ledger.claim(1, 5, DAY), Ok(()));
    // The empty entry was exhausted from the start and drops out of the walk.
    let history = entries(&ledger, 1);
    assert_eq!(history.len(), 1);
    assert_eq!(history[0].stake.amount, 100);
    assert_eq!(history[0].withdrawn, 5);
}
