//! The staking ledger: per-account stake history, deposit, claimable-balance
//! query, and claim reconciliation.

use crate::curve::{config_ok, unlock_level_at, unlock_level_ticks, BLOCK_TIME, STAKING_TIME};
use std::collections::HashMap;
use vstd::arithmetic::div_mod::{lemma_div_is_ordered, lemma_div_multiples_vanish};
use vstd::arithmetic::mul::lemma_mul_inequality;
use vstd::prelude::*;

verus! {

broadcast use vstd::std_specs::hash::group_hash_axioms;

/// One deposit: the amount staked and the clock tick at which it was
/// recorded. Immutable once created.
#[derive(Clone, Copy, Debug, PartialEq, Eq, Structural)]
pub struct Stake {
    pub amount: u128,
    pub timestamp: u128,
}

/// A stake together with how much of it has been paid out so far.
#[derive(Clone, Copy, Debug, PartialEq, Eq, Structural)]
pub struct Entry {
    pub stake: Stake,
    pub withdrawn: u128,
}

/// Why an operation was rejected. Every rejection leaves the ledger
/// unchanged.
#[derive(Clone, Copy, Debug, PartialEq, Eq, Structural)]
pub enum StakingError {
    /// A deposit larger than the caller's token balance.
    InsufficientFunds,
    /// A claim larger than the currently claimable balance.
    ExceedsClaimable,
    /// A claim-all with nothing currently claimable.
    NothingToClaim,
    /// A query against an account that never staked.
    NoStakeHistory,
}

/// How much of `e`'s deposit is unlocked at tick `now`, in absolute amount:
/// the curve's tenths applied to the staked amount.
pub open spec fn cap_of(e: Entry, now: int, staking_time: int, block_time: int) -> int {
    unlock_level_at(now - e.stake.timestamp, staking_time, block_time) * e.stake.amount / 10
}

/// How much of `e` is unlocked but not yet withdrawn at tick `now`.
pub open spec fn claimable_of(e: Entry, now: int, staking_time: int, block_time: int) -> int {
    cap_of(e, now, staking_time, block_time) - e.withdrawn
}

/// A live entry: not yet fully claimed, unless it never held anything.
pub open spec fn entry_ok(e: Entry) -> bool {
    e.withdrawn < e.stake.amount || (e.stake.amount == 0 && e.withdrawn == 0)
}

pub open spec fn entries_ok(s: Seq<Entry>) -> bool {
    forall|i: int| 0 <= i < s.len() ==> entry_ok(#[trigger] s[i])
}

/// Nothing has been withdrawn beyond what tick `now` unlocks. This is the
/// ledger's clock-facing invariant: every operation preserves it at the tick
/// it was given, and a later tick only widens it (see
/// [`crate::laws::lemma_current_at_later_tick`]).
pub open spec fn entries_current(s: Seq<Entry>, now: int, staking_time: int, block_time: int) -> bool {
    forall|i: int|
        0 <= i < s.len() ==> (#[trigger] s[i]).withdrawn <= cap_of(
            s[i],
            now,
            staking_time,
            block_time,
        )
}

/// Sum of the staked amounts of `s`.
pub open spec fn total_amount(s: Seq<Entry>) -> int
    decreases s.len(),
{
    if s.len() == 0 {
        0
    } else {
        s[0].stake.amount + total_amount(s.skip(1))
    }
}

/// Sum of the withdrawn amounts of `s`.
pub open spec fn total_withdrawn(s: Seq<Entry>) -> int
    decreases s.len(),
{
    if s.len() == 0 {
        0
    } else {
        s[0].withdrawn + total_withdrawn(s.skip(1))
    }
}

/// Sum of the unlocked amounts of `s` at tick `now`.
pub open spec fn total_cap(s: Seq<Entry>, now: int, staking_time: int, block_time: int) -> int
    decreases s.len(),
{
    if s.len() == 0 {
        0
    } else {
        cap_of(s[0], now, staking_time, block_time) + total_cap(
            s.skip(1),
            now,
            staking_time,
            block_time,
        )
    }
}

/// The claimable balance of `s` at tick `now`: what a claim walk could pay
/// out in total.
pub open spec fn total_claimable(s: Seq<Entry>, now: int, staking_time: int, block_time: int) -> int
    decreases s.len(),
{
    if s.len() == 0 {
        0
    } else {
        claimable_of(s[0], now, staking_time, block_time) + total_claimable(
            s.skip(1),
            now,
            staking_time,
            block_time,
        )
    }
}

/// `e` with `delta` more withdrawn.
pub open spec fn bump(e: Entry, delta: int) -> Entry {
    Entry { stake: e.stake, withdrawn: (e.withdrawn + delta) as u128 }
}

/// The ledger an account is left with after claiming `amount` at tick `now`:
/// walk the entries oldest first, consume each one's unlocked remainder until
/// the request is met, and drop every entry the walk exhausts completely.
pub open spec fn settled(s: Seq<Entry>, amount: int, now: int, staking_time: int, block_time: int) -> Seq<Entry>
    decreases s.len(),
{
    if s.len() == 0 || amount <= 0 {
        s
    } else {
        let u = claimable_of(s[0], now, staking_time, block_time);
        if u > amount {
            seq![bump(s[0], amount)] + s.skip(1)
        } else {
            let e = bump(s[0], u);
            let rest = settled(s.skip(1), amount - u, now, staking_time, block_time);
            if e.withdrawn == e.stake.amount {
                rest
            } else {
                seq![e] + rest
            }
        }
    }
}

/// The ledger an account is left with after claiming everything claimable at
/// tick `now`: every entry's unlocked remainder is consumed, and fully
/// exhausted entries are dropped.
pub open spec fn settled_all(s: Seq<Entry>, now: int, staking_time: int, block_time: int) -> Seq<Entry>
    decreases s.len(),
{
    if s.len() == 0 {
        s
    } else {
        let e = bump(s[0], claimable_of(s[0], now, staking_time, block_time));
        let rest = settled_all(s.skip(1), now, staking_time, block_time);
        if e.withdrawn == e.stake.amount {
            rest
        } else {
            seq![e] + rest
        }
    }
}

/// The unlocked amount of an entry never exceeds what was staked.
pub proof fn lemma_cap_bounds(e: Entry, now: int, staking_time: int, block_time: int)
    requires
        config_ok(staking_time, block_time),
    ensures
        0 <= cap_of(e, now, staking_time, block_time) <= e.stake.amount,
{
    let level = unlock_level_at(now - e.stake.timestamp, staking_time, block_time);
    crate::curve::lemma_unlock_level_bounds(now - e.stake.timestamp, staking_time, block_time);
    assert(0 <= level * e.stake.amount) by {
        lemma_mul_inequality(0, level, e.stake.amount as int);
    }
    assert(level * e.stake.amount <= 10 * e.stake.amount) by {
        lemma_mul_inequality(level, 10, e.stake.amount as int);
    }
    lemma_div_is_ordered(0, level * e.stake.amount, 10);
    lemma_div_is_ordered(level * e.stake.amount, 10 * e.stake.amount, 10);
    lemma_div_multiples_vanish(e.stake.amount as int, 10);
}

/// Unfolds the sums at position `i`: the sum over `s.skip(i)` is entry `i`'s
/// contribution plus the sum over `s.skip(i + 1)`.
pub proof fn lemma_sums_skip_unfold(s: Seq<Entry>, i: int, now: int, staking_time: int, block_time: int)
    requires
        0 <= i < s.len(),
    ensures
        total_amount(s.skip(i)) == s[i].stake.amount + total_amount(s.skip(i + 1)),
        total_withdrawn(s.skip(i)) == s[i].withdrawn + total_withdrawn(s.skip(i + 1)),
        total_cap(s.skip(i), now, staking_time, block_time) == cap_of(s[i], now, staking_time, block_time)
            + total_cap(s.skip(i + 1), now, staking_time, block_time),
        total_claimable(s.skip(i), now, staking_time, block_time) == claimable_of(
            s[i],
            now,
            staking_time,
            block_time,
        ) + total_claimable(s.skip(i + 1), now, staking_time, block_time),
{
    assert(s.skip(i)[0] == s[i]);
    assert(s.skip(i).skip(1) =~= s.skip(i + 1));
}

/// Splits each sum over `s` at position `i`.
pub proof fn lemma_sums_split(s: Seq<Entry>, i: int, now: int, staking_time: int, block_time: int)
    requires
        0 <= i <= s.len(),
    ensures
        total_amount(s) == total_amount(s.take(i)) + total_amount(s.skip(i)),
        total_withdrawn(s) == total_withdrawn(s.take(i)) + total_withdrawn(s.skip(i)),
        total_cap(s, now, staking_time, block_time) == total_cap(s.take(i), now, staking_time, block_time)
            + total_cap(s.skip(i), now, staking_time, block_time),
        total_claimable(s, now, staking_time, block_time) == total_claimable(
            s.take(i),
            now,
            staking_time,
            block_time,
        ) + total_claimable(s.skip(i), now, staking_time, block_time),
    decreases i,
{
    if i == 0 {
        assert(s.take(0) =~= Seq::<Entry>::empty());
        assert(s.skip(0) =~= s);
    } else {
        lemma_sums_split(s, i - 1, now, staking_time, block_time);
        lemma_sums_skip_unfold(s, i - 1, now, staking_time, block_time);
        let t1 = s.take(i - 1);
        let t2 = s.take(i);
        assert(t2 =~= t1.push(s[i - 1]));
        lemma_sums_push(t1, s[i - 1], now, staking_time, block_time);
    }
}

/// Appending an entry adds its contribution to each sum.
pub proof fn lemma_sums_push(s: Seq<Entry>, e: Entry, now: int, staking_time: int, block_time: int)
    ensures
        total_amount(s.push(e)) == total_amount(s) + e.stake.amount,
        total_withdrawn(s.push(e)) == total_withdrawn(s) + e.withdrawn,
        total_cap(s.push(e), now, staking_time, block_time) == total_cap(s, now, staking_time, block_time)
            + cap_of(e, now, staking_time, block_time),
        total_claimable(s.push(e), now, staking_time, block_time) == total_claimable(
            s,
            now,
            staking_time,
            block_time,
        ) + claimable_of(e, now, staking_time, block_time),
    decreases s.len(),
{
    if s.len() == 0 {
        assert(s.push(e)[0] == e);
        assert(s.push(e).skip(1) =~= Seq::<Entry>::empty());
        assert(total_amount(s.push(e)) == e.stake.amount + total_amount(Seq::<Entry>::empty()));
        assert(total_withdrawn(s.push(e)) == e.withdrawn + total_withdrawn(Seq::<Entry>::empty()));
        assert(total_cap(s.push(e), now, staking_time, block_time) == cap_of(e, now, staking_time, block_time)
            + total_cap(Seq::<Entry>::empty(), now, staking_time, block_time));
        assert(total_claimable(s.push(e), now, staking_time, block_time) == claimable_of(
            e,
            now,
            staking_time,
            block_time,
        ) + total_claimable(Seq::<Entry>::empty(), now, staking_time, block_time));
    } else {
        assert(s.push(e)[0] == s[0]);
        assert(s.push(e).skip(1) =~= s.skip(1).push(e));
        lemma_sums_push(s.skip(1), e, now, staking_time, block_time);
        assert(total_amount(s.push(e)) == s[0].stake.amount + total_amount(s.skip(1).push(e)));
        assert(total_withdrawn(s.push(e)) == s[0].withdrawn + total_withdrawn(s.skip(1).push(e)));
        assert(total_cap(s.push(e), now, staking_time, block_time) == cap_of(s[0], now, staking_time, block_time)
            + total_cap(s.skip(1).push(e), now, staking_time, block_time));
        assert(total_claimable(s.push(e), now, staking_time, block_time) == claimable_of(
            s[0],
            now,
            staking_time,
            block_time,
        ) + total_claimable(s.skip(1).push(e), now, staking_time, block_time));
    }
}

/// Every sum of staked amounts is non-negative, and each entry's amount is
/// bounded by the total.
pub proof fn lemma_total_amount_nonneg(s: Seq<Entry>)
    ensures
        0 <= total_amount(s),
    decreases s.len(),
{
    if s.len() > 0 {
        lemma_total_amount_nonneg(s.skip(1));
    }
}

pub proof fn lemma_entry_le_total_amount(s: Seq<Entry>, i: int)
    requires
        0 <= i < s.len(),
    ensures
        s[i].stake.amount <= total_amount(s),
{
    lemma_sums_split(s, i, 0, 0, 0);
    lemma_sums_skip_unfold(s, i, 0, 0, 0);
    lemma_total_amount_nonneg(s.take(i));
    lemma_total_amount_nonneg(s.skip(i + 1));
}

/// At any tick, the claimable balance lies between zero and the total staked
/// amount (zero only requires that nothing was overdrawn).
pub proof fn lemma_total_claimable_bounds(s: Seq<Entry>, now: int, staking_time: int, block_time: int)
    requires
        config_ok(staking_time, block_time),
        entries_current(s, now, staking_time, block_time),
    ensures
        0 <= total_claimable(s, now, staking_time, block_time) <= total_amount(s),
    decreases s.len(),
{
    if s.len() > 0 {
        lemma_cap_bounds(s[0], now, staking_time, block_time);
        assert(entries_current(s.skip(1), now, staking_time, block_time)) by {
            assert(forall|j: int|
                0 <= j < s.skip(1).len() ==> #[trigger] s.skip(1)[j] == s[j + 1]);
        }
        lemma_total_claimable_bounds(s.skip(1), now, staking_time, block_time);
    }
}

/// A well-formed account history: live entries whose total stays clear of
/// overflow in every intermediate computation.
pub open spec fn account_ok(s: Seq<Entry>) -> bool {
    entries_ok(s) && total_amount(s) <= u128::MAX / 10
}

/// The staking ledger. `accounts` maps an account to its stake history,
/// oldest deposit first; the two configuration fields are fixed at
/// construction.
pub struct Staking {
    pub accounts: HashMap<u128, Vec<Entry>>,
    pub staking_time: u128,
    pub block_time: u128,
}

impl Staking {
    /// The account's history, or empty if it never staked.
    pub open spec fn entries_of(self, account: u128) -> Seq<Entry> {
        if self.accounts@.contains_key(account) {
            self.accounts@[account]@
        } else {
            Seq::empty()
        }
    }

    pub open spec fn has_account(self, account: u128) -> bool {
        self.accounts@.contains_key(account)
    }

    pub open spec fn wf(self) -> bool {
        &&& config_ok(self.staking_time as int, self.block_time as int)
        &&& forall|k: u128|
            #[trigger] self.accounts@.contains_key(k) ==> account_ok(self.accounts@[k]@)
    }

    /// The account's history does not overdraw what tick `now` unlocks.
    pub open spec fn current_at(self, account: u128, now: int) -> bool {
        entries_current(
            self.entries_of(account),
            now,
            self.staking_time as int,
            self.block_time as int,
        )
    }

    /// A fresh ledger with the fixed unlock configuration and no accounts.
    pub fn new() -> (ledger: Staking)
        ensures
            ledger.wf(),
            ledger.accounts@ == Map::<u128, Vec<Entry>>::empty(),
            ledger.staking_time == STAKING_TIME,
            ledger.block_time == BLOCK_TIME,
    {
        Staking { accounts: HashMap::new(), staking_time: 86400 * 5, block_time: 5 }
    }

    /// The unlock level of a deposit made at tick `start`, read at tick
    /// `now`, on the 0..=10 scale.
    pub fn get_unstakable(&self, now: u128, start: u128) -> (level: u128)
        requires
            self.wf(),
        ensures
            level == unlock_level_at(now - start, self.staking_time as int, self.block_time as int),
            level <= 10,
    {
        unlock_level_ticks(now, start, self.staking_time, self.block_time)
    }

    /// Records a deposit of `amount` by `caller` at tick `now`, appending one
    /// fresh entry to the caller's history and leaving everything else
    /// untouched. `caller_token_balance` is the caller's balance on the
    /// external token ledger; a deposit beyond it is rejected with no state
    /// change. On success the caller owes a transfer of `amount` from the
    /// caller to the contract's token account.
    pub fn stake(
        &mut self,
        caller: u128,
        amount: u128,
        now: u128,
        caller_token_balance: u128,
    ) -> (outcome: Result<(), StakingError>)
        requires
            old(self).wf(),
            total_amount(old(self).entries_of(caller)) + amount <= u128::MAX / 10,
        ensures
            final(self).wf(),
            final(self).staking_time == old(self).staking_time,
            final(self).block_time == old(self).block_time,
            match outcome {
                Ok(()) => {
                    &&& amount <= caller_token_balance
                    &&& final(self).entries_of(caller) == old(self).entries_of(caller).push(
                        Entry { stake: Stake { amount, timestamp: now }, withdrawn: 0 },
                    )
                    &&& final(self).accounts@.dom() == old(self).accounts@.dom().insert(caller)
                    &&& forall|k: u128|
                        k != caller && old(self).accounts@.contains_key(k)
                            ==> #[trigger] final(self).accounts@[k] == old(self).accounts@[k]
                },
                Err(e) => {
                    &&& e == StakingError::InsufficientFunds
                    &&& amount > caller_token_balance
                    &&& *final(self) == *old(self)
                },
            },
            forall|k: u128, n: int|
                old(self).current_at(k, n) ==> #[trigger] final(self).current_at(k, n),
    {
        if caller_token_balance < amount {
            return Err(StakingError::InsufficientFunds);
        }
        let entry = Entry { stake: Stake { amount, timestamp: now }, withdrawn: 0 };
        let ghost prior = self.entries_of(caller);
        let mut history: Vec<Entry> = match self.accounts.remove(&caller) {
            Some(v) => v,
            None => Vec::new(),
        };
        history.push(entry);
        self.accounts.insert(caller, history);
        proof {
            assert(self.accounts@.dom() =~= old(self).accounts@.dom().insert(caller));
            assert(self.entries_of(caller) =~= prior.push(entry));
            lemma_sums_push(prior, entry, 0, 0, 0);
            assert forall|k: u128| #[trigger]
                self.accounts@.contains_key(k) implies account_ok(self.accounts@[k]@) by {
                if k != caller {
                    assert(old(self).accounts@.contains_key(k));
                }
            }
            assert forall|k: u128, n: int|
                old(self).current_at(k, n) implies #[trigger] self.current_at(k, n) by {
                if k == caller {
                    let st = self.staking_time as int;
                    let bt = self.block_time as int;
                    lemma_cap_bounds(entry, n, st, bt);
                    assert forall|i: int|
                        0 <= i < self.entries_of(k).len() implies (
                        #[trigger] self.entries_of(k)[i]).withdrawn <= cap_of(
                        self.entries_of(k)[i],
                        n,
                        st,
                        bt,
                    ) by {
                        if i < prior.len() {
                            assert(self.entries_of(k)[i] == prior[i]);
                        } else {
                            assert(self.entries_of(k)[i] == entry);
                        }
                    }
                }
            }
        }
        Ok(())
    }

    /// Withdraws `amount` for `caller` at tick `now`, consuming the oldest
    /// stakes first and removing every entry the walk exhausts. A request
    /// beyond the claimable balance, or by an account that never staked, is
    /// rejected with no state change. On success the caller owes a transfer
    /// of exactly `amount` from the contract's token account to the caller.
    pub fn claim(&mut self, caller: u128, amount: u128, now: u128) -> (outcome: Result<
        (),
        StakingError,
    >)
        requires
            old(self).wf(),
            old(self).current_at(caller, now as int),
        ensures
            final(self).wf(),
            final(self).staking_time == old(self).staking_time,
            final(self).block_time == old(self).block_time,
            final(self).accounts@.dom() == old(self).accounts@.dom(),
            forall|k: u128|
                k != caller && old(self).accounts@.contains_key(k)
                    ==> #[trigger] final(self).accounts@[k] == old(self).accounts@[k],
            final(self).current_at(caller, now as int),
            match outcome {
                Ok(()) => {
                    let st = old(self).staking_time as int;
                    let bt = old(self).block_time as int;
                    let before = old(self).entries_of(caller);
                    &&& old(self).has_account(caller)
                    &&& amount <= total_claimable(before, now as int, st, bt)
                    &&& final(self).entries_of(caller) == settled(
                        before,
                        amount as int,
                        now as int,
                        st,
                        bt,
                    )
                    &&& total_claimable(final(self).entries_of(caller), now as int, st, bt)
                        == total_claimable(before, now as int, st, bt) - amount
                    &&& crate::laws::derives_from(before, final(self).entries_of(caller))
                },
                Err(e) => {
                    let st = old(self).staking_time as int;
                    let bt = old(self).block_time as int;
                    &&& *final(self) == *old(self)
                    &&& (e == StakingError::NoStakeHistory <==> !old(self).has_account(caller))
                    &&& (e == StakingError::ExceedsClaimable <==> old(self).has_account(caller)
                        && amount > total_claimable(
                        old(self).entries_of(caller),
                        now as int,
                        st,
                        bt,
                    ))
                    &&& (e == StakingError::NoStakeHistory || e == StakingError::ExceedsClaimable)
                },
            },
    {
        let ghost st = self.staking_time as int;
        let ghost bt = self.block_time as int;
        let balance = match self.get_balance(caller, now) {
            Ok(b) => b,
            Err(e) => {
                return Err(e);
            },
        };
        if balance < amount {
            return Err(StakingError::ExceedsClaimable);
        }
        let mut history = match self.accounts.remove(&caller) {
            Some(v) => v,
            None => {
                proof {
                    assert(false);
                }
                return Err(StakingError::NoStakeHistory);
            },
        };
        settle(&mut history, amount, now, self.staking_time, self.block_time);
        self.accounts.insert(caller, history);
        proof {
            let before = old(self).entries_of(caller);
            crate::laws::lemma_settled_preserves(before, amount as int, now as int, st, bt);
            crate::laws::lemma_settled_derives_from(before, amount as int, now as int, st, bt);
            assert(self.accounts@.dom() =~= old(self).accounts@.dom());
            assert forall|k: u128| #[trigger]
                self.accounts@.contains_key(k) implies account_ok(self.accounts@[k]@) by {
                if k != caller {
                    assert(old(self).accounts@.contains_key(k));
                }
            }
        }
        Ok(())
    }

    /// Withdraws everything currently claimable for `caller` at tick `now`:
    /// every entry's unlocked remainder is consumed and fully exhausted
    /// entries are removed. Rejected with no state change when nothing is
    /// claimable or the account never staked. On success the caller owes a
    /// transfer of the returned total from the contract's token account to
    /// the caller.
    pub fn claim_all(&mut self, caller: u128, now: u128) -> (outcome: Result<u128, StakingError>)
        requires
            old(self).wf(),
            old(self).current_at(caller, now as int),
        ensures
            final(self).wf(),
            final(self).staking_time == old(self).staking_time,
            final(self).block_time == old(self).block_time,
            final(self).accounts@.dom() == old(self).accounts@.dom(),
            forall|k: u128|
                k != caller && old(self).accounts@.contains_key(k)
                    ==> #[trigger] final(self).accounts@[k] == old(self).accounts@[k],
            final(self).current_at(caller, now as int),
            match outcome {
                Ok(payout) => {
                    let st = old(self).staking_time as int;
                    let bt = old(self).block_time as int;
                    let before = old(self).entries_of(caller);
                    &&& old(self).has_account(caller)
                    &&& payout == total_claimable(before, now as int, st, bt)
                    &&& payout > 0
                    &&& final(self).entries_of(caller) == settled_all(before, now as int, st, bt)
                    &&& total_claimable(final(self).entries_of(caller), now as int, st, bt) == 0
                    &&& crate::laws::derives_from(before, final(self).entries_of(caller))
                },
                Err(e) => {
                    let st = old(self).staking_time as int;
                    let bt = old(self).block_time as int;
                    &&& *final(self) == *old(self)
                    &&& (e == StakingError::NoStakeHistory <==> !old(self).has_account(caller))
                    &&& (e == StakingError::NothingToClaim <==> old(self).has_account(caller)
                        && total_claimable(old(self).entries_of(caller), now as int, st, bt) == 0)
                    &&& (e == StakingError::NoStakeHistory || e == StakingError::NothingToClaim)
                },
            },
    {
        let ghost st = self.staking_time as int;
        let ghost bt = self.block_time as int;
        let balance = match self.get_balance(caller, now) {
            Ok(b) => b,
            Err(e) => {
                return Err(e);
            },
        };
        if balance == 0 {
            return Err(StakingError::NothingToClaim);
        }
        let mut history = match self.accounts.remove(&caller) {
            Some(v) => v,
            None => {
                proof {
                    assert(false);
                }
                return Err(StakingError::NoStakeHistory);
            },
        };
        settle_everything(&mut history, now, self.staking_time, self.block_time);
        self.accounts.insert(caller, history);
        proof {
            let before = old(self).entries_of(caller);
            crate::laws::lemma_settled_all_exhausts(before, now as int, st, bt);
            crate::laws::lemma_settled_all_derives_from(before, now as int, st, bt);
            assert(self.accounts@.dom() =~= old(self).accounts@.dom());
            assert forall|k: u128| #[trigger]
                self.accounts@.contains_key(k) implies account_ok(self.accounts@[k]@) by {
                if k != caller {
                    assert(old(self).accounts@.contains_key(k));
                }
            }
        }
        Ok(balance)
    }

    /// The account's claimable balance at tick `now`: the sum over its
    /// entries of what is unlocked but not yet withdrawn. An account with no
    /// stake history has no balance, not a zero one.
    pub fn get_balance(&self, addr: u128, now: u128) -> (outcome: Result<u128, StakingError>)
        requires
            self.wf(),
            self.current_at(addr, now as int),
        ensures
            match outcome {
                Ok(balance) => self.has_account(addr) && balance == total_claimable(
                    self.entries_of(addr),
                    now as int,
                    self.staking_time as int,
                    self.block_time as int,
                ),
                Err(e) => e == StakingError::NoStakeHistory && !self.has_account(addr),
            },
    {
        match self.accounts.get(&addr) {
            Some(history) => Ok(
                claimable_total(history, now, self.staking_time, self.block_time),
            ),
            None => Err(StakingError::NoStakeHistory),
        }
    }

    /// The deposit tick of the account's `index`-th oldest stake.
    pub fn get_staked_timestamp(&self, addr: u128, index: usize) -> (outcome: Result<
        u128,
        StakingError,
    >)
        ensures
            match outcome {
                Ok(t) => self.has_account(addr) && index < self.entries_of(addr).len() && t
                    == self.entries_of(addr)[index as int].stake.timestamp,
                Err(e) => e == StakingError::NoStakeHistory && (!self.has_account(addr) || index
                    >= self.entries_of(addr).len()),
            },
    {
        match self.accounts.get(&addr) {
            Some(history) => {
                if index < history.len() {
                    Ok(history[index].stake.timestamp)
                } else {
                    Err(StakingError::NoStakeHistory)
                }
            },
            None => Err(StakingError::NoStakeHistory),
        }
    }

    /// The amount of the account's `index`-th oldest stake.
    pub fn get_staked_amount(&self, addr: u128, index: usize) -> (outcome: Result<
        u128,
        StakingError,
    >)
        ensures
            match outcome {
                Ok(a) => self.has_account(addr) && index < self.entries_of(addr).len() && a
                    == self.entries_of(addr)[index as int].stake.amount,
                Err(e) => e == StakingError::NoStakeHistory && (!self.has_account(addr) || index
                    >= self.entries_of(addr).len()),
            },
    {
        match self.accounts.get(&addr) {
            Some(history) => {
                if index < history.len() {
                    Ok(history[index].stake.amount)
                } else {
                    Err(StakingError::NoStakeHistory)
                }
            },
            None => Err(StakingError::NoStakeHistory),
        }
    }
}

/// Restricting a history to a suffix keeps its entry-wise properties.
pub proof fn lemma_entry_props_skip(s: Seq<Entry>, i: int, now: int, staking_time: int, block_time: int)
    requires
        0 <= i <= s.len(),
    ensures
        entries_ok(s) ==> entries_ok(s.skip(i)),
        entries_current(s, now, staking_time, block_time) ==> entries_current(
            s.skip(i),
            now,
            staking_time,
            block_time,
        ),
{
    assert(forall|j: int| 0 <= j < s.skip(i).len() ==> #[trigger] s.skip(i)[j] == s[j + i]);
}

/// Walks `entries` oldest first, consuming each entry's unlocked remainder
/// until `amount` has been consumed, removing entries the walk exhausts; the
/// in-place result is exactly [`settled`] of the starting history.
fn settle(entries: &mut Vec<Entry>, amount: u128, now: u128, staking_time: u128, block_time: u128)
    requires
        config_ok(staking_time as int, block_time as int),
        account_ok(old(entries)@),
        entries_current(old(entries)@, now as int, staking_time as int, block_time as int),
        amount <= total_claimable(
            old(entries)@,
            now as int,
            staking_time as int,
            block_time as int,
        ),
    ensures
        final(entries)@ == settled(
            old(entries)@,
            amount as int,
            now as int,
            staking_time as int,
            block_time as int,
        ),
{
    let ghost s0 = entries@;
    let ghost st = staking_time as int;
    let ghost bt = block_time as int;
    let ghost nowi = now as int;
    let mut remaining: u128 = amount;
    let mut i: usize = 0;
    proof {
        assert(s0.skip(0) =~= s0);
        assert(s0.take(0) + settled(s0, amount as int, nowi, st, bt) =~= settled(
            s0,
            amount as int,
            nowi,
            st,
            bt,
        ));
    }
    while i < entries.len() && remaining > 0
        invariant
            config_ok(st, bt),
            staking_time == st,
            block_time == bt,
            nowi == now as int,
            account_ok(s0),
            i <= entries@.len(),
            entries_ok(entries@),
            entries_current(entries@, nowi, st, bt),
            total_amount(entries@) <= total_amount(s0),
            remaining <= total_claimable(entries@.skip(i as int), nowi, st, bt),
            settled(s0, amount as int, nowi, st, bt) == entries@.take(i as int) + settled(
                entries@.skip(i as int),
                remaining as int,
                nowi,
                st,
                bt,
            ),
        decreases entries@.len() - i, remaining,
    {
        let ghost pre = entries@;
        let ghost sk = pre.skip(i as int);
        let ghost rem0 = remaining as int;
        let e = entries[i];
        let level = unlock_level_ticks(now, e.stake.timestamp, staking_time, block_time);
        proof {
            lemma_total_amount_nonneg(pre);
            lemma_entry_le_total_amount(pre, i as int);
            lemma_mul_inequality(level as int, 10, e.stake.amount as int);
            lemma_cap_bounds(e, nowi, st, bt);
            lemma_sums_skip_unfold(pre, i as int, nowi, st, bt);
            lemma_entry_props_skip(pre, i + 1, nowi, st, bt);
            lemma_total_claimable_bounds(pre.skip(i + 1), nowi, st, bt);
            assert(sk[0] == e);
            assert(sk.skip(1) =~= pre.skip(i + 1));
        }
        let cap = level * e.stake.amount / 10;
        assert(cap == cap_of(e, nowi, st, bt));
        let unlocked = cap - e.withdrawn;
        proof {
            assert(unlocked == claimable_of(e, nowi, st, bt));
        }
        if unlocked > remaining {
            let e2 = Entry { stake: e.stake, withdrawn: e.withdrawn + remaining };
            entries[i] = e2;
            remaining = 0;
            proof {
                assert(e2 == bump(e, rem0));
                assert(entries@ == pre.update(i as int, e2));
                assert(entries@.take(i as int) =~= pre.take(i as int));
                assert(entries@.skip(i as int) =~= seq![e2] + pre.skip(i + 1));
                assert(settled(sk, rem0, nowi, st, bt) == seq![e2] + pre.skip(i + 1));
                assert(settled(entries@.skip(i as int), 0, nowi, st, bt) == entries@.skip(
                    i as int,
                ));
                lemma_sums_split(entries@, i as int, nowi, st, bt);
                lemma_sums_split(pre, i as int, nowi, st, bt);
                lemma_sums_skip_unfold(entries@, i as int, nowi, st, bt);
                assert(entries@.skip(i + 1) =~= pre.skip(i + 1));
                assert forall|j: int| 0 <= j < entries@.len() implies entry_ok(
                    #[trigger] entries@[j],
                ) && entries@[j].withdrawn <= cap_of(entries@[j], nowi, st, bt) by {
                    if j != i {
                        assert(entries@[j] == pre[j]);
                    }
                }
                lemma_entry_props_skip(entries@, i as int, nowi, st, bt);
                lemma_total_claimable_bounds(entries@.skip(i as int), nowi, st, bt);
            }
        } else {
            let e2 = Entry { stake: e.stake, withdrawn: cap };
            remaining = remaining - unlocked;
            proof {
                assert(e2 == bump(e, unlocked as int));
            }
            if e2.withdrawn == e2.stake.amount {
                entries.remove(i);
                proof {
                    assert(settled(sk, rem0, nowi, st, bt) == settled(
                        pre.skip(i + 1),
                        rem0 - unlocked,
                        nowi,
                        st,
                        bt,
                    ));
                    assert(entries@ == pre.remove(i as int));
                    assert(entries@.take(i as int) =~= pre.take(i as int));
                    assert(entries@.skip(i as int) =~= pre.skip(i + 1));
                    lemma_sums_split(pre, i as int, nowi, st, bt);
                    lemma_sums_split(entries@, i as int, nowi, st, bt);
                    assert forall|j: int| 0 <= j < entries@.len() implies entry_ok(
                        #[trigger] entries@[j],
                    ) && entries@[j].withdrawn <= cap_of(entries@[j], nowi, st, bt) by {
                        if j < i {
                            assert(entries@[j] == pre[j]);
                        } else {
                            assert(entries@[j] == pre[j + 1]);
                        }
                    }
                }
            } else {
                entries[i] = e2;
                i = i + 1;
                proof {
                    assert(settled(sk, rem0, nowi, st, bt) == seq![e2] + settled(
                        pre.skip(i as int),
                        rem0 - unlocked,
                        nowi,
                        st,
                        bt,
                    ));
                    assert(entries@ == pre.update(i - 1, e2));
                    assert(entries@.take(i - 1) =~= pre.take(i - 1));
                    assert(entries@.skip(i as int) =~= pre.skip(i as int));
                    assert(entries@.take(i as int) =~= pre.take(i - 1).push(e2));
                    assert(entries@.take(i as int) + settled(
                        entries@.skip(i as int),
                        remaining as int,
                        nowi,
                        st,
                        bt,
                    ) =~= pre.take(i - 1) + (seq![e2] + settled(
                        pre.skip(i as int),
                        rem0 - unlocked,
                        nowi,
                        st,
                        bt,
                    )));
                    lemma_sums_split(pre, i - 1, nowi, st, bt);
                    lemma_sums_split(entries@, i - 1, nowi, st, bt);
                    lemma_sums_skip_unfold(entries@, i - 1, nowi, st, bt);
                    assert(entries@.skip(i as int) =~= pre.skip(i as int));
                    assert forall|j: int| 0 <= j < entries@.len() implies entry_ok(
                        #[trigger] entries@[j],
                    ) && entries@[j].withdrawn <= cap_of(entries@[j], nowi, st, bt) by {
                        if j != i - 1 {
                            assert(entries@[j] == pre[j]);
                        }
                    }
                }
            }
        }
    }
    proof {
        if remaining == 0 {
            assert(settled(entries@.skip(i as int), 0, nowi, st, bt) == entries@.skip(i as int));
        } else {
            assert(i == entries@.len());
            assert(entries@.skip(i as int) =~= Seq::<Entry>::empty());
        }
        assert(entries@.take(i as int) + entries@.skip(i as int) =~= entries@);
    }
}

/// Walks every entry oldest first, consuming its whole unlocked remainder
/// and removing entries the walk exhausts; the in-place result is exactly
/// [`settled_all`] of the starting history.
fn settle_everything(entries: &mut Vec<Entry>, now: u128, staking_time: u128, block_time: u128)
    requires
        config_ok(staking_time as int, block_time as int),
        account_ok(old(entries)@),
        entries_current(old(entries)@, now as int, staking_time as int, block_time as int),
    ensures
        final(entries)@ == settled_all(
            old(entries)@,
            now as int,
            staking_time as int,
            block_time as int,
        ),
{
    let ghost s0 = entries@;
    let ghost st = staking_time as int;
    let ghost bt = block_time as int;
    let ghost nowi = now as int;
    let mut i: usize = 0;
    proof {
        assert(s0.skip(0) =~= s0);
        assert(s0.take(0) + settled_all(s0, nowi, st, bt) =~= settled_all(s0, nowi, st, bt));
    }
    while i < entries.len()
        invariant
            config_ok(st, bt),
            staking_time == st,
            block_time == bt,
            nowi == now as int,
            account_ok(s0),
            i <= entries@.len(),
            entries_ok(entries@),
            entries_current(entries@, nowi, st, bt),
            total_amount(entries@) <= total_amount(s0),
            settled_all(s0, nowi, st, bt) == entries@.take(i as int) + settled_all(
                entries@.skip(i as int),
                nowi,
                st,
                bt,
            ),
        decreases entries@.len() - i,
    {
        let ghost pre = entries@;
        let ghost sk = pre.skip(i as int);
        let e = entries[i];
        let level = unlock_level_ticks(now, e.stake.timestamp, staking_time, block_time);
        proof {
            lemma_total_amount_nonneg(pre);
            lemma_entry_le_total_amount(pre, i as int);
            lemma_mul_inequality(level as int, 10, e.stake.amount as int);
            lemma_cap_bounds(e, nowi, st, bt);
            lemma_sums_skip_unfold(pre, i as int, nowi, st, bt);
            assert(sk[0] == e);
            assert(sk.skip(1) =~= pre.skip(i + 1));
        }
        let cap = level * e.stake.amount / 10;
        assert(cap == cap_of(e, nowi, st, bt));
        let unlocked = cap - e.withdrawn;
        let e2 = Entry { stake: e.stake, withdrawn: cap };
        proof {
            assert(e2 == bump(e, unlocked as int));
        }
        if e2.withdrawn == e2.stake.amount {
            entries.remove(i);
            proof {
                assert(settled_all(sk, nowi, st, bt) == settled_all(pre.skip(i + 1), nowi, st, bt));
                assert(entries@ == pre.remove(i as int));
                assert(entries@.take(i as int) =~= pre.take(i as int));
                assert(entries@.skip(i as int) =~= pre.skip(i + 1));
                lemma_sums_split(pre, i as int, nowi, st, bt);
                lemma_sums_split(entries@, i as int, nowi, st, bt);
                assert forall|j: int| 0 <= j < entries@.len() implies entry_ok(
                    #[trigger] entries@[j],
                ) && entries@[j].withdrawn <= cap_of(entries@[j], nowi, st, bt) by {
                    if j < i {
                        assert(entries@[j] == pre[j]);
                    } else {
                        assert(entries@[j] == pre[j + 1]);
                    }
                }
            }
        } else {
            entries[i] = e2;
            i = i + 1;
            proof {
                assert(settled_all(sk, nowi, st, bt) == seq![e2] + settled_all(
                    pre.skip(i as int),
                    nowi,
                    st,
                    bt,
                ));
                assert(entries@ == pre.update(i - 1, e2));
                assert(entries@.take(i - 1) =~= pre.take(i - 1));
                assert(entries@.skip(i as int) =~= pre.skip(i as int));
                assert(entries@.take(i as int) =~= pre.take(i - 1).push(e2));
                assert(entries@.take(i as int) + settled_all(
                    entries@.skip(i as int),
                    nowi,
                    st,
                    bt,
                ) =~= pre.take(i - 1) + (seq![e2] + settled_all(pre.skip(i as int), nowi, st, bt)));
                lemma_sums_split(pre, i - 1, nowi, st, bt);
                lemma_sums_split(entries@, i - 1, nowi, st, bt);
                lemma_sums_skip_unfold(entries@, i - 1, nowi, st, bt);
                assert forall|j: int| 0 <= j < entries@.len() implies entry_ok(
                    #[trigger] entries@[j],
                ) && entries@[j].withdrawn <= cap_of(entries@[j], nowi, st, bt) by {
                    if j != i - 1 {
                        assert(entries@[j] == pre[j]);
                    }
                }
            }
        }
    }
    proof {
        assert(entries@.skip(i as int) =~= Seq::<Entry>::empty());
        assert(entries@.take(i as int) + entries@.skip(i as int) =~= entries@);
    }
}

/// Sums the claimable remainders of `entries` at tick `now`.
fn claimable_total(entries: &Vec<Entry>, now: u128, staking_time: u128, block_time: u128) -> (total:
    u128)
    requires
        config_ok(staking_time as int, block_time as int),
        account_ok(entries@),
        entries_current(entries@, now as int, staking_time as int, block_time as int),
    ensures
        total == total_claimable(
            entries@,
            now as int,
            staking_time as int,
            block_time as int,
        ),
{
    let ghost st = staking_time as int;
    let ghost bt = block_time as int;
    let mut total: u128 = 0;
    let mut i: usize = 0;
    while i < entries.len()
        invariant
            config_ok(st, bt),
            staking_time == st,
            block_time == bt,
            account_ok(entries@),
            entries_current(entries@, now as int, st, bt),
            i <= entries@.len(),
            total == total_claimable(entries@.take(i as int), now as int, st, bt),
            total <= total_amount(entries@.take(i as int)),
        decreases entries@.len() - i,
    {
        let e = entries[i];
        let level = unlock_level_ticks(now, e.stake.timestamp, staking_time, block_time);
        proof {
            lemma_entry_le_total_amount(entries@, i as int);
            lemma_mul_inequality(level as int, 10, e.stake.amount as int);
            lemma_cap_bounds(e, now as int, st, bt);
            assert(e.withdrawn <= cap_of(e, now as int, st, bt));
        }
        let cap = level * e.stake.amount / 10;
        assert(cap == cap_of(e, now as int, st, bt));
        let unlocked = cap - e.withdrawn;
        proof {
            let t1 = entries@.take(i as int);
            let t2 = entries@.take(i + 1);
            assert(t2 =~= t1.push(e));
            lemma_sums_push(t1, e, now as int, st, bt);
            lemma_total_amount_nonneg(t1);
            lemma_sums_split(entries@, i + 1, now as int, st, bt);
            lemma_total_amount_nonneg(entries@.skip(i + 1));
        }
        total = total + unlocked;
        i = i + 1;
    }
    proof {
        assert(entries@.take(entries@.len() as int) =~= entries@);
    }
    total
}

} // verus!
