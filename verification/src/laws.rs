//! The ledger's laws: what claim reconciliation conserves, how histories
//! evolve, and how the passage of time widens what is claimable.

use crate::curve::{config_ok, lemma_unlock_level_monotonic};
use crate::ledger::{
    bump, cap_of, claimable_of, entries_current, entries_ok, entry_ok, lemma_cap_bounds,
    lemma_entry_props_skip, lemma_total_claimable_bounds, settled, settled_all, total_amount,
    total_cap, total_claimable, total_withdrawn, Entry,
};
use vstd::arithmetic::div_mod::lemma_div_is_ordered;
use vstd::arithmetic::mul::lemma_mul_inequality;
use vstd::prelude::*;

verus! {

/// A claim for `amount` consumes exactly `amount`, both of the claimable
/// balance and of the account's un-withdrawn residue; it never grows the
/// staked total, and leaves a history that is still live and still within
/// what tick `now` unlocks.
pub proof fn lemma_settled_preserves(
    s: Seq<Entry>,
    amount: int,
    now: int,
    staking_time: int,
    block_time: int,
)
    requires
        config_ok(staking_time, block_time),
        entries_ok(s),
        entries_current(s, now, staking_time, block_time),
        0 <= amount <= total_claimable(s, now, staking_time, block_time),
    ensures
        ({
            let r = settled(s, amount, now, staking_time, block_time);
            &&& entries_ok(r)
            &&& entries_current(r, now, staking_time, block_time)
            &&& total_amount(r) <= total_amount(s)
            &&& total_claimable(r, now, staking_time, block_time) == total_claimable(
                s,
                now,
                staking_time,
                block_time,
            ) - amount
            &&& total_amount(r) - total_withdrawn(r) == total_amount(s) - total_withdrawn(s)
                - amount
        }),
    decreases s.len(),
{
    let r = settled(s, amount, now, staking_time, block_time);
    if s.len() == 0 || amount <= 0 {
    } else {
        let u = claimable_of(s[0], now, staking_time, block_time);
        lemma_cap_bounds(s[0], now, staking_time, block_time);
        lemma_entry_props_skip(s, 1, now, staking_time, block_time);
        lemma_total_claimable_bounds(s.skip(1), now, staking_time, block_time);
        if u > amount {
            let e2 = bump(s[0], amount);
            assert(r == seq![e2] + s.skip(1));
            assert(r[0] == e2);
            assert(r.skip(1) =~= s.skip(1));
            assert forall|j: int| 0 <= j < r.len() implies entry_ok(#[trigger] r[j])
                && r[j].withdrawn <= cap_of(r[j], now, staking_time, block_time) by {
                if j > 0 {
                    assert(r[j] == s[j]);
                }
            }
        } else {
            let e2 = bump(s[0], u);
            let rest = settled(s.skip(1), amount - u, now, staking_time, block_time);
            lemma_settled_preserves(s.skip(1), amount - u, now, staking_time, block_time);
            if e2.withdrawn == e2.stake.amount {
                assert(r == rest);
            } else {
                assert(r == seq![e2] + rest);
                assert(r[0] == e2);
                assert(r.skip(1) =~= rest);
                assert forall|j: int| 0 <= j < r.len() implies entry_ok(#[trigger] r[j])
                    && r[j].withdrawn <= cap_of(r[j], now, staking_time, block_time) by {
                    if j > 0 {
                        assert(r[j] == rest[j - 1]);
                    }
                }
            }
        }
    }
}

/// Claiming everything consumes the whole claimable balance — from the
/// claimable total and from the account's un-withdrawn residue alike:
/// afterwards nothing is claimable at the same tick, and the history is
/// still live.
pub proof fn lemma_settled_all_exhausts(s: Seq<Entry>, now: int, staking_time: int, block_time: int)
    requires
        config_ok(staking_time, block_time),
        entries_ok(s),
        entries_current(s, now, staking_time, block_time),
    ensures
        ({
            let r = settled_all(s, now, staking_time, block_time);
            &&& entries_ok(r)
            &&& entries_current(r, now, staking_time, block_time)
            &&& total_amount(r) <= total_amount(s)
            &&& total_claimable(r, now, staking_time, block_time) == 0
            &&& total_amount(r) - total_withdrawn(r) == total_amount(s) - total_withdrawn(s)
                - total_claimable(s, now, staking_time, block_time)
        }),
    decreases s.len(),
{
    let r = settled_all(s, now, staking_time, block_time);
    if s.len() > 0 {
        let u = claimable_of(s[0], now, staking_time, block_time);
        lemma_cap_bounds(s[0], now, staking_time, block_time);
        lemma_entry_props_skip(s, 1, now, staking_time, block_time);
        let e2 = bump(s[0], u);
        let rest = settled_all(s.skip(1), now, staking_time, block_time);
        lemma_settled_all_exhausts(s.skip(1), now, staking_time, block_time);
        if e2.withdrawn == e2.stake.amount {
            assert(r == rest);
        } else {
            assert(r == seq![e2] + rest);
            assert(r[0] == e2);
            assert(r.skip(1) =~= rest);
            assert forall|j: int| 0 <= j < r.len() implies entry_ok(#[trigger] r[j])
                && r[j].withdrawn <= cap_of(r[j], now, staking_time, block_time) by {
                if j > 0 {
                    assert(r[j] == rest[j - 1]);
                }
            }
        }
    }
}

/// `post` is what is left of `pre` after some claims: a subsequence of
/// `pre`'s stakes in their original order, each with at least as much
/// withdrawn as before. This is the shape every claim walk preserves: no
/// entry's withdrawn amount ever goes down, and surviving entries keep their
/// relative order.
pub open spec fn derives_from(pre: Seq<Entry>, post: Seq<Entry>) -> bool
    decreases pre.len(),
{
    if post.len() == 0 {
        true
    } else if pre.len() == 0 {
        false
    } else if post[0].stake == pre[0].stake && post[0].withdrawn >= pre[0].withdrawn {
        derives_from(pre.skip(1), post.skip(1)) || derives_from(pre.skip(1), post)
    } else {
        derives_from(pre.skip(1), post)
    }
}

pub proof fn lemma_derives_from_refl(s: Seq<Entry>)
    ensures
        derives_from(s, s),
    decreases s.len(),
{
    if s.len() > 0 {
        lemma_derives_from_refl(s.skip(1));
    }
}

/// Whatever derives from the tail of a history derives from the whole of it.
proof fn lemma_derives_from_drop_head(pre: Seq<Entry>, post: Seq<Entry>)
    requires
        pre.len() > 0,
        derives_from(pre.skip(1), post),
    ensures
        derives_from(pre, post),
{
}

/// Chaining claims chains the relation: a history reached by several claims
/// still only raised withdrawn amounts and deleted entries, in order.
pub proof fn lemma_derives_from_trans(a: Seq<Entry>, b: Seq<Entry>, c: Seq<Entry>)
    requires
        derives_from(a, b),
        derives_from(b, c),
    ensures
        derives_from(a, c),
    decreases a.len(),
{
    if c.len() == 0 {
    } else {
        assert(b.len() > 0);
        assert(a.len() > 0);
        if a[0].stake == b[0].stake && b[0].withdrawn >= a[0].withdrawn && derives_from(
            a.skip(1),
            b.skip(1),
        ) {
            if b[0].stake == c[0].stake && c[0].withdrawn >= b[0].withdrawn && derives_from(
                b.skip(1),
                c.skip(1),
            ) {
                lemma_derives_from_trans(a.skip(1), b.skip(1), c.skip(1));
            } else if b[0].stake == c[0].stake && c[0].withdrawn >= b[0].withdrawn {
                lemma_derives_from_trans(a.skip(1), b.skip(1), c);
                lemma_derives_from_drop_head(a, c);
            } else {
                lemma_derives_from_trans(a.skip(1), b.skip(1), c);
                lemma_derives_from_drop_head(a, c);
            }
        } else {
            assert(derives_from(a.skip(1), b));
            lemma_derives_from_trans(a.skip(1), b, c);
            lemma_derives_from_drop_head(a, c);
        }
    }
}

/// A claim only raises withdrawn amounts and only deletes entries, keeping
/// the survivors in order.
pub proof fn lemma_settled_derives_from(
    s: Seq<Entry>,
    amount: int,
    now: int,
    staking_time: int,
    block_time: int,
)
    requires
        config_ok(staking_time, block_time),
        entries_current(s, now, staking_time, block_time),
    ensures
        derives_from(s, settled(s, amount, now, staking_time, block_time)),
    decreases s.len(),
{
    let r = settled(s, amount, now, staking_time, block_time);
    if s.len() == 0 || amount <= 0 {
        lemma_derives_from_refl(s);
    } else {
        let u = claimable_of(s[0], now, staking_time, block_time);
        lemma_cap_bounds(s[0], now, staking_time, block_time);
        lemma_entry_props_skip(s, 1, now, staking_time, block_time);
        if u > amount {
            let e2 = bump(s[0], amount);
            assert(r == seq![e2] + s.skip(1));
            assert(r[0] == e2);
            assert(r.skip(1) =~= s.skip(1));
            lemma_derives_from_refl(s.skip(1));
        } else {
            let e2 = bump(s[0], u);
            let rest = settled(s.skip(1), amount - u, now, staking_time, block_time);
            lemma_settled_derives_from(s.skip(1), amount - u, now, staking_time, block_time);
            if e2.withdrawn == e2.stake.amount {
                assert(r == rest);
                if r.len() > 0 {
                    assert(derives_from(s.skip(1), r));
                }
            } else {
                assert(r == seq![e2] + rest);
                assert(r[0] == e2);
                assert(r.skip(1) =~= rest);
            }
        }
    }
}

/// Claim-all likewise only raises withdrawn amounts and deletes entries.
pub proof fn lemma_settled_all_derives_from(
    s: Seq<Entry>,
    now: int,
    staking_time: int,
    block_time: int,
)
    requires
        config_ok(staking_time, block_time),
        entries_current(s, now, staking_time, block_time),
    ensures
        derives_from(s, settled_all(s, now, staking_time, block_time)),
    decreases s.len(),
{
    let r = settled_all(s, now, staking_time, block_time);
    if s.len() > 0 {
        let u = claimable_of(s[0], now, staking_time, block_time);
        lemma_cap_bounds(s[0], now, staking_time, block_time);
        lemma_entry_props_skip(s, 1, now, staking_time, block_time);
        let e2 = bump(s[0], u);
        let rest = settled_all(s.skip(1), now, staking_time, block_time);
        lemma_settled_all_derives_from(s.skip(1), now, staking_time, block_time);
        if e2.withdrawn == e2.stake.amount {
            assert(r == rest);
            if r.len() > 0 {
                assert(derives_from(s.skip(1), r));
            }
        } else {
            assert(r == seq![e2] + rest);
            assert(r[0] == e2);
            assert(r.skip(1) =~= rest);
        }
    }
}

/// What one tick allows, every later tick allows too: a history within tick
/// `early`'s unlock caps is within tick `late`'s.
pub proof fn lemma_current_at_later_tick(
    s: Seq<Entry>,
    early: int,
    late: int,
    staking_time: int,
    block_time: int,
)
    requires
        config_ok(staking_time, block_time),
        entries_current(s, early, staking_time, block_time),
        early <= late,
    ensures
        entries_current(s, late, staking_time, block_time),
{
    assert forall|i: int| 0 <= i < s.len() implies (#[trigger] s[i]).withdrawn <= cap_of(
        s[i],
        late,
        staking_time,
        block_time,
    ) by {
        let e = s[i];
        let lv1 = crate::curve::unlock_level_at(
            early - e.stake.timestamp,
            staking_time,
            block_time,
        );
        let lv2 = crate::curve::unlock_level_at(late - e.stake.timestamp, staking_time, block_time);
        lemma_unlock_level_monotonic(
            early - e.stake.timestamp,
            late - e.stake.timestamp,
            staking_time,
            block_time,
        );
        lemma_mul_inequality(lv1, lv2, e.stake.amount as int);
        lemma_div_is_ordered(lv1 * e.stake.amount, lv2 * e.stake.amount, 10);
    }
}

/// Everything withdrawn so far stays within what the current tick has
/// unlocked, summed across the whole history.
pub proof fn lemma_withdrawn_within_caps(s: Seq<Entry>, now: int, staking_time: int, block_time: int)
    requires
        entries_current(s, now, staking_time, block_time),
    ensures
        total_withdrawn(s) <= total_cap(s, now, staking_time, block_time),
    decreases s.len(),
{
    if s.len() > 0 {
        lemma_entry_props_skip(s, 1, now, staking_time, block_time);
        lemma_withdrawn_within_caps(s.skip(1), now, staking_time, block_time);
    }
}

} // verus!
