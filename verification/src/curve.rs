//! The unlock curve: how many tenths of a deposit are withdrawable after a
//! given number of clock ticks.

use vstd::arithmetic::div_mod::lemma_div_is_ordered;
use vstd::arithmetic::mul::lemma_mul_inequality;
use vstd::prelude::*;

verus! {

/// Ticks until a deposit is fully unlocked.
pub const STAKING_TIME: u128 = 432000;

/// Real time per clock tick.
pub const BLOCK_TIME: u128 = 5;

/// The ledger's fixed configuration: set once at construction, never changed.
pub open spec fn config_ok(staking_time: int, block_time: int) -> bool {
    staking_time == STAKING_TIME && block_time == BLOCK_TIME
}

/// Unlock level, in tenths, once `clocks` fifth-of-period units have passed:
/// nothing before the first unit, then 5, 6, 7, 8, 9 for units 1 through 5,
/// and saturation at 10 for everything beyond.
pub open spec fn level_of_clocks(clocks: int) -> int {
    if clocks > 5 {
        10
    } else if clocks == 0 {
        0
    } else {
        4 + clocks
    }
}

/// The unlock curve on raw elapsed ticks. Negative elapsed time (a deposit
/// recorded in the future) unlocks nothing.
pub open spec fn unlock_level_at(elapsed: int, staking_time: int, block_time: int) -> int {
    if elapsed < 0 {
        0
    } else {
        level_of_clocks(elapsed * block_time / (staking_time / 5))
    }
}

/// The curve is total and always lands on the 0..=10 scale.
pub proof fn lemma_unlock_level_bounds(elapsed: int, staking_time: int, block_time: int)
    requires
        config_ok(staking_time, block_time),
    ensures
        0 <= unlock_level_at(elapsed, staking_time, block_time) <= 10,
{
    if elapsed >= 0 {
        let clocks = elapsed * block_time / (staking_time / 5);
        assert(elapsed * block_time >= 0) by {
            lemma_mul_inequality(0, elapsed, block_time);
        }
        assert(clocks >= 0) by {
            lemma_div_is_ordered(0, elapsed * block_time, staking_time / 5);
        }
    }
}

/// The curve never goes down as time passes.
pub proof fn lemma_unlock_level_monotonic(
    elapsed1: int,
    elapsed2: int,
    staking_time: int,
    block_time: int,
)
    requires
        config_ok(staking_time, block_time),
        elapsed1 <= elapsed2,
    ensures
        unlock_level_at(elapsed1, staking_time, block_time) <= unlock_level_at(
            elapsed2,
            staking_time,
            block_time,
        ),
{
    lemma_unlock_level_bounds(elapsed1, staking_time, block_time);
    lemma_unlock_level_bounds(elapsed2, staking_time, block_time);
    if 0 <= elapsed1 {
        let unit = staking_time / 5;
        let clocks1 = elapsed1 * block_time / unit;
        let clocks2 = elapsed2 * block_time / unit;
        assert(elapsed1 * block_time <= elapsed2 * block_time) by {
            lemma_mul_inequality(elapsed1, elapsed2, block_time);
        }
        lemma_div_is_ordered(elapsed1 * block_time, elapsed2 * block_time, unit);
        assert(elapsed1 * block_time >= 0) by {
            lemma_mul_inequality(0, elapsed1, block_time);
        }
        assert(clocks1 >= 0) by {
            lemma_div_is_ordered(0, elapsed1 * block_time, unit);
        }
    }
}

/// Computes the unlock level of a deposit made at tick `start`, read at tick
/// `now`, matching the mathematical curve exactly.
pub fn unlock_level_ticks(now: u128, start: u128, staking_time: u128, block_time: u128) -> (level:
    u128)
    requires
        config_ok(staking_time as int, block_time as int),
    ensures
        level == unlock_level_at(now - start, staking_time as int, block_time as int),
        level <= 10,
{
    if now < start {
        return 0;
    }
    let times: u128 = now - start;
    let unit: u128 = staking_time / 5;
    if times >= unit * 6 {
        proof {
            assert(times * block_time >= unit * 6 * block_time) by {
                lemma_mul_inequality(unit * 6, times as int, block_time as int);
            }
            lemma_div_is_ordered(
                unit * 6 * block_time,
                times * block_time,
                unit as int,
            );
            assert(unit * 6 * block_time / (unit as int) == 30);
        }
        return 10;
    }
    let clocks: u128 = (times * block_time) / unit;
    if clocks > 5 {
        10
    } else if clocks == 0 {
        0
    } else {
        4 + clocks
    }
}

} // verus!
