use stellarcade::staking::{Error, Staking, UserPosition, PRECISION};

fn setup() -> Staking {
    let mut s = Staking::new();
    s.init(1, 10, 11, 0).unwrap();
    s
}

#[test]
fn lib_test_init_succeeds() {
    let mut s = Staking::new();
    assert_eq!(s.init(1, 10, 11, 0), Ok(()));
}

#[test]
fn lib_test_init_twice_fails() {
    let mut s = setup();
    let result = s.init(1, 10, 11, 0);
    assert_eq!(result, Err(Error::AlreadyInitialized));
}

#[test]
fn test_stake_and_unstake() {
    let mut s = setup();
    let amount = 1000i128;

    s.stake(100, amount, 0).unwrap();
    let pos = s.position_of(100, 0);
    assert_eq!(pos.amount, amount);

    s.unstake(100, amount, 0).unwrap();
    let pos = s.position_of(100, 0);
    assert_eq!(pos.amount, 0);
}

#[test]
fn test_reward_accrual() {
    let mut s = setup();
    let stake_amount = 1000i128;
    let rate = 10i128; // 10 reward tokens per second

    s.set_reward_rate(1, rate, 0).unwrap();
    s.stake(100, stake_amount, 0).unwrap();

    // 10 seconds later: 10 seconds * 10 rate = 100 rewards
    let pos = s.position_of(100, 10);
    assert_eq!(pos.pending_rewards, 100i128);
}

#[test]
fn test_claim_rewards() {
    let mut s = setup();
    let stake_amount = 1000i128;
    let rate = 10i128;

    s.set_reward_rate(1, rate, 0).unwrap();
    s.stake(100, stake_amount, 0).unwrap();

    // 100 seconds later: 1000 rewards
    let claimed = s.claim_rewards(100, 100).unwrap();
    assert_eq!(claimed, 1000i128);
}

#[test]
fn test_multiple_users_fair_distribution() {
    let mut s = setup();
    let rate = 100i128;

    s.set_reward_rate(1, rate, 0).unwrap();

    // User 1 stakes 1000 at t = 0.
    s.stake(100, 1000i128, 0).unwrap();

    // 10 seconds later (1000 rewards accrued to user 1) user 2 stakes 1000.
    s.stake(200, 1000i128, 10).unwrap();

    // 10 more seconds (1000 rewards split between the two).
    let pos1 = s.position_of(100, 20);
    let pos2 = s.position_of(200, 20);

    // User 1: 1000 (first 10 s) + 500 (next 10 s) = 1500.
    // User 2: 500 (next 10 s) = 500.
    assert_eq!(pos1.pending_rewards, 1500i128);
    assert_eq!(pos2.pending_rewards, 500i128);
}

#[test]
fn test_unstake_excessive_amount() {
    let mut s = setup();
    s.stake(100, 100i128, 0).unwrap();
    let result = s.unstake(100, 101i128, 0);
    assert_eq!(result, Err(Error::InvalidAmount));
    // Nothing changed: neither the position nor the staked total.
    assert_eq!(s.position_of(100, 0).amount, 100i128);
    assert_eq!(s.state.total_staked, 100i128);
}

#[test]
fn test_claimable_never_negative() {
    let mut s = setup();
    s.set_reward_rate(1, 7, 0).unwrap();
    s.stake(100, 13, 1).unwrap();
    s.stake(200, 5000, 2).unwrap();
    s.claim_rewards(100, 3).unwrap();
    s.unstake(200, 4999, 4).unwrap();
    for user in [100u64, 200u64, 300u64] {
        for t in [0u64, 3, 4, 1000] {
            assert!(s.position_of(user, t).pending_rewards >= 0);
        }
    }
}

#[test]
fn test_conservation_of_total_staked() {
    let mut s = setup();
    s.set_reward_rate(1, 3, 0).unwrap();
    s.stake(100, 250, 1).unwrap();
    s.stake(200, 750, 2).unwrap();
    s.unstake(100, 100, 3).unwrap();
    s.claim_rewards(200, 4).unwrap();
    let sum: i128 = s.position_of(100, 4).amount + s.position_of(200, 4).amount;
    assert_eq!(sum, s.state.total_staked);
    assert_eq!(s.state.total_staked, 900i128);
}

#[test]
fn test_update_pool_idempotent() {
    let mut s = setup();
    s.set_reward_rate(1, 10, 0).unwrap();
    s.stake(100, 1000, 0).unwrap();
    s.update_pool(25).unwrap();
    let snapshot = s.clone();
    // Same timestamp again, then an earlier one: no state changes.
    s.update_pool(25).unwrap();
    assert_eq!(s, snapshot);
    s.update_pool(7).unwrap();
    assert_eq!(s, snapshot);
}

#[test]
fn test_zero_stake_gap_discards_rewards() {
    let mut s = setup();
    s.set_reward_rate(1, 100, 0).unwrap();
    // Nobody staked between t = 0 and t = 50: nothing accrues.
    s.update_pool(50).unwrap();
    assert_eq!(s.state.reward_per_share_acc, 0i128);
    assert_eq!(s.state.last_update_timestamp, 50u64);
    // Staking afterwards does not recover the gap.
    s.stake(100, 1000, 50).unwrap();
    let pos = s.position_of(100, 50);
    assert_eq!(pos.pending_rewards, 0i128);
    // Rewards start flowing only from t = 50 on.
    let pos = s.position_of(100, 60);
    assert_eq!(pos.pending_rewards, 1000i128);
}

#[test]
fn test_claim_zeroes_pending() {
    let mut s = setup();
    s.set_reward_rate(1, 10, 0).unwrap();
    s.stake(100, 1000, 0).unwrap();
    let first = s.claim_rewards(100, 30).unwrap();
    assert_eq!(first, 300i128);
    // An immediate second claim (no time elapsed) returns 0.
    let second = s.claim_rewards(100, 30).unwrap();
    assert_eq!(second, 0i128);
}

#[test]
fn test_stake_settles_before_amount_change() {
    let mut s = setup();
    s.set_reward_rate(1, 100, 0).unwrap();
    s.stake(100, 1000, 0).unwrap();
    // Staking more at t = 10 settles the 1000 rewards earned by the old
    // amount first; they are not re-priced at the doubled stake.
    s.stake(100, 1000, 10).unwrap();
    let pos = s.position_of(100, 10);
    assert_eq!(pos.amount, 2000i128);
    assert_eq!(pos.pending_rewards, 1000i128);
    // The next interval accrues at the new amount, still alone in the pool.
    let pos = s.position_of(100, 20);
    assert_eq!(pos.pending_rewards, 2000i128);
}

#[test]
fn test_unstake_zero_settles_only() {
    let mut s = setup();
    s.set_reward_rate(1, 10, 0).unwrap();
    s.stake(100, 500, 0).unwrap();
    assert_eq!(s.unstake(100, 0, 10), Ok(()));
    let pos = s.position_of(100, 10);
    assert_eq!(pos.amount, 500i128);
    assert_eq!(pos.pending_rewards, 100i128);
    assert_eq!(s.state.total_staked, 500i128);
}

#[test]
fn test_truncation_dust() {
    let mut s = setup();
    s.set_reward_rate(1, 1, 0).unwrap();
    s.stake(100, 3, 0).unwrap();
    // One second at rate 1 over a stake of 3: the accumulator gains
    // floor(1e12 / 3) and the position's share floors to 0 — the unit of
    // reward is dust lost to truncation, not owed to anyone.
    s.update_pool(1).unwrap();
    assert_eq!(s.state.reward_per_share_acc, PRECISION / 3);
    let pos = s.position_of(100, 1);
    assert_eq!(pos.pending_rewards, 0i128);
    assert_eq!(s.claim_rewards(100, 1).unwrap(), 0i128);
}

#[test]
fn test_not_initialized_errors() {
    let mut s = Staking::new();
    assert_eq!(s.stake(100, 10, 0), Err(Error::NotInitialized));
    assert_eq!(s.set_reward_rate(1, 5, 0), Err(Error::NotInitialized));
    assert_eq!(s.claim_rewards(100, 0), Err(Error::NotInitialized));
    assert_eq!(s.update_pool(0), Err(Error::NotInitialized));
}

#[test]
fn test_not_authorized_set_rate() {
    let mut s = setup();
    assert_eq!(s.set_reward_rate(2, 5, 0), Err(Error::NotAuthorized));
    assert_eq!(s.state.reward_rate, 0i128);
}

#[test]
fn test_invalid_amount_errors() {
    let mut s = setup();
    assert_eq!(s.stake(100, 0, 0), Err(Error::InvalidAmount));
    assert_eq!(s.stake(100, -5, 0), Err(Error::InvalidAmount));
    // Unstake by a participant never seen.
    assert_eq!(s.unstake(100, 1, 0), Err(Error::InvalidAmount));
    // Claim by a participant never seen.
    assert_eq!(s.claim_rewards(100, 0), Err(Error::InvalidAmount));
    s.stake(100, 10, 0).unwrap();
    assert_eq!(s.unstake(100, -1, 0), Err(Error::InvalidAmount));
}

#[test]
fn test_position_of_before_init() {
    let s = Staking::new();
    let pos = s.position_of(100, 5);
    assert_eq!(
        pos,
        UserPosition { amount: 0, reward_debt: 0, pending_rewards: 0 }
    );
}

#[test]
fn test_position_of_is_read_only() {
    let mut s = setup();
    s.set_reward_rate(1, 10, 0).unwrap();
    s.stake(100, 1000, 0).unwrap();
    let snapshot = s.clone();
    let first = s.position_of(100, 10);
    let second = s.position_of(100, 10);
    assert_eq!(first, second);
    assert_eq!(s, snapshot);
}

#[test]
fn test_set_rate_not_retroactive() {
    let mut s = setup();
    s.set_reward_rate(1, 10, 0).unwrap();
    s.stake(100, 1000, 0).unwrap();
    // Raising the rate at t = 10 must not re-price the first interval.
    s.set_reward_rate(1, 1000, 10).unwrap();
    let pos = s.position_of(100, 20);
    assert_eq!(pos.pending_rewards, 100 + 10_000i128);
}
