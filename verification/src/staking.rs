//! Reward-accrual accounting engine for a single shared staking pool.
//!
//! The pool pays out a continuous reward stream (`reward_rate` units per
//! second) to participants in proportion to their staked amount.  The
//! classic accumulator scheme keeps this fair without touching every
//! position on every clock tick: a global accumulator
//! (`reward_per_share_acc`) records the cumulative reward earned per unit
//! staked since genesis, scaled by the fixed-point factor [`PRECISION`],
//! and each position carries a `reward_debt` recording how much of the
//! accumulator was already priced in when the position last changed.
//!
//! The engine is pure state: persistence, participant authentication,
//! token transfers and the clock live with the caller, which hands every
//! operation the current timestamp `now` and moves assets only after the
//! operation has committed.  Participants and token contracts are
//! identified by plain `u64` ids.

use vstd::prelude::*;
use vstd::arithmetic::div_mod::{lemma_div_is_ordered, lemma_div_nonincreasing, lemma_div_of0, lemma_div_pos_is_pos};
use vstd::arithmetic::mul::{lemma_mul_by_zero_is_zero, lemma_mul_inequality, lemma_mul_nonnegative};

verus! {

/// Fixed-point scaling factor for `reward_per_share_acc`: the accumulator
/// stores reward-per-staked-unit times this constant, so fractions down to
/// one part in 10^12 survive integer arithmetic.  Every division by it
/// rounds toward zero (all operands are non-negative), which loses at most
/// one unit of dust per settlement.
pub const PRECISION: i128 = 1_000_000_000_000;

/// The ways an operation can be refused.  Errors are returned before any
/// state change: a call that fails leaves the engine exactly as it was.
#[derive(Copy, Clone, Debug, Eq, PartialEq)]
pub enum Error {
    /// `init` was called on an engine that is already set up.
    AlreadyInitialized,
    /// A mutating operation ran before `init`.
    NotInitialized,
    /// A non-administrator tried an administrator-only action.
    NotAuthorized,
    /// A non-positive stake, or an unstake of more than is staked.
    InvalidAmount,
    /// Reserved for arithmetic that cannot be represented.
    Overflow,
    /// Reserved for asset movements the caller could not fund.
    InsufficientBalance,
}

/// Global pool state: one instance per engine, shared by all participants.
#[derive(Copy, Clone, Debug, Eq, PartialEq)]
pub struct GlobalState {
    /// Sum of all participants' staked amounts.
    pub total_staked: i128,
    /// Timestamp of the most recent accumulator advance.
    pub last_update_timestamp: u64,
    /// Cumulative reward per staked unit since genesis, times `PRECISION`.
    /// Never decreases.
    pub reward_per_share_acc: i128,
    /// Reward units emitted per second; set by the administrator.
    pub reward_rate: i128,
}

/// One participant's entry in the ledger.
#[derive(Copy, Clone, Debug, Eq, PartialEq)]
pub struct UserPosition {
    /// Currently staked amount.
    pub amount: i128,
    /// The part of `amount * reward_per_share_acc / PRECISION` that was
    /// already attributed to this participant at its last settlement.
    pub reward_debt: i128,
    /// Reward computed and owed but not yet claimed.
    pub pending_rewards: i128,
}

/// The staking engine: global pool state plus the per-participant ledger.
#[derive(Clone, Debug, Eq, PartialEq)]
pub struct Staking {
    /// The administrator, once `init` has run.
    pub admin: Option<u64>,
    /// Id of the staked asset (moved by the caller on stake/unstake).
    pub staking_token: u64,
    /// Id of the reward asset (moved by the caller on claim).
    pub reward_token: u64,
    /// Global pool state.
    pub state: GlobalState,
    /// One entry per participant that ever staked; keys are unique and
    /// entries are never removed.
    pub positions: Vec<(u64, UserPosition)>,
}

// ---------------------------------------------------------------------------
// Specification: the ledger as a sequence of keyed positions
// ---------------------------------------------------------------------------

/// No participant key occurs twice in the ledger.
pub open spec fn unique_keys(ps: Seq<(u64, UserPosition)>) -> bool {
    forall|i: int, j: int|
        0 <= i < ps.len() && 0 <= j < ps.len() && i != j ==> ps[i].0 != ps[j].0
}

/// Whether `user` has an entry in the ledger.
pub open spec fn has_user(ps: Seq<(u64, UserPosition)>, user: u64) -> bool {
    exists|i: int| 0 <= i < ps.len() && ps[i].0 == user
}

/// Some index at which `user` is stored (meaningful only when
/// `has_user(ps, user)`; unique when `unique_keys(ps)`).
pub open spec fn user_index(ps: Seq<(u64, UserPosition)>, user: u64) -> int {
    choose|i: int| 0 <= i < ps.len() && ps[i].0 == user
}

/// The position a participant starts from: nothing staked, nothing owed.
pub open spec fn default_position() -> UserPosition {
    UserPosition { amount: 0, reward_debt: 0, pending_rewards: 0 }
}

/// `user`'s position, or the default one for a participant never seen.
pub open spec fn spec_position(ps: Seq<(u64, UserPosition)>, user: u64) -> UserPosition {
    if has_user(ps, user) {
        ps[user_index(ps, user)].1
    } else {
        default_position()
    }
}

/// Sum of all staked amounts recorded in the ledger.
pub open spec fn sum_amounts(ps: Seq<(u64, UserPosition)>) -> int
    decreases ps.len(),
{
    if ps.len() == 0 {
        0
    } else {
        sum_amounts(ps.drop_last()) + ps.last().1.amount
    }
}

// ---------------------------------------------------------------------------
// Specification: accumulator arithmetic
// ---------------------------------------------------------------------------

/// What an accumulator advance from `g.last_update_timestamp` to `now` adds
/// to `reward_per_share_acc`: elapsed time times rate, scaled by
/// `PRECISION` and divided (flooring) by the staked total.  Nothing accrues
/// when no time has passed or nobody is staked.
pub open spec fn accrued_delta(g: GlobalState, now: u64) -> int {
    if now > g.last_update_timestamp && g.total_staked > 0 {
        (now - g.last_update_timestamp) * g.reward_rate * (PRECISION as int)
            / (g.total_staked as int)
    } else {
        0
    }
}

/// The accumulator value after advancing `g` to `now`.
pub open spec fn advanced_acc(g: GlobalState, now: u64) -> int {
    g.reward_per_share_acc + accrued_delta(g, now)
}

/// The `last_update_timestamp` after advancing `g` to `now`: the clock
/// never moves backwards.
pub open spec fn advanced_last(g: GlobalState, now: u64) -> u64 {
    if now > g.last_update_timestamp {
        now
    } else {
        g.last_update_timestamp
    }
}

/// The whole pool state after advancing `g` to `now`.
pub open spec fn advanced(g: GlobalState, now: u64) -> GlobalState {
    GlobalState {
        reward_per_share_acc: advanced_acc(g, now) as i128,
        last_update_timestamp: advanced_last(g, now),
        ..g
    }
}

/// The accumulator share a position is entitled to at accumulator value
/// `acc`: staked amount times reward-per-share, unscaled (floor division).
pub open spec fn entitled(p: UserPosition, acc: int) -> int {
    p.amount * acc / (PRECISION as int)
}

/// What a position could claim at accumulator value `acc`: rewards already
/// settled, plus its accumulator share not yet priced in by `reward_debt`.
pub open spec fn claimable_of(p: UserPosition, acc: int) -> int {
    p.pending_rewards + entitled(p, acc) - p.reward_debt
}

/// A participant's total claimable reward if the pool were advanced to
/// `now`: the quantity `claim_rewards` pays and `position_of` reports.
pub open spec fn claimable_at(s: Staking, user: u64, now: u64) -> int {
    claimable_of(spec_position(s.positions@, user), advanced_acc(s.state, now))
}

// ---------------------------------------------------------------------------
// Specification: well-formedness and machine-limit bounds
// ---------------------------------------------------------------------------

/// A single position is consistent with accumulator value `acc`: nothing
/// negative, and the debt never exceeds the position's accumulator share
/// (the debt was fixed at some earlier, hence no larger, accumulator).
pub open spec fn position_wf(p: UserPosition, acc: i128) -> bool {
    &&& p.amount >= 0
    &&& p.pending_rewards >= 0
    &&& 0 <= p.reward_debt <= entitled(p, acc as int)
}

impl Staking {
    /// Whether `init` has run.
    pub open spec fn is_initialized(self) -> bool {
        self.admin is Some
    }

    /// The engine's invariant: every constructor establishes it and every
    /// operation preserves it.  The staked total is exactly the sum of the
    /// ledger (conservation), keys are unique, the accumulator and rate
    /// are non-negative, and every position is consistent with the current
    /// accumulator.
    pub open spec fn wf(self) -> bool {
        &&& self.state.total_staked == sum_amounts(self.positions@)
        &&& self.state.total_staked >= 0
        &&& self.state.reward_per_share_acc >= 0
        &&& self.state.reward_rate >= 0
        &&& unique_keys(self.positions@)
        &&& forall|i: int|
            0 <= i < self.positions@.len() ==> position_wf(
                #[trigger] self.positions@[i].1,
                self.state.reward_per_share_acc,
            )
        &&& !self.is_initialized() ==> self.positions@.len() == 0
    }

    /// Everything the engine stores is as it was: the error cases of every
    /// operation guarantee this.
    pub open spec fn same_state(self, other: Staking) -> bool {
        &&& self.admin == other.admin
        &&& self.staking_token == other.staking_token
        &&& self.reward_token == other.reward_token
        &&& self.state == other.state
        &&& self.positions@ == other.positions@
    }
}

/// The intermediate products of one accumulator advance fit in `i128`:
/// what the machine forces on top of the specification.
pub open spec fn advance_fits(g: GlobalState, now: u64) -> bool {
    &&& (now > g.last_update_timestamp && g.total_staked > 0) ==> {
        &&& (now - g.last_update_timestamp) * g.reward_rate <= i128::MAX
        &&& (now - g.last_update_timestamp) * g.reward_rate * (PRECISION as int) <= i128::MAX
    }
    &&& advanced_acc(g, now) <= i128::MAX
}

/// Settling position `p` against accumulator value `acc` stays within
/// `i128`.
pub open spec fn settle_fits(p: UserPosition, acc: int) -> bool {
    &&& p.amount * acc <= i128::MAX
    &&& claimable_of(p, acc) <= i128::MAX
}

/// Machine-limit bounds for `stake`, needed only on the path that
/// succeeds.
pub open spec fn stake_fits(s: Staking, user: u64, amount: i128, now: u64) -> bool {
    (s.is_initialized() && amount > 0) ==> {
        let acc = advanced_acc(s.state, now);
        let p = spec_position(s.positions@, user);
        &&& advance_fits(s.state, now)
        &&& settle_fits(p, acc)
        &&& p.amount + amount <= i128::MAX
        &&& (p.amount + amount) * acc <= i128::MAX
        &&& s.state.total_staked + amount <= i128::MAX
    }
}

/// Machine-limit bounds for `unstake`, needed only on the path that
/// succeeds.
pub open spec fn unstake_fits(s: Staking, user: u64, amount: i128, now: u64) -> bool {
    (s.is_initialized() && has_user(s.positions@, user) && 0 <= amount
        <= spec_position(s.positions@, user).amount) ==> {
        &&& advance_fits(s.state, now)
        &&& settle_fits(spec_position(s.positions@, user), advanced_acc(s.state, now))
    }
}

/// Machine-limit bounds for `claim_rewards` and `position_of`.
pub open spec fn settlement_fits(s: Staking, user: u64, now: u64) -> bool {
    s.is_initialized() ==> {
        &&& advance_fits(s.state, now)
        &&& settle_fits(spec_position(s.positions@, user), advanced_acc(s.state, now))
    }
}

// ---------------------------------------------------------------------------
// Ledger lemmas
// ---------------------------------------------------------------------------

/// With unique keys, finding `user` at any index pins `spec_position`.
proof fn lemma_unique_index(ps: Seq<(u64, UserPosition)>, user: u64, i: int)
    requires
        unique_keys(ps),
        0 <= i < ps.len(),
        ps[i].0 == user,
    ensures
        has_user(ps, user),
        user_index(ps, user) == i,
        spec_position(ps, user) == ps[i].1,
{
    assert(has_user(ps, user));
    let j = user_index(ps, user);
    assert(0 <= j < ps.len() && ps[j].0 == user);
    assert(j == i);
}

/// A ledger of non-negative amounts sums to a non-negative total.
proof fn lemma_sum_nonneg(ps: Seq<(u64, UserPosition)>)
    requires
        forall|i: int| 0 <= i < ps.len() ==> (#[trigger] ps[i].1).amount >= 0,
    ensures
        sum_amounts(ps) >= 0,
    decreases ps.len(),
{
    if ps.len() > 0 {
        lemma_sum_nonneg(ps.drop_last());
    }
}

/// Each single amount is bounded by the sum of a non-negative ledger.
proof fn lemma_sum_lower_bound(ps: Seq<(u64, UserPosition)>, i: int)
    requires
        forall|k: int| 0 <= k < ps.len() ==> (#[trigger] ps[k].1).amount >= 0,
        0 <= i < ps.len(),
    ensures
        sum_amounts(ps) >= ps[i].1.amount,
    decreases ps.len(),
{
    if i == ps.len() - 1 {
        lemma_sum_nonneg(ps.drop_last());
    } else {
        lemma_sum_lower_bound(ps.drop_last(), i);
    }
}

/// Replacing one entry moves the sum by the difference of the amounts.
proof fn lemma_sum_update(ps: Seq<(u64, UserPosition)>, i: int, x: (u64, UserPosition))
    requires
        0 <= i < ps.len(),
    ensures
        sum_amounts(ps.update(i, x)) == sum_amounts(ps) - ps[i].1.amount + x.1.amount,
    decreases ps.len(),
{
    let updated = ps.update(i, x);
    if i == ps.len() - 1 {
        assert(updated.drop_last() =~= ps.drop_last());
    } else {
        assert(updated.drop_last() =~= ps.drop_last().update(i, x));
        lemma_sum_update(ps.drop_last(), i, x);
    }
}

/// Appending an entry adds its amount to the sum.
proof fn lemma_sum_push(ps: Seq<(u64, UserPosition)>, x: (u64, UserPosition))
    ensures
        sum_amounts(ps.push(x)) == sum_amounts(ps) + x.1.amount,
{
    assert(ps.push(x).drop_last() =~= ps);
}

// ---------------------------------------------------------------------------
// Arithmetic lemmas
// ---------------------------------------------------------------------------

/// A position's accumulator share only grows as the accumulator grows.
proof fn lemma_entitled_mono(p: UserPosition, acc1: int, acc2: int)
    requires
        p.amount >= 0,
        0 <= acc1 <= acc2,
    ensures
        0 <= entitled(p, acc1) <= entitled(p, acc2),
{
    lemma_mul_nonnegative(p.amount as int, acc1);
    lemma_mul_inequality(acc1, acc2, p.amount as int);
    lemma_div_pos_is_pos(p.amount * acc1, PRECISION as int);
    lemma_div_is_ordered(p.amount * acc1, p.amount * acc2, PRECISION as int);
}

/// Monotonicity: advancing the pool never shrinks the accumulator — with
/// a non-negative reward rate the accrued delta is non-negative — and it
/// never moves the clock backwards.
pub proof fn lemma_accumulator_never_decreases(g: GlobalState, now: u64)
    requires
        g.reward_rate >= 0,
    ensures
        accrued_delta(g, now) >= 0,
        advanced_acc(g, now) >= g.reward_per_share_acc,
        advanced_last(g, now) >= g.last_update_timestamp,
{
    if now > g.last_update_timestamp && g.total_staked > 0 {
        lemma_mul_nonnegative((now - g.last_update_timestamp) as int, g.reward_rate as int);
        lemma_mul_nonnegative(
            (now - g.last_update_timestamp) * g.reward_rate,
            PRECISION as int,
        );
        lemma_div_pos_is_pos(
            (now - g.last_update_timestamp) * g.reward_rate * (PRECISION as int),
            g.total_staked as int,
        );
    }
}

/// Overwriting an entry with one that keeps its key preserves key
/// uniqueness.
proof fn lemma_update_unique(ps: Seq<(u64, UserPosition)>, i: int, x: (u64, UserPosition))
    requires
        unique_keys(ps),
        0 <= i < ps.len(),
        x.0 == ps[i].0,
    ensures
        unique_keys(ps.update(i, x)),
{
    assert(forall|k: int| 0 <= k < ps.len() ==> ps.update(i, x)[k].0 == ps[k].0);
}

/// Appending an entry with a fresh key preserves key uniqueness.
proof fn lemma_push_unique(ps: Seq<(u64, UserPosition)>, x: (u64, UserPosition))
    requires
        unique_keys(ps),
        !has_user(ps, x.0),
    ensures
        unique_keys(ps.push(x)),
{
    let pushed = ps.push(x);
    assert forall|k1: int, k2: int|
        0 <= k1 < pushed.len() && 0 <= k2 < pushed.len() && k1 != k2 implies pushed[k1].0
        != pushed[k2].0 by {
        if k1 == ps.len() {
            assert(pushed[k2].0 == ps[k2].0);
        } else if k2 == ps.len() {
            assert(pushed[k1].0 == ps[k1].0);
        }
    }
}

/// Overwriting an entry with one that keeps its key preserves every other
/// participant's view of the ledger.
proof fn lemma_update_frame(ps: Seq<(u64, UserPosition)>, i: int, x: (u64, UserPosition), v: u64)
    requires
        unique_keys(ps),
        0 <= i < ps.len(),
        x.0 == ps[i].0,
        v != x.0,
    ensures
        has_user(ps.update(i, x), v) == has_user(ps, v),
        spec_position(ps.update(i, x), v) == spec_position(ps, v),
{
    let updated = ps.update(i, x);
    lemma_update_unique(ps, i, x);
    assert(forall|k: int| 0 <= k < ps.len() ==> updated[k].0 == ps[k].0);
    if has_user(ps, v) {
        let k = user_index(ps, v);
        lemma_unique_index(ps, v, k);
        lemma_unique_index(updated, v, k);
    } else {
        if has_user(updated, v) {
            let k = user_index(updated, v);
            assert(ps[k].0 == v);
        }
    }
}

/// Appending an entry with a fresh key preserves every other
/// participant's view of the ledger.
proof fn lemma_push_frame(ps: Seq<(u64, UserPosition)>, x: (u64, UserPosition), v: u64)
    requires
        unique_keys(ps),
        !has_user(ps, x.0),
        v != x.0,
    ensures
        has_user(ps.push(x), v) == has_user(ps, v),
        spec_position(ps.push(x), v) == spec_position(ps, v),
{
    let pushed = ps.push(x);
    lemma_push_unique(ps, x);
    assert(forall|k: int| 0 <= k < ps.len() ==> pushed[k] == ps[k]);
    if has_user(ps, v) {
        let k = user_index(ps, v);
        lemma_unique_index(ps, v, k);
        lemma_unique_index(pushed, v, k);
    } else {
        if has_user(pushed, v) {
            let k = user_index(pushed, v);
            assert(0 <= k < ps.len() ==> ps[k].0 == v);
            assert(k == ps.len() ==> pushed[k].0 == x.0);
        }
    }
}

// ---------------------------------------------------------------------------
// Constructors and the accumulator advance
// ---------------------------------------------------------------------------

impl Staking {
    /// A freshly deployed engine: nothing configured, nothing staked.
    /// `init` must run before any mutating operation succeeds.
    pub fn new() -> (s: Staking)
        ensures
            s.wf(),
            !s.is_initialized(),
            s.state == (GlobalState {
                total_staked: 0,
                last_update_timestamp: 0,
                reward_per_share_acc: 0,
                reward_rate: 0,
            }),
            s.positions@.len() == 0,
    {
        Staking {
            admin: None,
            staking_token: 0,
            reward_token: 0,
            state: GlobalState {
                total_staked: 0,
                last_update_timestamp: 0,
                reward_per_share_acc: 0,
                reward_rate: 0,
            },
            positions: Vec::new(),
        }
    }

    /// Set up the engine: record the administrator and the two asset ids,
    /// and start the accumulator clock at `now`.  Fails if already set up.
    pub fn init(
        &mut self,
        admin: u64,
        staking_token: u64,
        reward_token: u64,
        now: u64,
    ) -> (r: Result<(), Error>)
        requires
            old(self).wf(),
        ensures
            final(self).wf(),
            old(self).is_initialized() ==> r == Err::<(), Error>(Error::AlreadyInitialized)
                && final(self).same_state(*old(self)),
            !old(self).is_initialized() ==> {
                &&& r == Ok::<(), Error>(())
                &&& final(self).admin == Some(admin)
                &&& final(self).staking_token == staking_token
                &&& final(self).reward_token == reward_token
                &&& final(self).state == (GlobalState {
                    total_staked: 0,
                    last_update_timestamp: now,
                    reward_per_share_acc: 0,
                    reward_rate: 0,
                })
                &&& final(self).positions@ == old(self).positions@
            },
    {
        if self.admin.is_some() {
            return Err(Error::AlreadyInitialized);
        }
        self.admin = Some(admin);
        self.staking_token = staking_token;
        self.reward_token = reward_token;
        self.state = GlobalState {
            total_staked: 0,
            last_update_timestamp: now,
            reward_per_share_acc: 0,
            reward_rate: 0,
        };
        Ok(())
    }

    /// Advance the accumulator to `now`.  A no-op when `now` is not later
    /// than the last update; otherwise the elapsed reward stream, scaled
    /// by `PRECISION` and divided (flooring) by the staked total, is added
    /// to `reward_per_share_acc` — or discarded entirely while nobody is
    /// staked.  Every mutating operation calls this first so it never
    /// works on a stale accumulator.
    pub fn update_pool(&mut self, now: u64) -> (r: Result<(), Error>)
        requires
            old(self).wf(),
            advance_fits(old(self).state, now),
        ensures
            final(self).wf(),
            !old(self).is_initialized() ==> r == Err::<(), Error>(Error::NotInitialized)
                && final(self).same_state(*old(self)),
            old(self).is_initialized() ==> {
                &&& r == Ok::<(), Error>(())
                &&& final(self).state == advanced(old(self).state, now)
                &&& final(self).admin == old(self).admin
                &&& final(self).staking_token == old(self).staking_token
                &&& final(self).reward_token == old(self).reward_token
                &&& final(self).positions@ == old(self).positions@
            },
    {
        if self.admin.is_none() {
            return Err(Error::NotInitialized);
        }

        if now <= self.state.last_update_timestamp {
            return Ok(());
        }

        if self.state.total_staked > 0 {
            let duration: i128 = (now - self.state.last_update_timestamp) as i128;
            proof {
                lemma_mul_nonnegative(duration as int, self.state.reward_rate as int);
                lemma_mul_nonnegative(
                    duration * self.state.reward_rate,
                    PRECISION as int,
                );
                lemma_accumulator_never_decreases(self.state, now);
            }
            let rewards: i128 = duration * self.state.reward_rate;
            let scaled: i128 = rewards * PRECISION;
            let delta: i128 = scaled / self.state.total_staked;
            let ghost old_acc = self.state.reward_per_share_acc;
            self.state.reward_per_share_acc = self.state.reward_per_share_acc + delta;
            proof {
                assert forall|i: int| 0 <= i < self.positions@.len() implies position_wf(
                    #[trigger] self.positions@[i].1,
                    self.state.reward_per_share_acc,
                ) by {
                    lemma_entitled_mono(
                        self.positions@[i].1,
                        old_acc as int,
                        self.state.reward_per_share_acc as int,
                    );
                }
            }
        }
        self.state.last_update_timestamp = now;
        Ok(())
    }
}

// ---------------------------------------------------------------------------
// Participant operations
// ---------------------------------------------------------------------------

impl Staking {
    /// Linear scan of the ledger for `user`'s entry.
    fn find_position(&self, user: u64) -> (r: Option<usize>)
        ensures
            match r {
                Some(i) => 0 <= i < self.positions@.len() && self.positions@[i as int].0
                    == user,
                None => !has_user(self.positions@, user),
            },
    {
        let n = self.positions.len();
        let mut k: usize = 0;
        while k < n
            invariant
                n == self.positions@.len(),
                k <= n,
                forall|j: int| 0 <= j < k ==> self.positions@[j].0 != user,
            decreases n - k,
        {
            if self.positions[k].0 == user {
                return Some(k);
            }
            k = k + 1;
        }
        None
    }

    /// Stake `amount` units for `user` at time `now`.  The pool is
    /// advanced first; rewards earned under the old staked amount are
    /// settled into `pending_rewards` before the amount changes, so past
    /// rewards are never re-priced at the new, larger stake.  On success
    /// the caller owes the pool a transfer of `amount` staking tokens
    /// from `user`.
    pub fn stake(&mut self, user: u64, amount: i128, now: u64) -> (r: Result<(), Error>)
        requires
            old(self).wf(),
            stake_fits(*old(self), user, amount, now),
        ensures
            final(self).wf(),
            amount <= 0 ==> r == Err::<(), Error>(Error::InvalidAmount) && final(self).same_state(
                *old(self),
            ),
            amount > 0 && !old(self).is_initialized() ==> r == Err::<(), Error>(
                Error::NotInitialized,
            ) && final(self).same_state(*old(self)),
            amount > 0 && old(self).is_initialized() ==> ({
                let acc = advanced_acc(old(self).state, now);
                let p = spec_position(old(self).positions@, user);
                let q = spec_position(final(self).positions@, user);
                &&& r == Ok::<(), Error>(())
                &&& has_user(final(self).positions@, user)
                &&& q.amount == p.amount + amount
                &&& q.pending_rewards == claimable_of(p, acc)
                &&& q.reward_debt == entitled(q, acc)
                &&& final(self).state.total_staked == old(self).state.total_staked + amount
                &&& final(self).state.reward_per_share_acc == acc
                &&& final(self).state.last_update_timestamp == advanced_last(
                    old(self).state,
                    now,
                )
                &&& final(self).state.reward_rate == old(self).state.reward_rate
                &&& final(self).admin == old(self).admin
                &&& final(self).staking_token == old(self).staking_token
                &&& final(self).reward_token == old(self).reward_token
            }),
            amount > 0 && old(self).is_initialized() ==> forall|v: u64|
                v != user ==> #[trigger] spec_position(final(self).positions@, v)
                    == spec_position(old(self).positions@, v) && has_user(
                    final(self).positions@,
                    v,
                ) == has_user(old(self).positions@, v),
    {
        if amount <= 0 {
            return Err(Error::InvalidAmount);
        }
        match self.update_pool(now) {
            Err(e) => {
                return Err(e);
            },
            Ok(()) => {},
        }
        let ghost prev = *old(self);
        let acc = self.state.reward_per_share_acc;
        match self.find_position(user) {
            Some(i) => {
                let p = self.positions[i].1;
                proof {
                    lemma_unique_index(self.positions@, user, i as int);
                    lemma_mul_nonnegative(p.amount as int, acc as int);
                    lemma_div_pos_is_pos(p.amount * acc, PRECISION as int);
                    lemma_div_nonincreasing(p.amount * acc, PRECISION as int);
                }
                let mut pos = p;
                if pos.amount > 0 {
                    let pending = pos.amount * acc / PRECISION - pos.reward_debt;
                    pos.pending_rewards = pos.pending_rewards + pending;
                } else {
                    proof {
                        assert(p.amount == 0);
                        lemma_mul_by_zero_is_zero(acc as int);
                        lemma_div_of0(PRECISION as int);
                    }
                }
                pos.amount = pos.amount + amount;
                proof {
                    lemma_mul_nonnegative(pos.amount as int, acc as int);
                    lemma_div_pos_is_pos(pos.amount * acc, PRECISION as int);
                }
                pos.reward_debt = pos.amount * acc / PRECISION;
                let ghost before = self.positions@;
                self.positions[i] = (user, pos);
                self.state.total_staked = self.state.total_staked + amount;
                proof {
                    lemma_sum_update(before, i as int, (user, pos));
                    lemma_unique_index(self.positions@, user, i as int);
                    assert forall|v: u64| v != user implies #[trigger] spec_position(
                        self.positions@,
                        v,
                    ) == spec_position(prev.positions@, v) && has_user(self.positions@, v)
                        == has_user(prev.positions@, v) by {
                        lemma_update_frame(before, i as int, (user, pos), v);
                    }
                    lemma_update_unique(before, i as int, (user, pos));
                }
                Ok(())
            },
            None => {
                proof {
                    assert(spec_position(self.positions@, user) == default_position());
                    lemma_mul_nonnegative(amount as int, acc as int);
                    lemma_div_pos_is_pos(amount * acc, PRECISION as int);
                    lemma_mul_by_zero_is_zero(acc as int);
                    lemma_div_of0(PRECISION as int);
                }
                let pos = UserPosition {
                    amount,
                    reward_debt: amount * acc / PRECISION,
                    pending_rewards: 0,
                };
                let ghost before = self.positions@;
                self.positions.push((user, pos));
                self.state.total_staked = self.state.total_staked + amount;
                proof {
                    lemma_sum_push(before, (user, pos));
                    assert forall|v: u64| v != user implies #[trigger] spec_position(
                        self.positions@,
                        v,
                    ) == spec_position(prev.positions@, v) && has_user(self.positions@, v)
                        == has_user(prev.positions@, v) by {
                        lemma_push_frame(before, (user, pos), v);
                    }
                    lemma_push_unique(before, (user, pos));
                    lemma_unique_index(self.positions@, user, before.len() as int);
                }
                Ok(())
            },
        }
    }
}

impl Staking {
    /// Withdraw `amount` staked units for `user` at time `now` (zero is
    /// allowed and only settles).  Asking for more than is staked, or for
    /// a negative amount, or for a participant never seen, is rejected
    /// before any state changes.  On success the caller owes `user` a
    /// transfer of `amount` staking tokens back.
    pub fn unstake(&mut self, user: u64, amount: i128, now: u64) -> (r: Result<(), Error>)
        requires
            old(self).wf(),
            unstake_fits(*old(self), user, amount, now),
        ensures
            final(self).wf(),
            !has_user(old(self).positions@, user) ==> r == Err::<(), Error>(Error::InvalidAmount)
                && final(self).same_state(*old(self)),
            has_user(old(self).positions@, user) && (amount < 0 || amount > spec_position(
                old(self).positions@,
                user,
            ).amount) ==> r == Err::<(), Error>(Error::InvalidAmount) && final(self).same_state(
                *old(self),
            ),
            has_user(old(self).positions@, user) && 0 <= amount <= spec_position(
                old(self).positions@,
                user,
            ).amount ==> ({
                let acc = advanced_acc(old(self).state, now);
                let p = spec_position(old(self).positions@, user);
                let q = spec_position(final(self).positions@, user);
                &&& r == Ok::<(), Error>(())
                &&& has_user(final(self).positions@, user)
                &&& q.amount == p.amount - amount
                &&& q.pending_rewards == claimable_of(p, acc)
                &&& q.reward_debt == entitled(q, acc)
                &&& final(self).state.total_staked == old(self).state.total_staked - amount
                &&& final(self).state.reward_per_share_acc == acc
                &&& final(self).state.last_update_timestamp == advanced_last(
                    old(self).state,
                    now,
                )
                &&& final(self).state.reward_rate == old(self).state.reward_rate
                &&& final(self).admin == old(self).admin
                &&& final(self).staking_token == old(self).staking_token
                &&& final(self).reward_token == old(self).reward_token
            }),
            has_user(old(self).positions@, user) && 0 <= amount <= spec_position(
                old(self).positions@,
                user,
            ).amount ==> forall|v: u64|
                v != user ==> #[trigger] spec_position(final(self).positions@, v)
                    == spec_position(old(self).positions@, v) && has_user(
                    final(self).positions@,
                    v,
                ) == has_user(old(self).positions@, v),
    {
        let i = match self.find_position(user) {
            None => {
                return Err(Error::InvalidAmount);
            },
            Some(i) => i,
        };
        let p = self.positions[i].1;
        proof {
            lemma_unique_index(self.positions@, user, i as int);
        }
        if amount > p.amount || amount < 0 {
            return Err(Error::InvalidAmount);
        }
        match self.update_pool(now) {
            Err(e) => {
                return Err(e);
            },
            Ok(()) => {},
        }
        let ghost prev = *old(self);
        let acc = self.state.reward_per_share_acc;
        proof {
            lemma_mul_nonnegative(p.amount as int, acc as int);
            lemma_div_pos_is_pos(p.amount * acc, PRECISION as int);
            lemma_div_nonincreasing(p.amount * acc, PRECISION as int);
        }
        let mut pos = p;
        let pending = pos.amount * acc / PRECISION - pos.reward_debt;
        pos.pending_rewards = pos.pending_rewards + pending;
        proof {
            lemma_mul_inequality((p.amount - amount) as int, p.amount as int, acc as int);
            lemma_mul_nonnegative((p.amount - amount) as int, acc as int);
            lemma_div_pos_is_pos((p.amount - amount) * acc, PRECISION as int);
            lemma_mul_by_zero_is_zero(acc as int);
            lemma_div_of0(PRECISION as int);
        }
        pos.amount = pos.amount - amount;
        pos.reward_debt = if pos.amount > 0 {
            pos.amount * acc / PRECISION
        } else {
            0
        };
        let ghost before = self.positions@;
        proof {
            lemma_sum_lower_bound(before, i as int);
        }
        self.positions[i] = (user, pos);
        self.state.total_staked = self.state.total_staked - amount;
        proof {
            lemma_sum_update(before, i as int, (user, pos));
            lemma_update_unique(before, i as int, (user, pos));
            lemma_unique_index(self.positions@, user, i as int);
            assert forall|v: u64| v != user implies #[trigger] spec_position(
                self.positions@,
                v,
            ) == spec_position(prev.positions@, v) && has_user(self.positions@, v) == has_user(
                prev.positions@,
                v,
            ) by {
                lemma_update_frame(before, i as int, (user, pos), v);
            }
        }
        Ok(())
    }

    /// Pay out everything `user` can claim at time `now`: the pool is
    /// advanced, the claimable total is computed, pending rewards are
    /// zeroed and the debt re-priced at the fresh accumulator.  Nothing to
    /// claim is not an error: the call returns zero.  On success the
    /// caller owes `user` a transfer of the returned amount of reward
    /// tokens.
    #[verifier::rlimit(60)]
    pub fn claim_rewards(&mut self, user: u64, now: u64) -> (r: Result<i128, Error>)
        requires
            old(self).wf(),
            settlement_fits(*old(self), user, now),
        ensures
            final(self).wf(),
            !old(self).is_initialized() ==> r == Err::<i128, Error>(Error::NotInitialized)
                && final(self).same_state(*old(self)),
            old(self).is_initialized() ==> {
                &&& final(self).state == advanced(old(self).state, now)
                &&& final(self).admin == old(self).admin
                &&& final(self).staking_token == old(self).staking_token
                &&& final(self).reward_token == old(self).reward_token
            },
            old(self).is_initialized() && !has_user(old(self).positions@, user) ==> r
                == Err::<i128, Error>(Error::InvalidAmount) && final(self).positions@ == old(
                self,
            ).positions@,
            old(self).is_initialized() && has_user(old(self).positions@, user) ==> ({
                let acc = advanced_acc(old(self).state, now);
                let p = spec_position(old(self).positions@, user);
                let q = spec_position(final(self).positions@, user);
                let c = claimable_of(p, acc);
                &&& c <= 0 ==> r == Ok::<i128, Error>(0) && final(self).positions@ == old(
                    self,
                ).positions@
                &&& c > 0 ==> {
                    &&& r == Ok::<i128, Error>(c as i128)
                    &&& has_user(final(self).positions@, user)
                    &&& q.amount == p.amount
                    &&& q.pending_rewards == 0
                    &&& q.reward_debt == entitled(p, acc)
                }
            }),
            old(self).is_initialized() && has_user(old(self).positions@, user) ==> forall|
                v: u64,
            |
                v != user ==> #[trigger] spec_position(final(self).positions@, v)
                    == spec_position(old(self).positions@, v),
            old(self).is_initialized() && has_user(old(self).positions@, user) ==> forall|
                v: u64,
            |
                v != user ==> #[trigger] has_user(final(self).positions@, v) == has_user(
                old(self).positions@,
                v,
            ),
    {
        match self.update_pool(now) {
            Err(e) => {
                return Err(e);
            },
            Ok(()) => {},
        }
        let ghost prev = *old(self);
        let acc = self.state.reward_per_share_acc;
        let i = match self.find_position(user) {
            None => {
                return Err(Error::InvalidAmount);
            },
            Some(i) => i,
        };
        let p = self.positions[i].1;
        proof {
            lemma_unique_index(self.positions@, user, i as int);
            lemma_mul_nonnegative(p.amount as int, acc as int);
            lemma_div_pos_is_pos(p.amount * acc, PRECISION as int);
            lemma_div_nonincreasing(p.amount * acc, PRECISION as int);
        }
        let pending = p.amount * acc / PRECISION - p.reward_debt;
        let total_claimable = p.pending_rewards + pending;
        if total_claimable <= 0 {
            return Ok(0);
        }
        let mut pos = p;
        pos.pending_rewards = 0;
        pos.reward_debt = p.amount * acc / PRECISION;
        let ghost before = self.positions@;
        self.positions[i] = (user, pos);
        proof {
            lemma_sum_update(before, i as int, (user, pos));
            lemma_update_unique(before, i as int, (user, pos));
            lemma_unique_index(self.positions@, user, i as int);
            assert forall|v: u64| v != user implies #[trigger] spec_position(
                self.positions@,
                v,
            ) == spec_position(prev.positions@, v) && has_user(self.positions@, v) == has_user(
                prev.positions@,
                v,
            ) by {
                lemma_update_frame(before, i as int, (user, pos), v);
            }
            assert forall|v: u64| v != user implies #[trigger] has_user(self.positions@, v)
                == has_user(prev.positions@, v) by {
                lemma_update_frame(before, i as int, (user, pos), v);
            }
        }
        Ok(total_claimable)
    }

    /// Change the reward emission rate.  Only the administrator may do
    /// this, and the pool is advanced first so the new rate never applies
    /// retroactively to time already elapsed.
    pub fn set_reward_rate(&mut self, admin: u64, rate: i128, now: u64) -> (r: Result<
        (),
        Error,
    >)
        requires
            old(self).wf(),
            rate >= 0,
            old(self).admin == Some(admin) ==> advance_fits(old(self).state, now),
        ensures
            final(self).wf(),
            !old(self).is_initialized() ==> r == Err::<(), Error>(Error::NotInitialized)
                && final(self).same_state(*old(self)),
            old(self).is_initialized() && old(self).admin != Some(admin) ==> r == Err::<
                (),
                Error,
            >(Error::NotAuthorized) && final(self).same_state(*old(self)),
            old(self).admin == Some(admin) ==> {
                &&& r == Ok::<(), Error>(())
                &&& final(self).state.reward_rate == rate
                &&& final(self).state.reward_per_share_acc == advanced_acc(old(self).state, now)
                &&& final(self).state.last_update_timestamp == advanced_last(
                    old(self).state,
                    now,
                )
                &&& final(self).state.total_staked == old(self).state.total_staked
                &&& final(self).admin == old(self).admin
                &&& final(self).staking_token == old(self).staking_token
                &&& final(self).reward_token == old(self).reward_token
                &&& final(self).positions@ == old(self).positions@
            },
    {
        let stored = match self.admin {
            None => {
                return Err(Error::NotInitialized);
            },
            Some(a) => a,
        };
        if admin != stored {
            return Err(Error::NotAuthorized);
        }
        match self.update_pool(now) {
            Err(e) => {
                return Err(e);
            },
            Ok(()) => {},
        }
        self.state.reward_rate = rate;
        Ok(())
    }

    /// Report `user`'s position as of `now`: the stored entry (or the
    /// default one), with `pending_rewards` projected forward to what a
    /// claim would find.  The projection runs on a transient copy of the
    /// pool state, so nothing stored changes and repeated calls agree.
    pub fn position_of(&self, user: u64, now: u64) -> (r: UserPosition)
        requires
            self.wf(),
            settlement_fits(*self, user, now),
        ensures
            ({
                let p = spec_position(self.positions@, user);
                let acc = advanced_acc(self.state, now);
                &&& !self.is_initialized() ==> r == p
                &&& self.is_initialized() ==> {
                    &&& r.amount == p.amount
                    &&& r.reward_debt == p.reward_debt
                    &&& r.pending_rewards == claimable_of(p, acc)
                    &&& r.pending_rewards == claimable_at(*self, user, now)
                }
            }),
    {
        let mut pos = match self.find_position(user) {
            Some(i) => {
                proof {
                    lemma_unique_index(self.positions@, user, i as int);
                }
                self.positions[i].1
            },
            None => UserPosition { amount: 0, reward_debt: 0, pending_rewards: 0 },
        };
        if self.admin.is_some() {
            let mut acc = self.state.reward_per_share_acc;
            if now > self.state.last_update_timestamp && self.state.total_staked > 0 {
                let duration: i128 = (now - self.state.last_update_timestamp) as i128;
                proof {
                    lemma_mul_nonnegative(duration as int, self.state.reward_rate as int);
                    lemma_mul_nonnegative(duration * self.state.reward_rate, PRECISION as int);
                    lemma_accumulator_never_decreases(self.state, now);
                }
                let rewards: i128 = duration * self.state.reward_rate;
                acc = acc + rewards * PRECISION / self.state.total_staked;
            }
            proof {
                lemma_accumulator_never_decreases(self.state, now);
                lemma_mul_nonnegative(pos.amount as int, acc as int);
                lemma_div_pos_is_pos(pos.amount * acc, PRECISION as int);
                lemma_div_nonincreasing(pos.amount * acc, PRECISION as int);
                lemma_entitled_mono(
                    spec_position(self.positions@, user),
                    self.state.reward_per_share_acc as int,
                    acc as int,
                );
            }
            let pending = pos.amount * acc / PRECISION - pos.reward_debt;
            pos.pending_rewards = pos.pending_rewards + pending;
        }
        pos
    }
}

// ---------------------------------------------------------------------------
// Laws
// ---------------------------------------------------------------------------

/// Non-negativity: in a well-formed engine no participant's claimable
/// total is ever negative, at any query time.  The reward debt never
/// exceeds the position's accumulator share, because it was fixed at an
/// accumulator value the pool has only grown away from.
pub proof fn lemma_total_claimable_nonneg(s: &Staking, user: u64, now: u64)
    requires
        s.wf(),
    ensures
        claimable_at(*s, user, now) >= 0,
{
    let p = spec_position(s.positions@, user);
    let acc0 = s.state.reward_per_share_acc;
    let acc1 = advanced_acc(s.state, now);
    lemma_accumulator_never_decreases(s.state, now);
    if has_user(s.positions@, user) {
        let i = user_index(s.positions@, user);
        assert(position_wf(s.positions@[i].1, acc0));
        lemma_entitled_mono(p, acc0 as int, acc1);
    } else {
        lemma_mul_by_zero_is_zero(acc1);
        lemma_div_of0(PRECISION as int);
    }
}

/// Conservation: in a well-formed engine the staked total recorded in the
/// pool state is exactly the sum of all positions' staked amounts — every
/// operation preserves this, so it holds at all times.
pub proof fn lemma_conservation(s: &Staking)
    requires
        s.wf(),
    ensures
        s.state.total_staked == sum_amounts(s.positions@),
        s.state.total_staked >= 0,
{
}

/// Idempotence of the accumulator advance: advancing to `t1` and then to
/// any `t2` that is not later (the same timestamp, or an earlier one)
/// changes nothing the second time.  Since every operation advances the
/// pool through this very transition, a second call with a non-advancing
/// clock leaves the pool state as it was.
pub proof fn lemma_advance_idempotent(g: GlobalState, t1: u64, t2: u64)
    requires
        t2 <= t1,
    ensures
        advanced(advanced(g, t1), t2) == advanced(g, t1),
{
    let g1 = advanced(g, t1);
    assert(t2 <= g1.last_update_timestamp);
    assert(accrued_delta(g1, t2) == 0);
}

/// Zero-stake gap: while nobody is staked, advancing the pool adds
/// nothing to the accumulator, yet still moves the clock — the reward
/// stream of the gap has no claimant and is discarded, not recovered
/// retroactively when staking resumes.
pub proof fn lemma_zero_stake_gap(g: GlobalState, now: u64)
    requires
        g.total_staked == 0,
    ensures
        advanced(g, now).reward_per_share_acc == g.reward_per_share_acc,
        advanced(g, now).last_update_timestamp == advanced_last(g, now),
{
}

/// A claim leaves nothing claimable: after `claim_rewards` has settled a
/// participant at time `now` — pending rewards zeroed, debt re-priced at
/// the advanced accumulator, pool advanced to `now` — an immediate second
/// query or claim at the same instant finds a claimable total of zero
/// (and `claim_rewards` then returns zero without touching state).
/// `before` and `after` are the engine on either side of the first claim,
/// related as the contract of `claim_rewards` guarantees.
pub proof fn lemma_claim_zeroes_pending(before: &Staking, after: &Staking, user: u64, now: u64)
    requires
        before.wf(),
        advance_fits(before.state, now),
        after.state == advanced(before.state, now),
        has_user(after.positions@, user),
        spec_position(after.positions@, user).pending_rewards == 0,
        spec_position(after.positions@, user).reward_debt == entitled(
            spec_position(after.positions@, user),
            advanced_acc(before.state, now),
        ),
    ensures
        claimable_at(*after, user, now) == 0,
{
    lemma_accumulator_never_decreases(before.state, now);
    assert(now <= after.state.last_update_timestamp);
    assert(accrued_delta(after.state, now) == 0);
    assert(after.state.reward_per_share_acc as int == advanced_acc(before.state, now));
}

} // verus!
