//! The swap: the walk of the price towards the nearest initialized tick, step
//! by step, and the settlement with the trader.

use crate::math::{compute_swap_step, distance, lemma_swap_step_bounds, q96, swap_step};
use crate::pool::{
    balance_of, magnitude_of, pool_wf, set_trader_balance, trader_balance, with_balance, PoolError,
    PoolView, Token, Trader, UniswapV3Pool,
};
use crate::tick_math::{
    is_tick_of, lemma_price_to_tick_inverts, lemma_price_to_tick_monotone, lemma_sqrt_price_increasing,
    lemma_sqrt_price_valid,
    lemma_tick_at_sqrt_price, lemma_tick_exists, max_sqrt_price, min_sqrt_price, price_to_tick,
    sqrt_price_at_tick, tick_at_sqrt_price, tick_to_price, valid_price, valid_tick,
};
use crate::ticks::{is_next_initialized, net_of, next_initialized};
use crate::wide::{lemma_pow64_values, Wide};
use vstd::arithmetic::div_mod::{
    lemma_div_is_ordered, lemma_div_multiples_vanish, lemma_fundamental_div_mod,
};
use vstd::prelude::*;

verus! {

/// The denominator of a fee: a fee of `f` keeps `f / 1_000_000` of the output.
pub const FEE_UNITS: u32 = 1_000_000;

/// The working values of a swap.
pub struct SwapState {
    /// The input that is still to be taken.
    pub amount_specified_remaining: u128,
    /// The output that the steps so far have given.
    pub amount_calculated: u128,
    /// The sqrt price that the walk has reached.
    pub sqrt_price_x96: Wide,
    /// The tick that the walk has reached.
    pub tick: i32,
    /// The liquidity that is active where the walk stands.
    pub liquidity: u128,
}

impl View for SwapState {
    type V = SwapProgress;

    open spec fn view(&self) -> SwapProgress {
        SwapProgress {
            remaining: self.amount_specified_remaining as nat,
            calculated: self.amount_calculated as nat,
            sqrt_price_x96: self.sqrt_price_x96@,
            tick: self.tick,
            liquidity: self.liquidity,
        }
    }
}

/// The working values of a swap as numbers: the input that remains, the
/// output so far, and the price, tick and liquidity that the walk has reached.
pub struct SwapProgress {
    /// The input that is still to be taken.
    pub remaining: nat,
    /// The output that the steps so far have given.
    pub calculated: nat,
    /// The sqrt price that the walk has reached.
    pub sqrt_price_x96: nat,
    /// The tick that the walk has reached.
    pub tick: i32,
    /// The liquidity that is active where the walk stands.
    pub liquidity: u128,
}

/// What one turn of the walk leads to.
pub enum Turn {
    /// The walk goes on from these values.
    Next(SwapProgress),
    /// No further input can be taken: the walk ends with the values it has.
    Done,
    /// The swap is rejected.
    Failed(PoolError),
}

/// What a swap did.
#[derive(Clone, Copy, Debug, PartialEq, Eq)]
pub struct SwapReceipt {
    /// The amount of the input token that the trader paid.
    pub amount_in: u128,
    /// The amount of the output token that the trader received, net of the fee.
    pub amount_out: u128,
}

/// A swap that went through: the pool and the trader after it, and what it moved.
pub struct SwapEffect {
    /// The pool after the swap.
    pub pool: PoolView,
    /// The trader after the swap.
    pub trader: Trader,
    /// The amount of the input token that the trader paid.
    pub amount_in: u128,
    /// The amount of the output token that the trader received, net of the fee.
    pub amount_out: u128,
}

/// The asset of the pool that is not `token`.
pub open spec fn other_token(pool: PoolView, token: Token) -> Token {
    if token == pool.token_0 {
        pool.token_1
    } else {
        pool.token_0
    }
}

/// The reserve that the output of a swap comes from.
pub open spec fn reserve_out(pool: PoolView, zero_for_one: bool) -> u128 {
    if zero_for_one {
        pool.balance_1
    } else {
        pool.balance_0
    }
}

/// The reserve that the input of a swap goes to.
pub open spec fn reserve_in(pool: PoolView, zero_for_one: bool) -> u128 {
    if zero_for_one {
        pool.balance_0
    } else {
        pool.balance_1
    }
}

/// The active liquidity after the price has crossed a tick with net liquidity
/// `net`: crossing upwards adds it, crossing downwards takes it away.
pub open spec fn crossed_liquidity(liquidity: u128, net: int, zero_for_one: bool) -> int {
    if zero_for_one {
        liquidity - net
    } else {
        liquidity + net
    }
}

/// What is left of `amount` after the fee.
pub open spec fn net_of_fee(amount: nat, fee: nat) -> nat {
    amount * ((FEE_UNITS - fee) as nat) / (FEE_UNITS as nat)
}

/// The tick that the search for the next initialized tick starts from: the
/// working tick, or the tick above it where the price rises and already lies
/// above the price of the working tick. So every tick that the search finds
/// has a price at or past the working price in the direction of the swap.
pub open spec fn search_start(state: SwapProgress, zero_for_one: bool) -> i32 {
    if !zero_for_one && state.sqrt_price_x96 > sqrt_price_at_tick(state.tick as int) {
        (state.tick + 1) as i32
    } else {
        state.tick
    }
}

/// One turn of the walk. The price moves towards the nearest initialized tick
/// at or past the start of the search, downwards where token0 comes in.
/// Without such a tick the swap is rejected. Where the step takes no input,
/// the walk ends. A step whose output the reserve cannot fund is rejected. A
/// step that reaches the tick's price crosses the tick: the liquidity changes
/// by the tick's net liquidity and the tick becomes the working tick; else
/// the working tick is the one that the new price falls into.
pub open spec fn swap_turn(pool: PoolView, zero_for_one: bool, state: SwapProgress) -> Turn {
    match next_initialized(pool.ticks, search_start(state, zero_for_one), !zero_for_one) {
        None => Turn::Failed(PoolError::InsufficientLiquidity),
        Some(next_tick) => {
            let boundary = sqrt_price_at_tick(next_tick as int);
            let step = swap_step(
                state.sqrt_price_x96,
                boundary,
                state.liquidity as nat,
                state.remaining,
            );
            let crossed = step.next == boundary;
            let liquidity = if crossed {
                crossed_liquidity(state.liquidity, net_of(pool.ticks, next_tick), zero_for_one)
            } else {
                state.liquidity as int
            };
            if step.amount_in == 0 {
                Turn::Done
            } else if state.calculated + step.amount_out > reserve_out(pool, zero_for_one) {
                Turn::Failed(PoolError::InsufficientBalance)
            } else if liquidity < 0 {
                Turn::Failed(PoolError::InsufficientLiquidity)
            } else if liquidity > u128::MAX {
                Turn::Failed(PoolError::Overflow)
            } else {
                Turn::Next(
                    SwapProgress {
                        remaining: (state.remaining - step.amount_in) as nat,
                        calculated: state.calculated + step.amount_out,
                        sqrt_price_x96: step.next,
                        tick: if crossed {
                            next_tick
                        } else {
                            tick_at_sqrt_price(step.next) as i32
                        },
                        liquidity: liquidity as u128,
                    },
                )
            }
        },
    }
}

/// The walk of a swap from `state` on: turn after turn while input remains.
pub open spec fn swap_walk(pool: PoolView, zero_for_one: bool, state: SwapProgress) -> Result<
    SwapProgress,
    PoolError,
>
    decreases state.remaining,
    when pool_wf(pool) && valid_price(state.sqrt_price_x96)
    via swap_walk_decreases
{
    if state.remaining == 0 {
        Ok(state)
    } else {
        match swap_turn(pool, zero_for_one, state) {
            Turn::Done => Ok(state),
            Turn::Failed(e) => Err(e),
            Turn::Next(next) => swap_walk(pool, zero_for_one, next),
        }
    }
}

#[via_fn]
proof fn swap_walk_decreases(pool: PoolView, zero_for_one: bool, state: SwapProgress) {
    lemma_turn_makes_progress(pool, zero_for_one, state);
}

/// The values that the walk starts from: those of the pool.
pub open spec fn swap_start(pool: PoolView, amount: nat) -> SwapProgress {
    SwapProgress {
        remaining: amount,
        calculated: 0,
        sqrt_price_x96: pool.sqrt_price_x96,
        tick: pool.tick,
        liquidity: pool.liquidity,
    }
}

/// What a swap of at most `amount` of `token_in` does. The walk starts from
/// the pool's values; where it goes through, the trader pays what the walk
/// took and receives what it gave, net of the fee, and the pool takes the
/// walk's price, tick and liquidity, receives the payment and pays the
/// trader: the fee stays in its reserve.
pub open spec fn swap_result(pool: PoolView, trader: Trader, token_in: Token, amount: nat, fee: nat) -> Result<
    SwapEffect,
    PoolError,
> {
    let zero_for_one = token_in == pool.token_0;
    let token_out = other_token(pool, token_in);
    match swap_walk(pool, zero_for_one, swap_start(pool, amount)) {
        Err(e) => Err(e),
        Ok(end) => {
            let taken = (amount - end.remaining) as nat;
            let paid = net_of_fee(end.calculated, fee);
            if taken > balance_of(trader, token_in) {
                Err(PoolError::InsufficientBalance)
            } else if balance_of(trader, token_out) + paid > u128::MAX || reserve_in(
                pool,
                zero_for_one,
            ) + taken > u128::MAX {
                Err(PoolError::Overflow)
            } else {
                let debited = with_balance(
                    trader,
                    token_in,
                    (balance_of(trader, token_in) - taken) as u128,
                );
                let into = (reserve_in(pool, zero_for_one) + taken) as u128;
                let out_of = (reserve_out(pool, zero_for_one) - paid) as u128;
                Ok(
                    SwapEffect {
                        pool: PoolView {
                            sqrt_price_x96: end.sqrt_price_x96,
                            tick: end.tick,
                            liquidity: end.liquidity,
                            balance_0: if zero_for_one {
                                into
                            } else {
                                out_of
                            },
                            balance_1: if zero_for_one {
                                out_of
                            } else {
                                into
                            },
                            ..pool
                        },
                        trader: with_balance(
                            debited,
                            token_out,
                            (balance_of(debited, token_out) + paid) as u128,
                        ),
                        amount_in: taken as u128,
                        amount_out: paid as u128,
                    },
                )
            }
        },
    }
}

/// What holds of the working values of a swap at every turn: a valid price
/// in a tick within the pool's bounds, and an output that the reserve funds.
pub open spec fn progress_wf(pool: PoolView, zero_for_one: bool, state: SwapProgress) -> bool {
    &&& valid_price(state.sqrt_price_x96)
    &&& is_tick_of(state.tick as int, state.sqrt_price_x96)
    &&& pool.min_tick <= state.tick <= pool.max_tick
    &&& state.calculated <= reserve_out(pool, zero_for_one)
}

/// The nearest initialized tick is one of the pool's ticks, within its bounds.
proof fn lemma_next_tick_in_pool(pool: PoolView, from: i32, is_up: bool)
    requires
        pool_wf(pool),
        next_initialized(pool.ticks, from, is_up) is Some,
    ensures
        is_next_initialized(pool.ticks, from, is_up, next_initialized(pool.ticks, from, is_up)->0),
        pool.min_tick <= next_initialized(pool.ticks, from, is_up)->0 <= pool.max_tick,
        valid_tick(next_initialized(pool.ticks, from, is_up)->0 as int),
        valid_price(sqrt_price_at_tick(next_initialized(pool.ticks, from, is_up)->0 as int)),
{
    let next = next_initialized(pool.ticks, from, is_up)->0;
    assert(is_next_initialized(pool.ticks, from, is_up, next));
    assert(pool.ticks.contains_key(next));
    lemma_sqrt_price_valid(next as int);
}

/// Whether the working values `after` can follow the working values `before`:
/// the output has not shrunk, and the price has not risen where token0 comes
/// in and not fallen where token1 comes in.
pub open spec fn moved_on(zero_for_one: bool, before: SwapProgress, after: SwapProgress) -> bool {
    &&& after.calculated >= before.calculated
    &&& zero_for_one ==> after.sqrt_price_x96 <= before.sqrt_price_x96
    &&& !zero_for_one ==> after.sqrt_price_x96 >= before.sqrt_price_x96
}

/// A turn that goes on takes input: less remains after it.
pub proof fn lemma_turn_makes_progress(pool: PoolView, zero_for_one: bool, state: SwapProgress)
    requires
        pool_wf(pool),
        valid_price(state.sqrt_price_x96),
    ensures
        swap_turn(pool, zero_for_one, state) matches Turn::Next(next) ==> next.remaining
            < state.remaining,
{
    let from = search_start(state, zero_for_one);
    if next_initialized(pool.ticks, from, !zero_for_one) is Some {
        lemma_next_tick_in_pool(pool, from, !zero_for_one);
        let next_tick = next_initialized(pool.ticks, from, !zero_for_one)->0;
        lemma_swap_step_bounds(
            state.sqrt_price_x96,
            sqrt_price_at_tick(next_tick as int),
            state.liquidity as nat,
            state.remaining,
        );
    }
}

/// A turn that goes on keeps the working values well formed.
pub proof fn lemma_turn_keeps_wf(pool: PoolView, zero_for_one: bool, state: SwapProgress)
    requires
        pool_wf(pool),
        progress_wf(pool, zero_for_one, state),
    ensures
        swap_turn(pool, zero_for_one, state) matches Turn::Next(next) ==> progress_wf(
            pool,
            zero_for_one,
            next,
        ) && next.remaining < state.remaining && moved_on(zero_for_one, state, next),
{
    lemma_turn_makes_progress(pool, zero_for_one, state);
    if let Turn::Next(next) = swap_turn(pool, zero_for_one, state) {
        let from = search_start(state, zero_for_one);
        lemma_next_tick_in_pool(pool, from, !zero_for_one);
        let next_tick = next_initialized(pool.ticks, from, !zero_for_one)->0;
        let boundary = sqrt_price_at_tick(next_tick as int);
        lemma_swap_step_bounds(
            state.sqrt_price_x96,
            boundary,
            state.liquidity as nat,
            state.remaining,
        );
        let step = swap_step(
            state.sqrt_price_x96,
            boundary,
            state.liquidity as nat,
            state.remaining,
        );
        // the tick that the search found lies at or past the working price
        if next_tick < state.tick {
            lemma_sqrt_price_increasing(next_tick as int, state.tick as int);
        }
        if state.tick + 1 < next_tick {
            lemma_sqrt_price_increasing(state.tick + 1, next_tick as int);
        }
        // the step ends between two valid prices, in a tick between their ticks
        assert(valid_price(step.next));
        lemma_price_to_tick_inverts(next_tick as int);
        lemma_tick_exists(step.next);
        lemma_tick_at_sqrt_price(state.tick as int, state.sqrt_price_x96);
        if state.sqrt_price_x96 >= boundary {
            lemma_price_to_tick_monotone(boundary, step.next);
            lemma_price_to_tick_monotone(step.next, state.sqrt_price_x96);
        } else {
            lemma_price_to_tick_monotone(state.sqrt_price_x96, step.next);
            lemma_price_to_tick_monotone(step.next, boundary);
        }
    }
}

/// The walk ends with well-formed working values and no more input than it
/// started with.
pub proof fn lemma_walk_keeps_wf(pool: PoolView, zero_for_one: bool, state: SwapProgress)
    requires
        pool_wf(pool),
        progress_wf(pool, zero_for_one, state),
    ensures
        swap_walk(pool, zero_for_one, state) matches Ok(end) ==> progress_wf(pool, zero_for_one, end)
            && end.remaining <= state.remaining && moved_on(zero_for_one, state, end),
    decreases state.remaining,
{
    if state.remaining != 0 {
        lemma_turn_keeps_wf(pool, zero_for_one, state);
        if let Turn::Next(next) = swap_turn(pool, zero_for_one, state) {
            lemma_walk_keeps_wf(pool, zero_for_one, next);
        }
    }
}

/// A swap that goes through moves exactly what it reports: the reserve of the
/// input asset grows by the input, the reserve of the output asset shrinks by
/// the output that the trader receives, and the trader's balances change the
/// other way. So an input above zero makes the reserve of the input asset
/// grow, and an output above zero makes the reserve of the output asset
/// shrink. The fee is the part of the walk's output that stays in the reserve.
/// What the pool and the trader hold together of either asset stays the
/// same. The price never rises where token0 comes in and never falls where
/// token1 comes in, and the ticks and positions stay as they are.
pub proof fn lemma_swap_moves_reserves(
    pool: PoolView,
    trader: Trader,
    token_in: Token,
    amount: nat,
    fee: nat,
)
    requires
        pool_wf(pool),
        fee < FEE_UNITS,
        swap_result(pool, trader, token_in, amount, fee) is Ok,
    ensures
        ({
            let effect = swap_result(pool, trader, token_in, amount, fee)->Ok_0;
            let zero_for_one = token_in == pool.token_0;
            let token_out = other_token(pool, token_in);
            &&& pool_wf(effect.pool)
            &&& effect.amount_in <= amount
            &&& reserve_in(effect.pool, zero_for_one) == reserve_in(pool, zero_for_one)
                + effect.amount_in
            &&& reserve_out(effect.pool, zero_for_one) == reserve_out(pool, zero_for_one)
                - effect.amount_out
            &&& effect.amount_in > 0 ==> reserve_in(effect.pool, zero_for_one) > reserve_in(
                pool,
                zero_for_one,
            )
            &&& effect.amount_out > 0 ==> reserve_out(effect.pool, zero_for_one) < reserve_out(
                pool,
                zero_for_one,
            )
            &&& balance_of(effect.trader, token_in) == balance_of(trader, token_in)
                - effect.amount_in
            &&& balance_of(effect.trader, token_out) == balance_of(trader, token_out)
                + effect.amount_out
            &&& reserve_in(effect.pool, zero_for_one) + balance_of(effect.trader, token_in)
                == reserve_in(pool, zero_for_one) + balance_of(trader, token_in)
            &&& reserve_out(effect.pool, zero_for_one) + balance_of(effect.trader, token_out)
                == reserve_out(pool, zero_for_one) + balance_of(trader, token_out)
            &&& zero_for_one ==> effect.pool.sqrt_price_x96 <= pool.sqrt_price_x96
            &&& !zero_for_one ==> effect.pool.sqrt_price_x96 >= pool.sqrt_price_x96
            &&& effect.pool.ticks == pool.ticks
            &&& effect.pool.positions == pool.positions
        }),
{
    let zero_for_one = token_in == pool.token_0;
    let start = swap_start(pool, amount);
    lemma_walk_keeps_wf(pool, zero_for_one, start);
    let end = swap_walk(pool, zero_for_one, start)->Ok_0;
    lemma_fee_keeps_part(end.calculated, fee);
}

/// A swap of nothing, and a swap whose first turn cannot take any input,
/// change neither the pool nor the trader and report no output.
pub proof fn lemma_swap_without_progress(
    pool: PoolView,
    trader: Trader,
    token_in: Token,
    amount: nat,
    fee: nat,
)
    requires
        pool_wf(pool),
        fee < FEE_UNITS,
        amount == 0 || swap_turn(pool, token_in == pool.token_0, swap_start(pool, amount))
            == Turn::Done,
    ensures
        swap_result(pool, trader, token_in, amount, fee) == Ok::<SwapEffect, PoolError>(
            SwapEffect { pool, trader, amount_in: 0, amount_out: 0 },
        ),
{
    let zero_for_one = token_in == pool.token_0;
    let start = swap_start(pool, amount);
    assert(swap_walk(pool, zero_for_one, start) == Ok::<SwapProgress, PoolError>(start));
    lemma_fee_keeps_part(0, fee);
    let effect = swap_result(pool, trader, token_in, amount, fee)->Ok_0;
    assert(effect.pool == pool);
    assert(effect.trader == trader);
}

/// What is left after the fee is no more than the amount, and nothing is left
/// of nothing.
pub proof fn lemma_fee_keeps_part(amount: nat, fee: nat)
    requires
        fee < FEE_UNITS,
    ensures
        net_of_fee(amount, fee) <= amount,
        net_of_fee(0, fee) == 0,
{
    let kept = (FEE_UNITS - fee) as nat;
    assert(amount * kept <= amount * 1_000_000) by (nonlinear_arith)
        requires
            kept <= 1_000_000,
    ;
    assert(0 * kept == 0) by (nonlinear_arith);
    lemma_div_is_ordered((amount * kept) as int, (amount * 1_000_000) as int, 1_000_000);
    lemma_div_multiples_vanish(amount as int, 1_000_000);
    assert(amount * 1_000_000 == 1_000_000 * amount);
}

/// A step whose output does not fit 128 bits takes some input.
proof fn lemma_unpayable_step_takes_input(current: nat, target: nat, liquidity: nat, remaining: nat)
    requires
        valid_price(current),
        valid_price(target),
        liquidity <= u128::MAX,
        swap_step(current, target, liquidity, remaining).amount_out > u128::MAX,
    ensures
        swap_step(current, target, liquidity, remaining).amount_in > 0,
{
    lemma_swap_step_bounds(current, target, liquidity, remaining);
    let step = swap_step(current, target, liquidity, remaining);
    let next = step.next;
    let d = distance(current, next);
    let top: nat = 0x1_0000_0000_0000_0000_0000_0000_0000_0000nat;
    let lq = liquidity * q96();
    let lqd = lq * d;
    let ld = liquidity * d;
    assert(lqd == ld * q96()) by (nonlinear_arith)
        requires
            lqd == (liquidity * q96()) * d,
            ld == liquidity * d,
    ;
    assert(liquidity * q96() * d == lqd);
    if current >= target {
        // token1 goes out: liquidity * d / 2^96 is at least 2^128
        assert(step.amount_out == ld / q96());
        assert(ld >= top * q96());
        assert(current * next <= top * q96() * q96()) by (nonlinear_arith)
            requires
                current <= max_sqrt_price(),
                next <= max_sqrt_price(),
                max_sqrt_price() * max_sqrt_price() <= top * q96() * q96(),
        ;
        assert(lqd >= current * next) by (nonlinear_arith)
            requires
                lqd == ld * q96(),
                ld >= top * q96(),
                current * next <= top * q96() * q96(),
                q96() > 0,
        ;
        lemma_div_is_ordered((current * next) as int, lqd as int, current as int);
        assert(current * next == current * next);
        lemma_div_multiples_vanish(next as int, current as int);
        assert((current * next) / current == next);
        lemma_div_is_ordered(next as int, (lqd / current) as int, next as int);
        assert(next / next == 1) by (nonlinear_arith)
            requires
                next > 0,
        ;
    } else {
        // token0 goes out: liquidity * 2^96 * d / current / next is at least 2^128
        let first = lqd / current;
        assert(step.amount_out == first / next);
        lemma_fundamental_div_mod(first as int, next as int);
        lemma_fundamental_div_mod(lqd as int, current as int);
        assert(first >= top * next) by (nonlinear_arith)
            requires
                first == next * (first / next) + first % next,
                first % next >= 0,
                first / next >= top,
                next > 0,
        ;
        assert(lqd >= top * next * current) by (nonlinear_arith)
            requires
                lqd == current * first + lqd % current,
                lqd % current >= 0,
                first >= top * next,
                current > 0,
        ;
        assert(top * next * current >= q96() * q96()) by (nonlinear_arith)
            requires
                next >= min_sqrt_price(),
                current >= min_sqrt_price(),
                top * min_sqrt_price() * min_sqrt_price() >= q96() * q96(),
        ;
        assert(ld >= q96()) by (nonlinear_arith)
            requires
                lqd == ld * q96(),
                lqd >= q96() * q96(),
                q96() > 0,
        ;
        lemma_div_is_ordered(q96() as int, ld as int, q96() as int);
    }
}

/// The active liquidity after the price has crossed a tick with net liquidity
/// `net`, where it neither falls below zero nor runs over.
pub fn liquidity_after_crossing(liquidity: u128, net: i128, zero_for_one: bool) -> (r: Result<
    u128,
    PoolError,
>)
    ensures
        match r {
            Ok(after) => after == crossed_liquidity(liquidity, net as int, zero_for_one),
            Err(e) => if crossed_liquidity(liquidity, net as int, zero_for_one) < 0 {
                e == PoolError::InsufficientLiquidity
            } else {
                e == PoolError::Overflow && crossed_liquidity(liquidity, net as int, zero_for_one)
                    > u128::MAX
            },
        },
{
    let size = magnitude_of(net);
    let adds = (net >= 0) != zero_for_one;
    if adds {
        match liquidity.checked_add(size) {
            Some(sum) => Ok(sum),
            None => Err(PoolError::Overflow),
        }
    } else {
        match liquidity.checked_sub(size) {
            Some(rest) => Ok(rest),
            None => Err(PoolError::InsufficientLiquidity),
        }
    }
}

/// What is left of `amount` after a fee of `fee` millionths.
pub fn after_fee(amount: u128, fee: u32) -> (r: u128)
    requires
        fee < FEE_UNITS,
    ensures
        r == net_of_fee(amount as nat, fee as nat),
        r <= amount,
{
    let kept = Wide::from_u128((FEE_UNITS - fee) as u128);
    let units = Wide::from_u128(FEE_UNITS as u128);
    let whole = Wide::from_u128(amount);
    proof {
        lemma_pow64_values();
        let a = amount as int;
        let k = (FEE_UNITS - fee) as int;
        assert(a * k <= a * 1_000_000) by (nonlinear_arith)
            requires
                0 <= a,
                0 <= k <= 1_000_000,
        ;
        lemma_div_is_ordered(a * k, a * 1_000_000, 1_000_000);
        lemma_div_multiples_vanish(a, 1_000_000);
        assert(a * 1_000_000 == 1_000_000 * a);
    }
    let (quotient, _) = whole.mul(&kept).div_rem(&units);
    quotient.to_u128().unwrap()
}

/// Swaps at most `amount_specified` of `token_in` for the pool's other asset
/// at a fee of `fee` millionths of the output. A swap that goes through
/// changes the pool and the trader as `swap_result` says; a rejected swap
/// changes nothing.
pub fn v3_swap(
    trader: &mut Trader,
    pool: &mut UniswapV3Pool,
    token_in: Token,
    amount_specified: u128,
    fee: u32,
) -> (r: Result<SwapReceipt, PoolError>)
    requires
        old(pool).wf(),
        fee < FEE_UNITS,
    ensures
        final(pool).wf(),
        match r {
            Ok(receipt) => swap_result(
                old(pool)@,
                *old(trader),
                token_in,
                amount_specified as nat,
                fee as nat,
            ) == Ok::<SwapEffect, PoolError>(
                SwapEffect {
                    pool: final(pool)@,
                    trader: *final(trader),
                    amount_in: receipt.amount_in,
                    amount_out: receipt.amount_out,
                },
            ),
            Err(e) => {
                &&& swap_result(
                    old(pool)@,
                    *old(trader),
                    token_in,
                    amount_specified as nat,
                    fee as nat,
                ) == Err::<SwapEffect, PoolError>(e)
                &&& final(pool)@ == old(pool)@
                &&& *final(trader) == *old(trader)
            },
        },
{
    let zero_for_one = token_in == pool.token_0();
    let token_out = if zero_for_one {
        pool.token_1()
    } else {
        pool.token_0()
    };
    let funds = if zero_for_one {
        pool.balance_1()
    } else {
        pool.balance_0()
    };
    let mut state = SwapState {
        amount_specified_remaining: amount_specified,
        amount_calculated: 0,
        sqrt_price_x96: pool.sqrt_price_x96(),
        tick: pool.tick(),
        liquidity: pool.liquidity(),
    };
    let ghost before = pool@;
    let ghost start = state@;
    let mut stopped = false;
    while !stopped && state.amount_specified_remaining > 0
        invariant
            pool@ == before,
            pool_wf(before),
            zero_for_one == (token_in == before.token_0),
            funds == reserve_out(before, zero_for_one),
            start == swap_start(before, amount_specified as nat),
            valid_price(start.sqrt_price_x96),
            progress_wf(before, zero_for_one, state@),
            state.amount_specified_remaining <= amount_specified,
            swap_walk(before, zero_for_one, state@) == swap_walk(before, zero_for_one, start),
            stopped ==> swap_walk(before, zero_for_one, state@) == Ok::<SwapProgress, PoolError>(
                state@,
            ),
        decreases
                state.amount_specified_remaining + (if stopped {
                    0int
                } else {
                    1int
                }),
    {
        let ghost now = state@;
        let ghost turn = swap_turn(before, zero_for_one, now);
        proof {
            lemma_turn_keeps_wf(before, zero_for_one, now);
            assert(swap_walk(before, zero_for_one, now) == (match turn {
                Turn::Done => Ok::<SwapProgress, PoolError>(now),
                Turn::Failed(e) => Err::<SwapProgress, PoolError>(e),
                Turn::Next(next) => swap_walk(before, zero_for_one, next),
            }));
        }
        let from = if zero_for_one {
            state.tick
        } else {
            let at_tick = tick_to_price(state.tick).unwrap();
            if at_tick.lt(&state.sqrt_price_x96) {
                state.tick + 1
            } else {
                state.tick
            }
        };
        assert(from == search_start(now, zero_for_one));
        let found = pool.ticks().next_initialized_tick(from, !zero_for_one);
        let next_tick = match found {
            Some(tick) => tick,
            None => {
                assert(turn == Turn::Failed(PoolError::InsufficientLiquidity));
                return Err(PoolError::InsufficientLiquidity);
            },
        };
        proof {
            lemma_next_tick_in_pool(before, from, !zero_for_one);
        }
        let boundary = tick_to_price(next_tick).unwrap();
        let step = match compute_swap_step(
            &state.sqrt_price_x96,
            &boundary,
            state.liquidity,
            state.amount_specified_remaining,
        ) {
            Some(step) => step,
            None => {
                proof {
                    lemma_unpayable_step_takes_input(
                        state.sqrt_price_x96@,
                        boundary@,
                        state.liquidity as nat,
                        state.amount_specified_remaining as nat,
                    );
                }
                assert(turn == Turn::Failed(PoolError::InsufficientBalance));
                return Err(PoolError::InsufficientBalance);
            },
        };
        if step.amount_in == 0 {
            assert(turn == Turn::Done);
            stopped = true;
        } else {
            let calculated = match state.amount_calculated.checked_add(step.amount_out) {
                Some(sum) => sum,
                None => {
                    assert(turn == Turn::Failed(PoolError::InsufficientBalance));
                    return Err(PoolError::InsufficientBalance);
                },
            };
            if calculated > funds {
                assert(turn == Turn::Failed(PoolError::InsufficientBalance));
                return Err(PoolError::InsufficientBalance);
            }
            let crossed = step.sqrt_price_next.equals(&boundary);
            let (tick, liquidity) = if crossed {
                let net = pool.ticks().cross(next_tick);
                match liquidity_after_crossing(state.liquidity, net, zero_for_one) {
                    Ok(after) => (next_tick, after),
                    Err(e) => {
                        assert(turn == Turn::Failed(e));
                        return Err(e);
                    },
                }
            } else {
                (price_to_tick(&step.sqrt_price_next).unwrap(), state.liquidity)
            };
            state =
            SwapState {
                amount_specified_remaining: state.amount_specified_remaining - step.amount_in,
                amount_calculated: calculated,
                sqrt_price_x96: step.sqrt_price_next,
                tick,
                liquidity,
            };
            assert(turn == Turn::Next(state@));
        }
    }
    assert(swap_walk(before, zero_for_one, state@) == Ok::<SwapProgress, PoolError>(state@));
    assert(swap_walk(before, zero_for_one, swap_start(before, amount_specified as nat)) == Ok::<
        SwapProgress,
        PoolError,
    >(state@));
    let taken = amount_specified - state.amount_specified_remaining;
    let paid = after_fee(state.amount_calculated, fee);
    let trader_in = trader_balance(trader, token_in);
    if taken > trader_in {
        return Err(PoolError::InsufficientBalance);
    }
    let trader_out = trader_balance(trader, token_out);
    let reserve = if zero_for_one {
        pool.balance_0()
    } else {
        pool.balance_1()
    };
    let (credited, into) = match (trader_out.checked_add(paid), reserve.checked_add(taken)) {
        (Some(a), Some(b)) => (a, b),
        _ => {
            return Err(PoolError::Overflow);
        },
    };
    set_trader_balance(trader, token_in, trader_in - taken);
    set_trader_balance(trader, token_out, credited);
    if zero_for_one {
        pool.commit_swap(state.sqrt_price_x96, state.tick, state.liquidity, into, funds - paid);
    } else {
        pool.commit_swap(state.sqrt_price_x96, state.tick, state.liquidity, funds - paid, into);
    }
    Ok(SwapReceipt { amount_in: taken, amount_out: paid })
}

} // verus!
