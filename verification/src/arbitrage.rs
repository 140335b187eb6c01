//! The round trip between two pools, and the search for the input that makes
//! the most of it.
//!
//! Both work on copies of the pools and on a trader of their own: the pools
//! that they are given never change.

use crate::pool::{balance_of, pool_wf, trader_balance, PoolView, Token, Trader, UniswapV3Pool};
use crate::swap::{lemma_walk_keeps_wf, swap_result, swap_start, v3_swap};
use vstd::prelude::*;

verus! {

/// The fee of the swaps of a round trip, in millionths: 3 %.
pub const ROUND_TRIP_FEE: u32 = 30_000;

/// The balance of each asset that the trader of a round trip starts with: 2^127.
pub const ROUND_TRIP_FUNDS: u128 = 0x8000_0000_0000_0000_0000_0000_0000_0000;

/// The first amount that the search tries.
pub const SEARCH_FLOOR: u128 = 1;

/// The trader that a round trip starts with.
pub open spec fn round_trip_trader() -> Trader {
    Trader { id: 1, amt_eth: ROUND_TRIP_FUNDS, amt_dai: ROUND_TRIP_FUNDS }
}

/// The asset that is not `token`.
pub open spec fn counter_token(token: Token) -> Token {
    match token {
        Token::Eth => Token::Dai,
        Token::Dai => Token::Eth,
    }
}

/// The trader after one leg of a round trip: a swap that is rejected leaves
/// the trader as it was.
pub open spec fn after_leg(pool: PoolView, trader: Trader, token_in: Token, amount: nat) -> Trader {
    match swap_result(pool, trader, token_in, amount, ROUND_TRIP_FEE as nat) {
        Ok(effect) => effect.trader,
        Err(_) => trader,
    }
}

/// What the trader of a round trip has of `token` after the first leg, beyond
/// what it started with.
pub open spec fn first_leg_gain(x_in: nat, pool1: PoolView, token_in: Token) -> int {
    balance_of(after_leg(pool1, round_trip_trader(), token_in, x_in), counter_token(token_in))
        - ROUND_TRIP_FUNDS
}

/// The gain of a round trip in the input asset: `x_in` of `token_in` is
/// swapped on the first pool, all of what that gave is swapped back on the
/// second pool, and the gain is what the trader then has of `token_in` beyond
/// what it started with. It is negative where the trip loses.
pub open spec fn round_trip_profit(x_in: nat, pool1: PoolView, pool2: PoolView, token_in: Token) -> int {
    let midway = after_leg(pool1, round_trip_trader(), token_in, x_in);
    let change = first_leg_gain(x_in, pool1, token_in);
    let home = after_leg(pool2, midway, counter_token(token_in), change as nat);
    balance_of(home, token_in) - ROUND_TRIP_FUNDS
}

/// The `k`-th amount that the search tries.
pub open spec fn grid_amount(k: nat, step: nat) -> nat {
    SEARCH_FLOOR as nat + k * step
}

/// A swap never takes away from what the trader has of the output asset.
pub proof fn lemma_leg_never_loses_output(pool: PoolView, trader: Trader, token_in: Token, amount: nat)
    requires
        pool_wf(pool),
    ensures
        balance_of(after_leg(pool, trader, token_in, amount), counter_token(token_in))
            >= balance_of(trader, counter_token(token_in)),
        balance_of(after_leg(pool, trader, token_in, amount), token_in) <= balance_of(
            trader,
            token_in,
        ),
{
    let zero_for_one = token_in == pool.token_0;
    let start = swap_start(pool, amount);
    lemma_walk_keeps_wf(pool, zero_for_one, start);
}

/// The asset that is not `token`.
pub fn counter_token_of(token: Token) -> (r: Token)
    ensures
        r == counter_token(token),
{
    match token {
        Token::Eth => Token::Dai,
        Token::Dai => Token::Eth,
    }
}

/// The gain in `token_in` of a round trip that starts with `x_in` on `pool1`
/// and comes back on `pool2`.
pub fn calc_two_pool_arb_profit(
    x_in: u128,
    pool1: &UniswapV3Pool,
    pool2: &UniswapV3Pool,
    token_in: Token,
) -> (r: i128)
    requires
        pool1.wf(),
        pool2.wf(),
    ensures
        r == round_trip_profit(x_in as nat, pool1@, pool2@, token_in),
{
    let mut pool1_copy = pool1.snapshot();
    let mut pool2_copy = pool2.snapshot();
    let mut example_trader = Trader { id: 1, amt_eth: ROUND_TRIP_FUNDS, amt_dai: ROUND_TRIP_FUNDS };
    let token_out = counter_token_of(token_in);
    proof {
        lemma_leg_never_loses_output(pool1@, example_trader, token_in, x_in as nat);
    }
    let _ = v3_swap(&mut example_trader, &mut pool1_copy, token_in, x_in, ROUND_TRIP_FEE);
    let change = trader_balance(&example_trader, token_out) - ROUND_TRIP_FUNDS;
    let _ = v3_swap(&mut example_trader, &mut pool2_copy, token_out, change, ROUND_TRIP_FEE);
    let home = trader_balance(&example_trader, token_in);
    if home >= ROUND_TRIP_FUNDS {
        (home - ROUND_TRIP_FUNDS) as i128
    } else if home == 0 {
        i128::MIN
    } else {
        -((ROUND_TRIP_FUNDS - home) as i128)
    }
}

/// The amount with the highest gain among those that the search tries, and
/// that gain. The search tries `SEARCH_FLOOR` and every amount that lies a
/// multiple of `step` above it and not above `max_amt_in`. Where none of them
/// gains, the result is `(0, 0)`. Among amounts with the same gain the lowest
/// wins.
pub fn find_optimal_arb(
    pool1: &UniswapV3Pool,
    pool2: &UniswapV3Pool,
    token_in: Token,
    max_amt_in: u128,
    step: u128,
) -> (r: (u128, i128))
    requires
        pool1.wf(),
        pool2.wf(),
    ensures
        r.0 <= max_amt_in,
        r.0 == 0 ==> r.1 == 0,
        r.0 > 0 ==> r.1 > 0 && r.1 == round_trip_profit(r.0 as nat, pool1@, pool2@, token_in)
            && exists|k: nat| r.0 == grid_amount(k, step as nat),
        forall|k: nat| #[trigger]
            grid_amount(k, step as nat) <= max_amt_in ==> best_against(
                grid_amount(k, step as nat),
                r.0,
                r.1,
                pool1@,
                pool2@,
                token_in,
            ),
        (forall|k: nat| #[trigger]
            grid_amount(k, step as nat) <= max_amt_in ==> round_trip_profit(
                grid_amount(k, step as nat),
                pool1@,
                pool2@,
                token_in,
            ) <= 0) ==> r == (0u128, 0i128),
{
    let mut amt: u128 = SEARCH_FLOOR;
    let mut max_out: i128 = 0;
    let mut opt_amt: u128 = 0;
    let mut done = false;
    let ghost mut tried: nat = 0;
    let ghost gap = step as nat;
    proof {
        assert(0 * gap == 0) by (nonlinear_arith);
    }
    while !done && amt <= max_amt_in
        invariant
            pool1.wf(),
            pool2.wf(),
            gap == step as nat,
            opt_amt <= max_amt_in,
            max_out >= 0,
            opt_amt == 0 ==> max_out == 0,
            opt_amt > 0 ==> max_out > 0 && max_out == round_trip_profit(
                opt_amt as nat,
                pool1@,
                pool2@,
                token_in,
            ) && exists|j: nat| j < tried && opt_amt == grid_amount(j, gap),
            !done ==> amt == grid_amount(tried, gap),
            done ==> forall|k: nat|
                k >= tried && #[trigger] grid_amount(k, gap) <= max_amt_in ==> tried > 0
                    && grid_amount(k, gap) == grid_amount(0, gap),
            forall|k: nat|
                k < tried ==> best_against(
                    #[trigger] grid_amount(k, gap),
                    opt_amt,
                    max_out,
                    pool1@,
                    pool2@,
                    token_in,
                ) && grid_amount(k, gap) <= max_amt_in,
        decreases
                (if done || amt > max_amt_in {
                    0int
                } else {
                    max_amt_in - amt + 1
                }),
    {
        let amt_out = calc_two_pool_arb_profit(amt, pool1, pool2, token_in);
        let ghost old_opt = opt_amt;
        let ghost old_out = max_out;
        if amt_out > max_out {
            max_out = amt_out;
            opt_amt = amt;
        }
        proof {
            lemma_grid_grows(tried, gap);
            if old_opt > 0 {
                let j = choose|j: nat| j < tried && old_opt == grid_amount(j, gap);
                lemma_grid_ordered(j, tried, gap);
            }
            assert forall|k: nat| k < tried + 1 implies best_against(
                #[trigger] grid_amount(k, gap),
                opt_amt,
                max_out,
                pool1@,
                pool2@,
                token_in,
            ) && grid_amount(k, gap) <= max_amt_in by {
                if k < tried {
                    assert(best_against(
                        grid_amount(k, gap),
                        old_opt,
                        old_out,
                        pool1@,
                        pool2@,
                        token_in,
                    ));
                }
            }
            if opt_amt > 0 {
                if amt_out > old_out {
                    assert(opt_amt == grid_amount(tried, gap));
                } else {
                    let j = choose|j: nat| j < tried && old_opt == grid_amount(j, gap);
                    assert(j < tried + 1 && opt_amt == grid_amount(j, gap));
                }
            }
            tried = tried + 1;
        }
        if step == 0 {
            done = true;
            proof {
                assert forall|k: nat| #[trigger] grid_amount(k, gap) == grid_amount(0, gap) by {
                    assert(k * 0 == 0) by (nonlinear_arith);
                    assert(0 * 0 == 0) by (nonlinear_arith);
                }
            }
        } else {
            match amt.checked_add(step) {
                Some(next) => {
                    amt = next;
                },
                None => {
                    done = true;
                    proof {
                        assert forall|k: nat|
                            k >= tried && #[trigger] grid_amount(k, gap)
                                <= max_amt_in implies false by {
                            lemma_grid_ordered(tried, k, gap);
                        }
                    }
                },
            }
        }
    }
    proof {
        assert forall|k: nat| #[trigger] grid_amount(k, gap) <= max_amt_in implies best_against(
            grid_amount(k, gap),
            opt_amt,
            max_out,
            pool1@,
            pool2@,
            token_in,
        ) by {
            if k >= tried {
                if !done {
                    lemma_grid_ordered(tried, k, gap);
                }
                assert(tried > 0 && grid_amount(k, gap) == grid_amount(0, gap));
            }
        }
        if opt_amt > 0 {
            let j = choose|j: nat| j < tried && opt_amt == grid_amount(j, gap);
            assert(opt_amt == grid_amount(j, gap));
        }
    }
    (opt_amt, max_out)
}

/// Whether the gain of `amount` is not above `best`, and `amount` is not
/// below `winner` where it gains just as much.
pub open spec fn best_against(
    amount: nat,
    winner: u128,
    best: i128,
    pool1: PoolView,
    pool2: PoolView,
    token_in: Token,
) -> bool {
    &&& round_trip_profit(amount, pool1, pool2, token_in) <= best
    &&& round_trip_profit(amount, pool1, pool2, token_in) == best && winner > 0 ==> winner
        <= amount
}

/// The next amount of the search lies `step` above the one before it.
proof fn lemma_grid_grows(k: nat, step: nat)
    ensures
        grid_amount(k + 1, step) == grid_amount(k, step) + step,
{
    assert((k + 1) * step == k * step + step) by (nonlinear_arith);
}

/// The amounts of the search never fall.
proof fn lemma_grid_ordered(low: nat, high: nat, step: nat)
    requires
        low <= high,
    ensures
        grid_amount(low, step) <= grid_amount(high, step),
{
    assert(low * step <= high * step) by (nonlinear_arith)
        requires
            low <= high,
    ;
}

} // verus!
