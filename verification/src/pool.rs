//! The pool: its reserves, its price, its ticks and its positions, and the
//! minting and burning of liquidity.

use crate::math::{amount0, amount1, calc_amount0, calc_amount1, MAX_TICK, MIN_TICK};
use crate::tick_math::{
    is_tick_of, price_to_tick, sqrt_price_at_tick, tick_to_price, valid_price, valid_tick,
};
use crate::ticks::{
    flips, lemma_with_delta_commutes, lemma_with_delta_undone, net_of, registry_wf, tick_of,
    with_delta, Tick, TickRegistry,
};
use crate::wide::Wide;
use std::collections::HashMap;
use vstd::prelude::*;
use vstd::std_specs::hash::*;

verus! {

broadcast use vstd::std_specs::hash::group_hash_axioms;

/// One of the two assets of a pool.
#[derive(Clone, Copy, Debug, PartialEq, Eq, Structural)]
pub enum Token {
    Eth,
    Dai,
}

/// Why an operation was rejected. A rejected operation changes nothing.
#[derive(Clone, Copy, Debug, PartialEq, Eq, Structural)]
pub enum PoolError {
    /// The tick bounds are malformed, or the two assets of a pool are the same.
    InvalidRange,
    /// An owner, a trader or the pool cannot fund what it has to pay.
    InsufficientBalance,
    /// A swap finds no initialized tick ahead, or liquidity would fall below zero.
    InsufficientLiquidity,
    /// A price or tick lies outside the bounds, or they do not match.
    PriceOutOfBounds,
    /// A balance, a liquidity or a net liquidity would not fit its integer.
    Overflow,
}

/// A counterparty of the pools with its balances of the two assets.
#[derive(Clone, Copy, Debug, PartialEq, Eq, Structural)]
pub struct Trader {
    /// The identity that positions are kept under.
    pub id: i32,
    /// The balance of `Token::Eth`.
    pub amt_eth: u128,
    /// The balance of `Token::Dai`.
    pub amt_dai: u128,
}

/// The liquidity that one owner has supplied, with the range of the owner's
/// last change.
#[derive(Clone, Copy, Debug, PartialEq, Eq, Structural)]
pub struct Position {
    /// The identity of the owner.
    pub owner: i32,
    /// The lower bound of the range that the owner changed last.
    pub lower_tick: i32,
    /// The upper bound of the range that the owner changed last.
    pub upper_tick: i32,
    /// The liquidity that the owner has supplied and not taken back.
    pub liquidity: u128,
}

/// What a pool holds.
pub struct PoolView {
    /// The asset that the price is quoted for.
    pub token_0: Token,
    /// The asset that the price is quoted in.
    pub token_1: Token,
    /// The lowest tick that a position can reach to.
    pub min_tick: i32,
    /// The highest tick that a position can reach to.
    pub max_tick: i32,
    /// The reserve of token0.
    pub balance_0: u128,
    /// The reserve of token1.
    pub balance_1: u128,
    /// The initialized ticks with their records.
    pub ticks: Map<i32, Tick>,
    /// The positions by the identity of their owner.
    pub positions: Map<i32, Position>,
    /// The sqrt price in Q96.
    pub sqrt_price_x96: nat,
    /// The tick that the price falls into.
    pub tick: i32,
    /// The liquidity that is active at the price.
    pub liquidity: u128,
}

/// A pool of two assets with liquidity between ticks.
pub struct UniswapV3Pool {
    token_0: Token,
    token_1: Token,
    min_tick: i32,
    max_tick: i32,
    balance_0: u128,
    balance_1: u128,
    tick_mapping: TickRegistry,
    position_mapping: HashMap<i32, Position>,
    sqrt_price_x96: Wide,
    tick: i32,
    liquidity: u128,
}

impl View for UniswapV3Pool {
    type V = PoolView;

    closed spec fn view(&self) -> PoolView {
        PoolView {
            token_0: self.token_0,
            token_1: self.token_1,
            min_tick: self.min_tick,
            max_tick: self.max_tick,
            balance_0: self.balance_0,
            balance_1: self.balance_1,
            ticks: self.tick_mapping@,
            positions: self.position_mapping@,
            sqrt_price_x96: self.sqrt_price_x96@,
            tick: self.tick,
            liquidity: self.liquidity,
        }
    }
}

/// The balance that `trader` has of `token`.
pub open spec fn balance_of(trader: Trader, token: Token) -> u128 {
    match token {
        Token::Eth => trader.amt_eth,
        Token::Dai => trader.amt_dai,
    }
}

/// `trader` with `amount` as the balance of `token`.
pub open spec fn with_balance(trader: Trader, token: Token, amount: u128) -> Trader {
    match token {
        Token::Eth => Trader { amt_eth: amount, ..trader },
        Token::Dai => Trader { amt_dai: amount, ..trader },
    }
}

/// Whether the bounds of a pool are well formed.
pub open spec fn valid_bounds(min_tick: i32, max_tick: i32) -> bool {
    MIN_TICK <= min_tick < max_tick <= MAX_TICK
}

/// Whether `lower..upper` is a range that a position of the pool can have.
pub open spec fn valid_range(pool: PoolView, lower: i32, upper: i32) -> bool {
    pool.min_tick <= lower < upper <= pool.max_tick
}

/// What holds of every pool: two assets, well-formed bounds, a tick within
/// them that the price falls into, and ticks with net liquidity within them.
pub open spec fn pool_wf(pool: PoolView) -> bool {
    &&& pool.token_0 != pool.token_1
    &&& valid_bounds(pool.min_tick, pool.max_tick)
    &&& pool.min_tick <= pool.tick <= pool.max_tick
    &&& valid_price(pool.sqrt_price_x96)
    &&& is_tick_of(pool.tick as int, pool.sqrt_price_x96)
    &&& registry_wf(pool.ticks)
    &&& forall|t: i32| #[trigger] pool.ticks.contains_key(t) ==> pool.min_tick <= t <= pool.max_tick
}

/// The liquidity that `owner` has supplied.
pub open spec fn held_by(positions: Map<i32, Position>, owner: i32) -> u128 {
    if positions.contains_key(owner) {
        positions[owner].liquidity
    } else {
        0
    }
}

/// The size of a change of liquidity.
pub open spec fn magnitude(delta: int) -> nat {
    if delta >= 0 {
        delta as nat
    } else {
        (-delta) as nat
    }
}

/// The amounts of token0 and token1 that `liquidity` between `lower` and
/// `upper` stands for at the pool's price: token0 alone where the pool's tick
/// is below the range, token1 alone where it is at or above the upper bound,
/// and both, split at the pool's price, where it is inside.
pub open spec fn position_amounts(pool: PoolView, lower: i32, upper: i32, liquidity: nat) -> (
    nat,
    nat,
) {
    let at_lower = sqrt_price_at_tick(lower as int);
    let at_upper = sqrt_price_at_tick(upper as int);
    if pool.tick < lower {
        (amount0(liquidity, at_lower, at_upper), 0)
    } else if pool.tick < upper {
        (
            amount0(liquidity, pool.sqrt_price_x96, at_upper),
            amount1(liquidity, at_lower, pool.sqrt_price_x96),
        )
    } else {
        (0, amount1(liquidity, at_lower, at_upper))
    }
}

/// Whether the pool's tick lies inside `lower..upper`.
pub open spec fn in_range(pool: PoolView, lower: i32, upper: i32) -> bool {
    lower <= pool.tick < upper
}

/// Why `update_position` rejects a change, if it does.
pub open spec fn update_position_error(
    pool: PoolView,
    owner: i32,
    lower: i32,
    upper: i32,
    delta: int,
) -> Option<PoolError> {
    if !valid_range(pool, lower, upper) {
        Some(PoolError::InvalidRange)
    } else if !(i128::MIN <= net_of(pool.ticks, lower) + delta <= i128::MAX) || !(i128::MIN
        <= net_of(pool.ticks, upper) + delta <= i128::MAX) {
        Some(PoolError::Overflow)
    } else if held_by(pool.positions, owner) + delta < 0 {
        Some(PoolError::InsufficientLiquidity)
    } else if held_by(pool.positions, owner) + delta > u128::MAX {
        Some(PoolError::Overflow)
    } else {
        None
    }
}

/// The pool after `delta` has been added to both bounds of the range and to
/// the owner's position.
pub open spec fn with_position_updated(
    pool: PoolView,
    owner: i32,
    lower: i32,
    upper: i32,
    delta: int,
) -> PoolView {
    PoolView {
        ticks: with_delta(with_delta(pool.ticks, lower, delta), upper, delta),
        positions: pool.positions.insert(
            owner,
            Position {
                owner,
                lower_tick: lower,
                upper_tick: upper,
                liquidity: (held_by(pool.positions, owner) + delta) as u128,
            },
        ),
        ..pool
    }
}

/// Why `modify_position` rejects a change, if it does.
pub open spec fn modify_position_error(
    pool: PoolView,
    owner: i32,
    lower: i32,
    upper: i32,
    delta: int,
) -> Option<PoolError> {
    let amounts = position_amounts(pool, lower, upper, magnitude(delta));
    if !valid_range(pool, lower, upper) {
        Some(PoolError::InvalidRange)
    } else if delta == 0 {
        None
    } else if amounts.0 > u128::MAX || amounts.1 > u128::MAX {
        Some(PoolError::InsufficientBalance)
    } else if in_range(pool, lower, upper) && pool.liquidity + delta < 0 {
        Some(PoolError::InsufficientLiquidity)
    } else if in_range(pool, lower, upper) && pool.liquidity + delta > u128::MAX {
        Some(PoolError::Overflow)
    } else {
        update_position_error(pool, owner, lower, upper, delta)
    }
}

/// The pool after a change of `delta` to the position of `owner`: the bounds
/// and the position take the change, and the active liquidity takes it where
/// the pool's tick lies inside the range. No change leaves the pool as it is.
pub open spec fn with_position_modified(
    pool: PoolView,
    owner: i32,
    lower: i32,
    upper: i32,
    delta: int,
) -> PoolView {
    if delta == 0 {
        pool
    } else {
        let updated = with_position_updated(pool, owner, lower, upper, delta);
        PoolView {
            liquidity: if in_range(pool, lower, upper) {
                (pool.liquidity + delta) as u128
            } else {
                pool.liquidity
            },
            ..updated
        }
    }
}

/// Why `mint` rejects a change, if it does. A positive change is paid by the
/// owner into the reserves, a negative one by the reserves to the owner.
pub open spec fn mint_error(pool: PoolView, owner: Trader, lower: i32, upper: i32, delta: int) -> Option<
    PoolError,
> {
    let amounts = position_amounts(pool, lower, upper, magnitude(delta));
    if !valid_range(pool, lower, upper) {
        Some(PoolError::InvalidRange)
    } else if delta == 0 {
        None
    } else if amounts.0 > u128::MAX || amounts.1 > u128::MAX {
        Some(PoolError::InsufficientBalance)
    } else if delta > 0 && (amounts.0 > balance_of(owner, pool.token_0) || amounts.1 > balance_of(
        owner,
        pool.token_1,
    )) {
        Some(PoolError::InsufficientBalance)
    } else if delta > 0 && (pool.balance_0 + amounts.0 > u128::MAX || pool.balance_1 + amounts.1
        > u128::MAX) {
        Some(PoolError::Overflow)
    } else if delta < 0 && (amounts.0 > pool.balance_0 || amounts.1 > pool.balance_1) {
        Some(PoolError::InsufficientBalance)
    } else if delta < 0 && (balance_of(owner, pool.token_0) + amounts.0 > u128::MAX || balance_of(
        owner,
        pool.token_1,
    ) + amounts.1 > u128::MAX) {
        Some(PoolError::Overflow)
    } else {
        modify_position_error(pool, owner.id, lower, upper, delta)
    }
}

/// The amount that a balance holds after `amount` was paid in (`pay_in`) or out.
pub open spec fn settled(balance: u128, amount: nat, pay_in: bool) -> u128 {
    if pay_in {
        (balance + amount) as u128
    } else {
        (balance - amount) as u128
    }
}

/// The pool after `mint` has taken a change of `delta`.
pub open spec fn pool_after_mint(pool: PoolView, owner: i32, lower: i32, upper: i32, delta: int) -> PoolView {
    let amounts = position_amounts(pool, lower, upper, magnitude(delta));
    let modified = with_position_modified(pool, owner, lower, upper, delta);
    if delta == 0 {
        pool
    } else {
        PoolView {
            balance_0: settled(pool.balance_0, amounts.0, delta > 0),
            balance_1: settled(pool.balance_1, amounts.1, delta > 0),
            ..modified
        }
    }
}

/// The owner after `mint` has taken a change of `delta`.
pub open spec fn owner_after_mint(pool: PoolView, owner: Trader, lower: i32, upper: i32, delta: int) -> Trader {
    let amounts = position_amounts(pool, lower, upper, magnitude(delta));
    if delta == 0 {
        owner
    } else {
        let first = with_balance(
            owner,
            pool.token_0,
            settled(balance_of(owner, pool.token_0), amounts.0, delta < 0),
        );
        with_balance(
            first,
            pool.token_1,
            settled(balance_of(first, pool.token_1), amounts.1, delta < 0),
        )
    }
}

/// Minting and then burning the same liquidity over the same range leaves the
/// pool as it was before the mint: the active liquidity, the records of both
/// bounds and of every other tick, the reserves, the price and the tick are
/// those from before, and so are the owner's balances and the liquidity of the
/// owner's position. The burn is never rejected. The same holds of a burn that
/// is followed by a mint.
pub proof fn lemma_mint_then_burn_restores(
    pool: PoolView,
    owner: Trader,
    lower: i32,
    upper: i32,
    delta: int,
)
    requires
        pool_wf(pool),
        i128::MIN < delta <= i128::MAX,
        mint_error(pool, owner, lower, upper, delta) is None,
    ensures
        ({
            let minted = pool_after_mint(pool, owner.id, lower, upper, delta);
            let paid = owner_after_mint(pool, owner, lower, upper, delta);
            let burned = pool_after_mint(minted, owner.id, lower, upper, -delta);
            &&& mint_error(minted, paid, lower, upper, -delta) is None
            &&& burned.liquidity == pool.liquidity
            &&& burned.ticks == pool.ticks
            &&& tick_of(burned.ticks, lower) == tick_of(pool.ticks, lower)
            &&& tick_of(burned.ticks, upper) == tick_of(pool.ticks, upper)
            &&& burned.balance_0 == pool.balance_0
            &&& burned.balance_1 == pool.balance_1
            &&& burned.sqrt_price_x96 == pool.sqrt_price_x96
            &&& burned.tick == pool.tick
            &&& held_by(burned.positions, owner.id) == held_by(pool.positions, owner.id)
            &&& owner_after_mint(minted, paid, lower, upper, -delta) == owner
        }),
{
    if delta != 0 {
        let minted = pool_after_mint(pool, owner.id, lower, upper, delta);
        let paid = owner_after_mint(pool, owner, lower, upper, delta);
        let once = with_delta(pool.ticks, lower, delta);
        let twice = with_delta(once, upper, delta);
        assert(minted.ticks == twice);
        assert(magnitude(-delta) == magnitude(delta));
        assert(position_amounts(minted, lower, upper, magnitude(-delta)) == position_amounts(
            pool,
            lower,
            upper,
            magnitude(delta),
        ));
        // the two bounds are different ticks: the changes can be reordered
        lemma_with_delta_commutes(once, upper, delta, lower, -delta);
        lemma_with_delta_undone(pool.ticks, lower, delta);
        lemma_with_delta_undone(pool.ticks, upper, delta);
        assert(with_delta(with_delta(twice, lower, -delta), upper, -delta) == pool.ticks);
        assert(net_of(twice, lower) == net_of(pool.ticks, lower) + delta);
        assert(net_of(twice, upper) == net_of(pool.ticks, upper) + delta);
    }
}

/// A mint or burn that goes through leaves a well-formed pool at the same
/// price and tick, and moves the two assets between the owner and the
/// reserves only: what the owner and the pool hold together stays the same.
pub proof fn lemma_mint_moves_assets(
    pool: PoolView,
    owner: Trader,
    lower: i32,
    upper: i32,
    delta: int,
)
    requires
        pool_wf(pool),
        i128::MIN <= delta <= i128::MAX,
        mint_error(pool, owner, lower, upper, delta) is None,
    ensures
        ({
            let minted = pool_after_mint(pool, owner.id, lower, upper, delta);
            let paid = owner_after_mint(pool, owner, lower, upper, delta);
            &&& pool_wf(minted)
            &&& minted.sqrt_price_x96 == pool.sqrt_price_x96
            &&& minted.tick == pool.tick
            &&& minted.balance_0 + balance_of(paid, pool.token_0) == pool.balance_0 + balance_of(
                owner,
                pool.token_0,
            )
            &&& minted.balance_1 + balance_of(paid, pool.token_1) == pool.balance_1 + balance_of(
                owner,
                pool.token_1,
            )
            &&& paid.id == owner.id
        }),
{
    if delta != 0 {
        let once = with_delta(pool.ticks, lower, delta);
        lemma_with_delta_undone(pool.ticks, lower, delta);
        assert(net_of(once, upper) == net_of(pool.ticks, upper));
        lemma_with_delta_undone(once, upper, delta);
        let twice = with_delta(once, upper, delta);
        assert forall|t: i32| #[trigger] twice.contains_key(t) implies pool.min_tick <= t
            <= pool.max_tick by {
            if t != lower && t != upper {
                assert(pool.ticks.contains_key(t));
            }
        }
    }
}

/// The balance that `trader` has of `token`.
pub fn trader_balance(trader: &Trader, token: Token) -> (r: u128)
    ensures
        r == balance_of(*trader, token),
{
    match token {
        Token::Eth => trader.amt_eth,
        Token::Dai => trader.amt_dai,
    }
}

/// Sets the balance that `trader` has of `token`.
pub fn set_trader_balance(trader: &mut Trader, token: Token, amount: u128)
    ensures
        *final(trader) == with_balance(*old(trader), token, amount),
{
    match token {
        Token::Eth => {
            trader.amt_eth = amount;
        },
        Token::Dai => {
            trader.amt_dai = amount;
        },
    }
}

/// The size of `delta`.
pub fn magnitude_of(delta: i128) -> (r: u128)
    ensures
        r == magnitude(delta as int),
{
    if delta >= 0 {
        delta as u128
    } else {
        (-(delta + 1)) as u128 + 1
    }
}

impl UniswapV3Pool {
    /// Whether the pool is well formed.
    pub open spec fn wf(&self) -> bool {
        pool_wf(self@)
    }

    /// A pool without liquidity at `sqrt_price_x96`. The two assets must
    /// differ and the bounds must be well formed, and `tick` must lie within
    /// the bounds and be the tick that the price falls into.
    pub fn new(
        token_0: Token,
        token_1: Token,
        min_tick: i32,
        max_tick: i32,
        sqrt_price_x96: Wide,
        tick: i32,
    ) -> (r: Result<UniswapV3Pool, PoolError>)
        ensures
            match r {
                Ok(pool) => {
                    &&& pool.wf()
                    &&& pool@ == PoolView {
                        token_0,
                        token_1,
                        min_tick,
                        max_tick,
                        balance_0: 0,
                        balance_1: 0,
                        ticks: Map::<i32, Tick>::empty(),
                        positions: Map::<i32, Position>::empty(),
                        sqrt_price_x96: sqrt_price_x96@,
                        tick,
                        liquidity: 0,
                    }
                },
                Err(e) => if token_0 == token_1 || !valid_bounds(min_tick, max_tick) {
                    e == PoolError::InvalidRange
                } else {
                    &&& e == PoolError::PriceOutOfBounds
                    &&& !(min_tick <= tick <= max_tick && valid_price(sqrt_price_x96@)
                        && is_tick_of(tick as int, sqrt_price_x96@))
                },
            },
    {
        if token_0 == token_1 || min_tick < MIN_TICK || min_tick >= max_tick || max_tick
            > MAX_TICK {
            return Err(PoolError::InvalidRange);
        }
        if tick < min_tick || tick > max_tick {
            return Err(PoolError::PriceOutOfBounds);
        }
        match price_to_tick(&sqrt_price_x96) {
            Some(found) => {
                if found != tick {
                    proof {
                        if is_tick_of(tick as int, sqrt_price_x96@) {
                            crate::tick_math::lemma_tick_of_unique(
                                tick as int,
                                found as int,
                                sqrt_price_x96@,
                            );
                        }
                    }
                    return Err(PoolError::PriceOutOfBounds);
                }
            },
            None => {
                return Err(PoolError::PriceOutOfBounds);
            },
        }
        Ok(
            UniswapV3Pool {
                token_0,
                token_1,
                min_tick,
                max_tick,
                balance_0: 0,
                balance_1: 0,
                tick_mapping: TickRegistry::new(),
                position_mapping: HashMap::new(),
                sqrt_price_x96,
                tick,
                liquidity: 0,
            },
        )
    }

    /// A copy of the pool that shares nothing with it.
    pub fn snapshot(&self) -> (r: UniswapV3Pool)
        ensures
            r@ == self@,
    {
        UniswapV3Pool {
            token_0: self.token_0,
            token_1: self.token_1,
            min_tick: self.min_tick,
            max_tick: self.max_tick,
            balance_0: self.balance_0,
            balance_1: self.balance_1,
            tick_mapping: self.tick_mapping.snapshot(),
            position_mapping: self.position_mapping.clone(),
            sqrt_price_x96: self.sqrt_price_x96,
            tick: self.tick,
            liquidity: self.liquidity,
        }
    }

    /// The asset that the price is quoted for.
    pub fn token_0(&self) -> (r: Token)
        ensures
            r == self@.token_0,
    {
        self.token_0
    }

    /// The asset that the price is quoted in.
    pub fn token_1(&self) -> (r: Token)
        ensures
            r == self@.token_1,
    {
        self.token_1
    }

    /// The lowest tick that a position of this pool can reach to.
    pub fn min_tick(&self) -> (r: i32)
        ensures
            r == self@.min_tick,
    {
        self.min_tick
    }

    /// The highest tick that a position of this pool can reach to.
    pub fn max_tick(&self) -> (r: i32)
        ensures
            r == self@.max_tick,
    {
        self.max_tick
    }

    /// The reserve of token0.
    pub fn balance_0(&self) -> (r: u128)
        ensures
            r == self@.balance_0,
    {
        self.balance_0
    }

    /// The reserve of token1.
    pub fn balance_1(&self) -> (r: u128)
        ensures
            r == self@.balance_1,
    {
        self.balance_1
    }

    /// The sqrt price in Q96.
    pub fn sqrt_price_x96(&self) -> (r: Wide)
        ensures
            r@ == self@.sqrt_price_x96,
    {
        self.sqrt_price_x96
    }

    /// The tick that the price falls into.
    pub fn tick(&self) -> (r: i32)
        ensures
            r == self@.tick,
    {
        self.tick
    }

    /// The liquidity that is active at the price.
    pub fn liquidity(&self) -> (r: u128)
        ensures
            r == self@.liquidity,
    {
        self.liquidity
    }

    /// The record of `tick`: no net liquidity and not initialized where no
    /// position rests on it.
    pub fn tick_info(&self, tick: i32) -> (r: Tick)
        ensures
            r == tick_of(self@.ticks, tick),
    {
        self.tick_mapping.get(tick)
    }

    /// The position of `owner`, if the owner ever changed one.
    pub fn position(&self, owner: i32) -> (r: Option<Position>)
        ensures
            r == (if self@.positions.contains_key(owner) {
                Some(self@.positions[owner])
            } else {
                None
            }),
    {
        match self.position_mapping.get(&owner) {
            Some(found) => Some(*found),
            None => None,
        }
    }

    /// The liquidity that `owner` has supplied.
    pub fn liquidity_of(&self, owner: i32) -> (r: u128)
        ensures
            r == held_by(self@.positions, owner),
    {
        match self.position_mapping.get(&owner) {
            Some(found) => found.liquidity,
            None => 0,
        }
    }

    /// The initialized ticks of the pool.
    pub fn ticks(&self) -> (r: &TickRegistry)
        ensures
            r@ == self@.ticks,
    {
        &self.tick_mapping
    }

    /// Takes the price, tick and liquidity that a swap has reached, and the
    /// reserves after its settlement.
    pub(crate) fn commit_swap(
        &mut self,
        sqrt_price_x96: Wide,
        tick: i32,
        liquidity: u128,
        balance_0: u128,
        balance_1: u128,
    )
        requires
            old(self).wf(),
            valid_price(sqrt_price_x96@),
            is_tick_of(tick as int, sqrt_price_x96@),
            old(self)@.min_tick <= tick <= old(self)@.max_tick,
        ensures
            final(self).wf(),
            final(self)@ == (PoolView {
                sqrt_price_x96: sqrt_price_x96@,
                tick,
                liquidity,
                balance_0,
                balance_1,
                ..old(self)@
            }),
    {
        self.sqrt_price_x96 = sqrt_price_x96;
        self.tick = tick;
        self.liquidity = liquidity;
        self.balance_0 = balance_0;
        self.balance_1 = balance_1;
    }

    /// The amounts of the two tokens that `liquidity` between the two ticks
    /// stands for at the pool's price, where the ticks are within the bounds
    /// of all pools and both amounts fit.
    pub fn amounts_for(&self, lower_tick: i32, upper_tick: i32, liquidity: u128) -> (r: Option<
        (u128, u128),
    >)
        requires
            self.wf(),
        ensures
            match r {
                Some(amounts) => {
                    &&& valid_tick(lower_tick as int)
                    &&& valid_tick(upper_tick as int)
                    &&& (amounts.0 as nat, amounts.1 as nat) == position_amounts(
                        self@,
                        lower_tick,
                        upper_tick,
                        liquidity as nat,
                    )
                },
                None => {
                    ||| !valid_tick(lower_tick as int)
                    ||| !valid_tick(upper_tick as int)
                    ||| position_amounts(self@, lower_tick, upper_tick, liquidity as nat).0
                        > u128::MAX
                    ||| position_amounts(self@, lower_tick, upper_tick, liquidity as nat).1
                        > u128::MAX
                },
            },
    {
        let at_lower = match tick_to_price(lower_tick) {
            Some(price) => price,
            None => {
                return None;
            },
        };
        let at_upper = match tick_to_price(upper_tick) {
            Some(price) => price,
            None => {
                return None;
            },
        };
        if self.tick < lower_tick {
            match calc_amount0(liquidity, &at_lower, &at_upper) {
                Some(of_token0) => Some((of_token0, 0)),
                None => None,
            }
        } else if self.tick < upper_tick {
            let of_token0 = calc_amount0(liquidity, &self.sqrt_price_x96, &at_upper);
            let of_token1 = calc_amount1(liquidity, &at_lower, &self.sqrt_price_x96);
            match (of_token0, of_token1) {
                (Some(a), Some(b)) => Some((a, b)),
                _ => None,
            }
        } else {
            match calc_amount1(liquidity, &at_lower, &at_upper) {
                Some(of_token1) => Some((0, of_token1)),
                None => None,
            }
        }
    }

    /// Adds `liquidity_delta` to the net liquidity of both bounds of the range
    /// and to the position of `owner`, and says which of the two ticks flipped
    /// between no net liquidity and some.
    pub fn update_position(
        &mut self,
        owner: i32,
        lower_tick: i32,
        upper_tick: i32,
        liquidity_delta: i128,
    ) -> (r: Result<(bool, bool), PoolError>)
        requires
            old(self).wf(),
        ensures
            final(self).wf(),
            match r {
                Ok(flipped) => {
                    &&& update_position_error(
                        old(self)@,
                        owner,
                        lower_tick,
                        upper_tick,
                        liquidity_delta as int,
                    ) is None
                    &&& final(self)@ == with_position_updated(
                        old(self)@,
                        owner,
                        lower_tick,
                        upper_tick,
                        liquidity_delta as int,
                    )
                    &&& flipped.0 == flips(old(self)@.ticks, lower_tick, liquidity_delta as int)
                    &&& flipped.1 == flips(old(self)@.ticks, upper_tick, liquidity_delta as int)
                },
                Err(e) => {
                    &&& update_position_error(
                        old(self)@,
                        owner,
                        lower_tick,
                        upper_tick,
                        liquidity_delta as int,
                    ) == Some(e)
                    &&& final(self)@ == old(self)@
                },
            },
    {
        if lower_tick >= upper_tick || lower_tick < self.min_tick || upper_tick > self.max_tick {
            return Err(PoolError::InvalidRange);
        }
        let at_lower = self.tick_mapping.get(lower_tick).liquidity;
        let at_upper = self.tick_mapping.get(upper_tick).liquidity;
        if at_lower.checked_add(liquidity_delta).is_none() || at_upper.checked_add(
            liquidity_delta,
        ).is_none() {
            return Err(PoolError::Overflow);
        }
        let held = self.liquidity_of(owner);
        let size = magnitude_of(liquidity_delta);
        let held_after = if liquidity_delta >= 0 {
            match held.checked_add(size) {
                Some(sum) => sum,
                None => {
                    return Err(PoolError::Overflow);
                },
            }
        } else {
            match held.checked_sub(size) {
                Some(rest) => rest,
                None => {
                    return Err(PoolError::InsufficientLiquidity);
                },
            }
        };
        let flipped_lower = self.tick_mapping.update(lower_tick, liquidity_delta).unwrap();
        let flipped_upper = self.tick_mapping.update(upper_tick, liquidity_delta).unwrap();
        self.position_mapping.insert(
            owner,
            Position { owner, lower_tick, upper_tick, liquidity: held_after },
        );
        Ok((flipped_lower, flipped_upper))
    }

    /// Changes the position of `owner` by `liquidity_delta` and returns the
    /// amounts of token0 and token1 that the change stands for at the pool's
    /// price. Where the pool's tick lies inside the range, the active
    /// liquidity changes with it.
    pub fn modify_position(
        &mut self,
        owner: i32,
        lower_tick: i32,
        upper_tick: i32,
        liquidity_delta: i128,
    ) -> (r: Result<(u128, u128), PoolError>)
        requires
            old(self).wf(),
        ensures
            final(self).wf(),
            match r {
                Ok(amounts) => {
                    &&& modify_position_error(
                        old(self)@,
                        owner,
                        lower_tick,
                        upper_tick,
                        liquidity_delta as int,
                    ) is None
                    &&& final(self)@ == with_position_modified(
                        old(self)@,
                        owner,
                        lower_tick,
                        upper_tick,
                        liquidity_delta as int,
                    )
                    &&& liquidity_delta != 0 ==> (amounts.0 as nat, amounts.1 as nat)
                        == position_amounts(
                        old(self)@,
                        lower_tick,
                        upper_tick,
                        magnitude(liquidity_delta as int),
                    )
                    &&& liquidity_delta == 0 ==> amounts == (0u128, 0u128)
                },
                Err(e) => {
                    &&& modify_position_error(
                        old(self)@,
                        owner,
                        lower_tick,
                        upper_tick,
                        liquidity_delta as int,
                    ) == Some(e)
                    &&& final(self)@ == old(self)@
                },
            },
    {
        if lower_tick >= upper_tick || lower_tick < self.min_tick || upper_tick > self.max_tick {
            return Err(PoolError::InvalidRange);
        }
        if liquidity_delta == 0 {
            return Ok((0, 0));
        }
        let size = magnitude_of(liquidity_delta);
        let amounts = match self.amounts_for(lower_tick, upper_tick, size) {
            Some(amounts) => amounts,
            None => {
                return Err(PoolError::InsufficientBalance);
            },
        };
        let inside = lower_tick <= self.tick && self.tick < upper_tick;
        let liquidity_after = if !inside {
            self.liquidity
        } else if liquidity_delta > 0 {
            match self.liquidity.checked_add(size) {
                Some(sum) => sum,
                None => {
                    return Err(PoolError::Overflow);
                },
            }
        } else {
            match self.liquidity.checked_sub(size) {
                Some(rest) => rest,
                None => {
                    return Err(PoolError::InsufficientLiquidity);
                },
            }
        };
        match self.update_position(owner, lower_tick, upper_tick, liquidity_delta) {
            Ok(_) => {},
            Err(e) => {
                return Err(e);
            },
        }
        self.liquidity = liquidity_after;
        Ok(amounts)
    }

    /// Adds liquidity to the range for `owner` where `liquidity_delta` is
    /// positive, and takes it away where it is negative; no change at all
    /// where it is zero. Returns the amounts of token0 and token1 that the
    /// change stands for at the pool's price: the owner pays them into the
    /// reserves for an addition and receives them from the reserves for a
    /// removal.
    pub fn mint(
        &mut self,
        owner: &mut Trader,
        lower_tick: i32,
        upper_tick: i32,
        liquidity_delta: i128,
    ) -> (r: Result<(u128, u128), PoolError>)
        requires
            old(self).wf(),
        ensures
            final(self).wf(),
            match r {
                Ok(amounts) => {
                    &&& mint_error(
                        old(self)@,
                        *old(owner),
                        lower_tick,
                        upper_tick,
                        liquidity_delta as int,
                    ) is None
                    &&& final(self)@ == pool_after_mint(
                        old(self)@,
                        old(owner).id,
                        lower_tick,
                        upper_tick,
                        liquidity_delta as int,
                    )
                    &&& *final(owner) == owner_after_mint(
                        old(self)@,
                        *old(owner),
                        lower_tick,
                        upper_tick,
                        liquidity_delta as int,
                    )
                    &&& liquidity_delta != 0 ==> (amounts.0 as nat, amounts.1 as nat)
                        == position_amounts(
                        old(self)@,
                        lower_tick,
                        upper_tick,
                        magnitude(liquidity_delta as int),
                    )
                    &&& liquidity_delta == 0 ==> amounts == (0u128, 0u128)
                },
                Err(e) => {
                    &&& mint_error(
                        old(self)@,
                        *old(owner),
                        lower_tick,
                        upper_tick,
                        liquidity_delta as int,
                    ) == Some(e)
                    &&& final(self)@ == old(self)@
                    &&& *final(owner) == *old(owner)
                },
            },
    {
        if lower_tick >= upper_tick || lower_tick < self.min_tick || upper_tick > self.max_tick {
            return Err(PoolError::InvalidRange);
        }
        if liquidity_delta == 0 {
            return Ok((0, 0));
        }
        let size = magnitude_of(liquidity_delta);
        let (amount0, amount1) = match self.amounts_for(lower_tick, upper_tick, size) {
            Some(amounts) => amounts,
            None => {
                return Err(PoolError::InsufficientBalance);
            },
        };
        let owner_0 = trader_balance(owner, self.token_0);
        let owner_1 = trader_balance(owner, self.token_1);
        let (pool_0, pool_1, paid_0, paid_1) = if liquidity_delta > 0 {
            if amount0 > owner_0 || amount1 > owner_1 {
                return Err(PoolError::InsufficientBalance);
            }
            match (self.balance_0.checked_add(amount0), self.balance_1.checked_add(amount1)) {
                (Some(a), Some(b)) => (a, b, owner_0 - amount0, owner_1 - amount1),
                _ => {
                    return Err(PoolError::Overflow);
                },
            }
        } else {
            if amount0 > self.balance_0 || amount1 > self.balance_1 {
                return Err(PoolError::InsufficientBalance);
            }
            match (owner_0.checked_add(amount0), owner_1.checked_add(amount1)) {
                (Some(a), Some(b)) => (self.balance_0 - amount0, self.balance_1 - amount1, a, b),
                _ => {
                    return Err(PoolError::Overflow);
                },
            }
        };
        match self.modify_position(owner.id, lower_tick, upper_tick, liquidity_delta) {
            Ok(_) => {},
            Err(e) => {
                return Err(e);
            },
        }
        self.balance_0 = pool_0;
        self.balance_1 = pool_1;
        set_trader_balance(owner, self.token_0, paid_0);
        set_trader_balance(owner, self.token_1, paid_1);
        Ok((amount0, amount1))
    }
}

} // verus!
