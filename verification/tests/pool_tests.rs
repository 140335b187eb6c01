use arbitrage::math::{get_max_tick, get_min_tick};
use arbitrage::pool::{
    magnitude_of, set_trader_balance, trader_balance, PoolError, Position, Token, Trader,
    UniswapV3Pool,
};
use arbitrage::provider::{liquidity_delta_for, random_liquidity_delta};
use arbitrage::swap::{after_fee, liquidity_after_crossing, v3_swap, SwapReceipt};
use arbitrage::tick_math::tick_to_price;
use arbitrage::ticks::{Tick, TickRegistry};
use arbitrage::wide::Wide;

const PRICE_OF_5000: u128 = 5602277097478614198912276234240;
const RICH: u128 = 1_000_000_000_000_000_000_000_000_000_000;

fn eth_dai_pool() -> UniswapV3Pool {
    UniswapV3Pool::new(
        Token::Eth,
        Token::Dai,
        get_min_tick(),
        get_max_tick(),
        Wide::from_u128(PRICE_OF_5000),
        85176,
    )
    .unwrap()
}

fn rich(id: i32) -> Trader {
    Trader { id, amt_eth: RICH, amt_dai: RICH }
}

fn two_ranges() -> UniswapV3Pool {
    let mut owner = rich(3);
    let mut pool = eth_dai_pool();
    assert_eq!(
        pool.mint(&mut owner, 84000, 85000, 100_000_000_000_000_000_000),
        Ok((0, 341818820709553815248))
    );
    assert_eq!(
        pool.mint(&mut owner, 85000, 86000, 100_000_000_000_000_000_000),
        Ok((57065925222650660, 62016059647939149649))
    );
    pool
}

#[test]
fn new_pool_holds_what_it_was_given() {
    let pool = eth_dai_pool();
    assert_eq!(pool.token_0(), Token::Eth);
    assert_eq!(pool.token_1(), Token::Dai);
    assert_eq!(pool.min_tick(), -887272);
    assert_eq!(pool.max_tick(), 887272);
    assert_eq!(pool.balance_0(), 0);
    assert_eq!(pool.balance_1(), 0);
    assert_eq!(pool.liquidity(), 0);
    assert_eq!(pool.tick(), 85176);
    assert_eq!(pool.sqrt_price_x96(), Wide::from_u128(PRICE_OF_5000));
    assert_eq!(pool.tick_info(85176), Tick { liquidity: 0, initialized: false });
    assert_eq!(pool.position(2), None);
    assert_eq!(pool.liquidity_of(2), 0);
    assert_eq!(pool.ticks().next_initialized_tick(0, true), None);
}

#[test]
fn new_pool_rejects_bad_bounds_and_equal_assets() {
    let price = Wide::from_u128(PRICE_OF_5000);
    let bad = |t0, t1, lo, hi| UniswapV3Pool::new(t0, t1, lo, hi, price, 85176).err();
    assert_eq!(bad(Token::Eth, Token::Eth, -887272, 887272), Some(PoolError::InvalidRange));
    assert_eq!(bad(Token::Dai, Token::Dai, -887272, 887272), Some(PoolError::InvalidRange));
    assert_eq!(bad(Token::Eth, Token::Dai, -887273, 887272), Some(PoolError::InvalidRange));
    assert_eq!(bad(Token::Eth, Token::Dai, -887272, 887273), Some(PoolError::InvalidRange));
    assert_eq!(bad(Token::Eth, Token::Dai, 90000, 90000), Some(PoolError::InvalidRange));
    assert_eq!(bad(Token::Eth, Token::Dai, 90000, 80000), Some(PoolError::InvalidRange));
    assert_eq!(bad(Token::Dai, Token::Eth, 80000, 90000), None);
}

#[test]
fn new_pool_rejects_a_tick_that_does_not_match_the_price() {
    let price = Wide::from_u128(PRICE_OF_5000);
    let at = |lo, hi, p, tick| UniswapV3Pool::new(Token::Eth, Token::Dai, lo, hi, p, tick).err();
    assert_eq!(at(-887272, 887272, price, 85175), Some(PoolError::PriceOutOfBounds));
    assert_eq!(at(-887272, 887272, price, 85177), Some(PoolError::PriceOutOfBounds));
    assert_eq!(at(-1000, 1000, price, 85176), Some(PoolError::PriceOutOfBounds));
    assert_eq!(at(-887272, 887272, Wide::from_u128(17), -887272), Some(PoolError::PriceOutOfBounds));
    assert_eq!(at(-887272, 887272, Wide::zero(), 0), Some(PoolError::PriceOutOfBounds));
    assert_eq!(at(85176, 85177, price, 85176), None);
}

#[test]
fn mint_rejects_bad_ranges() {
    let mut owner = rich(2);
    let mut pool = UniswapV3Pool::new(
        Token::Eth,
        Token::Dai,
        80000,
        90000,
        Wide::from_u128(PRICE_OF_5000),
        85176,
    )
    .unwrap();
    assert_eq!(pool.mint(&mut owner, 86000, 86000, 5), Err(PoolError::InvalidRange));
    assert_eq!(pool.mint(&mut owner, 86001, 86000, 5), Err(PoolError::InvalidRange));
    assert_eq!(pool.mint(&mut owner, 79999, 86000, 5), Err(PoolError::InvalidRange));
    assert_eq!(pool.mint(&mut owner, 84000, 90001, 5), Err(PoolError::InvalidRange));
    assert_eq!(pool.mint(&mut owner, 86001, 86000, 0), Err(PoolError::InvalidRange));
    assert_eq!(pool.modify_position(2, 79999, 86000, 5), Err(PoolError::InvalidRange));
    assert_eq!(pool.update_position(2, 84000, 90001, 5), Err(PoolError::InvalidRange));
    assert_eq!(owner, rich(2));
    assert_eq!(pool.liquidity(), 0);
    // the bounds themselves are a good range
    assert_eq!(pool.mint(&mut owner, 80000, 90000, 5), Ok((0, 80)));
    assert_eq!(owner, Trader { id: 2, amt_eth: RICH, amt_dai: RICH - 80 });
}

#[test]
fn mint_of_nothing_changes_nothing() {
    let mut owner = rich(2);
    let mut pool = eth_dai_pool();
    assert_eq!(pool.mint(&mut owner, 84222, 86129, 0), Ok((0, 0)));
    assert_eq!(pool.tick_info(84222), Tick { liquidity: 0, initialized: false });
    assert_eq!(pool.position(2), None);
    assert_eq!(pool.liquidity(), 0);
    assert_eq!(owner, rich(2));
    assert_eq!(pool.modify_position(2, 84222, 86129, 0), Ok((0, 0)));
    assert_eq!(pool.position(2), None);
}

#[test]
fn mint_splits_by_where_the_price_stands() {
    let liquidity = 1517882343751509868544;
    // the price is inside the range: both tokens, and the liquidity is active
    let mut pool = eth_dai_pool();
    let mut owner = rich(2);
    assert_eq!(
        pool.mint(&mut owner, 84222, 86129, liquidity),
        Ok((998628802115141959, 5000209190920489519477))
    );
    assert_eq!(pool.liquidity(), 1517882343751509868544);
    // the price is below the range: token0 alone, nothing active
    let mut pool = eth_dai_pool();
    assert_eq!(pool.mint(&mut owner, 85177, 86129, liquidity), Ok((997759958197056198, 0)));
    assert_eq!(pool.liquidity(), 0);
    assert_eq!(pool.balance_0(), 997759958197056198);
    assert_eq!(pool.balance_1(), 0);
    // the price is at or above the upper bound: token1 alone, nothing active
    let mut pool = eth_dai_pool();
    assert_eq!(pool.mint(&mut owner, 84222, 85176, liquidity), Ok((0, 4999187247111820049691)));
    assert_eq!(pool.liquidity(), 0);
    assert_eq!(pool.balance_0(), 0);
    assert_eq!(pool.balance_1(), 4999187247111820049691);
}

#[test]
fn mint_marks_both_bounds_and_the_position() {
    let mut owner = rich(2);
    let mut pool = eth_dai_pool();
    pool.mint(&mut owner, 84222, 86129, 700).unwrap();
    assert_eq!(pool.tick_info(84222), Tick { liquidity: 700, initialized: true });
    assert_eq!(pool.tick_info(86129), Tick { liquidity: 700, initialized: true });
    assert_eq!(pool.tick_info(85000), Tick { liquidity: 0, initialized: false });
    assert_eq!(
        pool.position(2),
        Some(Position { owner: 2, lower_tick: 84222, upper_tick: 86129, liquidity: 700 })
    );
    assert_eq!(pool.liquidity_of(2), 700);
    pool.mint(&mut owner, 84222, 90000, 50).unwrap();
    assert_eq!(pool.tick_info(84222), Tick { liquidity: 750, initialized: true });
    assert_eq!(pool.tick_info(90000), Tick { liquidity: 50, initialized: true });
    assert_eq!(
        pool.position(2),
        Some(Position { owner: 2, lower_tick: 84222, upper_tick: 90000, liquidity: 750 })
    );
    assert_eq!(pool.liquidity(), 750);
    pool.mint(&mut owner, 84222, 90000, -50).unwrap();
    assert_eq!(pool.tick_info(90000), Tick { liquidity: 0, initialized: false });
    assert_eq!(pool.tick_info(84222), Tick { liquidity: 700, initialized: true });
    assert_eq!(pool.liquidity(), 700);
    assert_eq!(pool.liquidity_of(2), 700);
    // the position stays as a record when it is empty
    pool.mint(&mut owner, 84222, 86129, -700).unwrap();
    assert_eq!(
        pool.position(2),
        Some(Position { owner: 2, lower_tick: 84222, upper_tick: 86129, liquidity: 0 })
    );
    assert_eq!(pool.ticks().next_initialized_tick(0, true), None);
}

#[test]
fn mint_then_burn_restores_a_pool_with_liquidity() {
    let mut pool = two_ranges();
    let mut owner = Trader { id: 9, amt_eth: 5_000_000_000, amt_dai: 7_000_000_000_000 };
    let before = (
        pool.liquidity(),
        pool.balance_0(),
        pool.balance_1(),
        pool.tick_info(85000),
        pool.tick_info(85500),
        pool.tick(),
        pool.sqrt_price_x96(),
    );
    for (lower, upper) in [(85000, 85500), (84000, 85000), (85500, 86000), (-5, 887272)] {
        let minted = pool.mint(&mut owner, lower, upper, 1_000_000_000).unwrap();
        let burned = pool.mint(&mut owner, lower, upper, -1_000_000_000).unwrap();
        assert_eq!(minted, burned);
        let after = (
            pool.liquidity(),
            pool.balance_0(),
            pool.balance_1(),
            pool.tick_info(85000),
            pool.tick_info(85500),
            pool.tick(),
            pool.sqrt_price_x96(),
        );
        assert_eq!(before, after);
        assert_eq!(pool.tick_info(lower).initialized, lower == 85000 || lower == 84000);
        assert_eq!(owner, Trader { id: 9, amt_eth: 5_000_000_000, amt_dai: 7_000_000_000_000 });
        assert_eq!(pool.liquidity_of(9), 0);
    }
}

#[test]
fn burn_needs_the_liquidity_and_the_reserves() {
    let mut pool = two_ranges();
    let mut other = rich(4);
    // nobody can burn what they have not supplied
    assert_eq!(
        pool.mint(&mut other, 85000, 86000, -1),
        Err(PoolError::InsufficientLiquidity)
    );
    let mut owner = rich(3);
    assert_eq!(
        pool.mint(&mut owner, 85000, 86000, -200_000_000_000_000_000_001),
        Err(PoolError::InsufficientBalance)
    );
    // more than is active in the range
    assert_eq!(
        pool.modify_position(3, 85000, 86000, -100_000_000_000_000_000_001),
        Err(PoolError::InsufficientLiquidity)
    );
    // more than the owner's position holds
    assert_eq!(
        pool.update_position(3, 84000, 85000, -200_000_000_000_000_000_001),
        Err(PoolError::InsufficientLiquidity)
    );
    assert_eq!(pool.liquidity(), 100_000_000_000_000_000_000);
    assert_eq!(pool.liquidity_of(3), 200_000_000_000_000_000_000);
    assert_eq!(pool.balance_0(), 57065925222650660);
    assert_eq!(pool.balance_1(), 403834880357492964897);
    assert_eq!(owner, rich(3));
    assert_eq!(other, rich(4));
}

#[test]
fn mint_reports_what_does_not_fit() {
    let mut owner = rich(8);
    let mut pool = UniswapV3Pool::new(
        Token::Eth,
        Token::Dai,
        get_min_tick(),
        get_max_tick(),
        tick_to_price(0).unwrap(),
        0,
    )
    .unwrap();
    assert_eq!(pool.mint(&mut owner, 880000, 887272, i128::MAX), Ok((4044347469390597311, 0)));
    assert_eq!(pool.tick_info(880000).liquidity, i128::MAX);
    // a second time the net liquidity of the bounds would run over
    assert_eq!(pool.mint(&mut owner, 880000, 887272, 1), Err(PoolError::Overflow));
    assert_eq!(pool.update_position(8, 880000, 887272, 1), Err(PoolError::Overflow));
    // the amounts of a wide range do not fit and cannot be paid
    assert_eq!(
        pool.mint(&mut owner, get_min_tick(), get_max_tick(), i128::MAX),
        Err(PoolError::InsufficientBalance)
    );
    assert_eq!(eth_dai_pool().amounts_for(get_min_tick(), get_max_tick(), u128::MAX), None);
    assert_eq!(pool.amounts_for(-887272, -880000, i128::MAX as u128), Some((0, 4044347469570506751)));
    assert_eq!(pool.amounts_for(-887273, -880000, 5), None);
    assert_eq!(pool.liquidity(), 0);
    assert_eq!(owner.amt_eth, RICH - 4044347469390597311);
    // the reserve would run over
    let mut whale = Trader { id: 1, amt_eth: u128::MAX, amt_dai: 0 };
    let mut big = UniswapV3Pool::new(
        Token::Eth,
        Token::Dai,
        get_min_tick(),
        get_max_tick(),
        tick_to_price(0).unwrap(),
        0,
    )
    .unwrap();
    let most = big.mint(&mut whale, 1, 2, i128::MAX).unwrap().0;
    whale.amt_eth = u128::MAX;
    let mut second = Trader { id: 2, amt_eth: u128::MAX, amt_dai: 0 };
    let mut rounds = 0;
    let refused = loop {
        match big.mint(&mut second, 3 + rounds, 4 + rounds, i128::MAX) {
            Ok(_) => {
                second.amt_eth = u128::MAX;
                rounds += 1;
            }
            Err(e) => break e,
        }
    };
    assert!(most > 0);
    assert_eq!(refused, PoolError::Overflow);
    assert_eq!(second.amt_eth, u128::MAX);
}

#[test]
fn snapshot_is_independent() {
    let pool = two_ranges();
    let mut copy = pool.snapshot();
    let mut owner = rich(5);
    copy.mint(&mut owner, 85000, 86000, 77).unwrap();
    let mut trader = rich(6);
    v3_swap(&mut trader, &mut copy, Token::Eth, 1_000_000_000_000_000, 3000).unwrap();
    assert_eq!(pool.liquidity(), 100_000_000_000_000_000_000);
    assert_eq!(pool.tick(), 85176);
    assert_eq!(pool.tick_info(85000).liquidity, 200_000_000_000_000_000_000);
    assert_eq!(pool.position(5), None);
    assert_eq!(pool.balance_0(), 57065925222650660);
    assert_eq!(copy.tick_info(85000).liquidity, 200_000_000_000_000_000_077);
    assert_ne!(copy.tick(), 85176);
}

#[test]
fn swap_of_token0_moves_the_price_down() {
    let mut pool = two_ranges();
    let mut trader = rich(4);
    let receipt = v3_swap(&mut trader, &mut pool, Token::Eth, 1_000_000_000_000_000, 3000);
    assert_eq!(
        receipt,
        Ok(SwapReceipt { amount_in: 999999999999999, amount_out: 4981477563434567145 })
    );
    assert_eq!(pool.tick(), 85162);
    assert_eq!(pool.sqrt_price_x96(), Wide::from_u128(5598318488512145237812627357537));
    assert_eq!(pool.liquidity(), 100_000_000_000_000_000_000);
    assert_eq!(pool.balance_0(), 58065925222650659);
    assert_eq!(pool.balance_1(), 398853402794058397752);
    assert_eq!(trader.amt_eth, RICH - 999999999999999);
    assert_eq!(trader.amt_dai, RICH + 4981477563434567145);
    // the reserves moved by what was reported
    assert_eq!(pool.balance_0(), 57065925222650660 + 999999999999999);
    assert_eq!(pool.balance_1(), 403834880357492964897 - 4981477563434567145);
}

#[test]
fn swap_of_token1_crosses_the_tick_above() {
    let mut pool = two_ranges();
    let mut trader = rich(4);
    let receipt = v3_swap(
        &mut trader,
        &mut pool,
        Token::Dai,
        1_000_000_000_000_000_000_000_000,
        3000,
    );
    assert_eq!(
        receipt,
        Ok(SwapReceipt { amount_in: 297327288461746075254, amount_out: 56894727446982708 })
    );
    assert_eq!(pool.tick(), 86000);
    assert_eq!(pool.sqrt_price_x96(), tick_to_price(86000).unwrap());
    assert_eq!(pool.liquidity(), 200_000_000_000_000_000_000);
    assert_eq!(pool.balance_0(), 171197775667952);
    assert_eq!(pool.balance_1(), 701162168819239040151);
    // the price rests on an initialized tick: no swap makes progress from here
    let before = trader;
    assert_eq!(
        v3_swap(&mut trader, &mut pool, Token::Dai, 1_000_000, 3000),
        Ok(SwapReceipt { amount_in: 0, amount_out: 0 })
    );
    assert_eq!(
        v3_swap(&mut trader, &mut pool, Token::Eth, 1_000_000, 3000),
        Ok(SwapReceipt { amount_in: 0, amount_out: 0 })
    );
    assert_eq!(trader, before);
    assert_eq!(pool.tick(), 86000);
    assert_eq!(pool.balance_0(), 171197775667952);
}

#[test]
fn swap_fails_where_liquidity_would_fall_below_zero() {
    let mut pool = two_ranges();
    let mut trader = rich(4);
    // crossing tick 85000 downwards takes away more than is active
    assert_eq!(
        v3_swap(&mut trader, &mut pool, Token::Eth, 1_000_000_000_000_000_000_000_000, 3000),
        Err(PoolError::InsufficientLiquidity)
    );
    assert_eq!(trader, rich(4));
    assert_eq!(pool.tick(), 85176);
    assert_eq!(pool.sqrt_price_x96(), Wide::from_u128(PRICE_OF_5000));
    assert_eq!(pool.liquidity(), 100_000_000_000_000_000_000);
    assert_eq!(pool.balance_0(), 57065925222650660);
}

#[test]
fn swap_fails_without_a_tick_ahead() {
    let mut pool = eth_dai_pool();
    let mut trader = rich(4);
    assert_eq!(
        v3_swap(&mut trader, &mut pool, Token::Eth, 5, 3000),
        Err(PoolError::InsufficientLiquidity)
    );
    assert_eq!(
        v3_swap(&mut trader, &mut pool, Token::Dai, 5, 3000),
        Err(PoolError::InsufficientLiquidity)
    );
    // nothing to swap is no failure
    assert_eq!(
        v3_swap(&mut trader, &mut pool, Token::Dai, 0, 3000),
        Ok(SwapReceipt { amount_in: 0, amount_out: 0 })
    );
    // a position above the price helps going up, not going down
    let mut owner = rich(3);
    pool.mint(&mut owner, 86000, 87000, 1_000_000).unwrap();
    assert_eq!(
        v3_swap(&mut trader, &mut pool, Token::Eth, 5, 3000),
        Err(PoolError::InsufficientLiquidity)
    );
    assert_eq!(trader, rich(4));
}

#[test]
fn swap_fails_where_the_trader_cannot_pay() {
    let mut pool = two_ranges();
    let mut poor = Trader { id: 4, amt_eth: 999999999999998, amt_dai: 0 };
    assert_eq!(
        v3_swap(&mut poor, &mut pool, Token::Eth, 1_000_000_000_000_000, 3000),
        Err(PoolError::InsufficientBalance)
    );
    assert_eq!(poor, Trader { id: 4, amt_eth: 999999999999998, amt_dai: 0 });
    assert_eq!(pool.tick(), 85176);
    let mut exact = Trader { id: 4, amt_eth: 999999999999999, amt_dai: 0 };
    assert!(v3_swap(&mut exact, &mut pool, Token::Eth, 1_000_000_000_000_000, 3000).is_ok());
    assert_eq!(exact.amt_eth, 0);
}

#[test]
fn swap_fails_where_the_credit_does_not_fit() {
    let mut pool = two_ranges();
    let mut full = Trader { id: 4, amt_eth: RICH, amt_dai: u128::MAX };
    assert_eq!(
        v3_swap(&mut full, &mut pool, Token::Eth, 1_000_000_000_000_000, 3000),
        Err(PoolError::Overflow)
    );
    assert_eq!(full, Trader { id: 4, amt_eth: RICH, amt_dai: u128::MAX });
    assert_eq!(pool.tick(), 85176);
}

#[test]
fn swap_at_the_price_of_an_initialized_tick_makes_no_progress() {
    let mut pool = UniswapV3Pool::new(
        Token::Dai,
        Token::Eth,
        -1000,
        1000,
        tick_to_price(0).unwrap(),
        0,
    )
    .unwrap();
    let mut owner = rich(5);
    assert_eq!(
        pool.mint(&mut owner, 0, 500, 10_000_000_000_000_000_000_000),
        Ok((246888689147851672090, 0))
    );
    assert_eq!(owner.amt_dai, RICH - 246888689147851672090);
    assert_eq!(owner.amt_eth, RICH);
    let mut trader = rich(6);
    for token in [Token::Dai, Token::Eth] {
        assert_eq!(
            v3_swap(&mut trader, &mut pool, token, 1_000_000_000_000_000_000, 0),
            Ok(SwapReceipt { amount_in: 0, amount_out: 0 })
        );
    }
    assert_eq!(trader, rich(6));
    assert_eq!(pool.tick(), 0);
    assert_eq!(pool.balance_0(), 246888689147851672090);
}

#[test]
fn swaps_far_from_the_middle() {
    // a very high price: the range holds token1 alone
    let high_price = tick_to_price(800000).unwrap().add(&Wide::from_u128(12345678901234567));
    assert_eq!(high_price, Wide::from_parts(54695410, 70396345065700674076188241227519434736));
    let mut high = UniswapV3Pool::new(
        Token::Eth,
        Token::Dai,
        get_min_tick(),
        get_max_tick(),
        high_price,
        800000,
    )
    .unwrap();
    let mut owner = Trader { id: 3, amt_eth: u128::MAX, amt_dai: u128::MAX };
    assert_eq!(
        high.mint(&mut owner, 790000, 810000, 1_000_000_000_000_000),
        Ok((0, 92428287432296546573186664122365))
    );
    let mut copy = high.snapshot();
    let mut trader = Trader { id: 4, amt_eth: 0, amt_dai: u128::MAX - 5 };
    assert_eq!(
        v3_swap(&mut trader, &mut copy, Token::Dai, 100_000_000_000_000_000_000, 3000),
        Ok(SwapReceipt { amount_in: 100000000000000000000, amount_out: 0 })
    );
    assert_eq!(copy.tick(), 800000);
    assert_eq!(
        copy.sqrt_price_x96(),
        Wide::from_parts(54695410, 70404267881952100509947595622553034736)
    );
    assert_eq!(copy.balance_1(), 92428287432396546573186664122365);
    let mut copy = high.snapshot();
    let mut trader = Trader { id: 4, amt_eth: 0, amt_dai: u128::MAX - 5 };
    assert_eq!(
        v3_swap(
            &mut trader,
            &mut copy,
            Token::Dai,
            100_000_000_000_000_000_000_000_000_000_000_000_000,
            3000
        ),
        Ok(SwapReceipt { amount_in: 152384674093501460908264523009953, amount_out: 0 })
    );
    assert_eq!(copy.tick(), 810000);
    assert_eq!(copy.sqrt_price_x96(), tick_to_price(810000).unwrap());
    assert_eq!(
        copy.sqrt_price_x96(),
        Wide::from_parts(90175231, 326348267604184357951090023813369194235)
    );
    assert_eq!(copy.liquidity(), 2_000_000_000_000_000);
    assert_eq!(copy.balance_0(), 0);
    assert_eq!(copy.balance_1(), 244812961525798007481451187132318);
    assert_eq!(trader.amt_dai, 340282214536264369961913699167245201497);
    // the way down takes less than one unit of token0: no progress
    let mut trader = Trader { id: 4, amt_eth: u128::MAX - 5, amt_dai: 0 };
    assert_eq!(
        v3_swap(&mut trader, &mut high, Token::Eth, 1_000_000, 3000),
        Ok(SwapReceipt { amount_in: 0, amount_out: 0 })
    );
    assert_eq!(high.sqrt_price_x96(), high_price);

    // a very low price: the range holds token0 alone
    let low_price = tick_to_price(-800000).unwrap().add(&Wide::from_u128(7));
    assert_eq!(low_price, Wide::from_u128(337263108628));
    let mut low = UniswapV3Pool::new(
        Token::Eth,
        Token::Dai,
        get_min_tick(),
        get_max_tick(),
        low_price,
        -800000,
    )
    .unwrap();
    assert_eq!(
        low.mint(&mut owner, -810000, -790000, 1_000_000_000_000_000),
        Ok((92428287427662835236834895482114, 0))
    );
    let mut trader = Trader { id: 4, amt_eth: u128::MAX - 5, amt_dai: 0 };
    assert_eq!(
        v3_swap(
            &mut trader,
            &mut low,
            Token::Eth,
            100_000_000_000_000_000_000_000_000_000_000_000_000,
            3000
        ),
        Ok(SwapReceipt { amount_in: 152384674098748317552797337223367, amount_out: 0 })
    );
    assert_eq!(low.tick(), -810000);
    assert_eq!(low.sqrt_price_x96(), Wide::from_u128(204565529502));
    assert_eq!(low.liquidity(), 0);
    assert_eq!(low.balance_0(), 244812961526411152789632232705481);
    assert_eq!(low.balance_1(), 0);
    assert_eq!(trader.amt_eth, 340282214536264364715057054634430988083);
}

#[test]
fn swap_with_dai_as_token0_and_different_fees() {
    let mut pool = UniswapV3Pool::new(
        Token::Dai,
        Token::Eth,
        -1000,
        1000,
        tick_to_price(0).unwrap().add(&Wide::from_u128(12345)),
        0,
    )
    .unwrap();
    let mut owner = rich(5);
    assert_eq!(
        pool.mint(&mut owner, -500, 500, 10_000_000_000_000_000_000_000),
        Ok((246888689147851672090, 246888689147851671566))
    );
    let mut trader = Trader { id: 6, amt_eth: 10_000_000_000_000_000_000_000_000, amt_dai: 10_000_000_000_000_000_000_000_000 };
    // eth is token1 here: the price rises, no fee
    assert_eq!(
        v3_swap(&mut trader, &mut pool, Token::Eth, 1_000_000_000_000_000_000, 0),
        Ok(SwapReceipt { amount_in: 999999999999999999, amount_out: 999900009999000099 })
    );
    assert_eq!(pool.tick(), 2);
    assert_eq!(pool.sqrt_price_x96(), Wide::from_u128(79236085330515764027303317076));
    assert_eq!(pool.balance_0(), 245888789137852671991);
    assert_eq!(pool.balance_1(), 247888689147851671565);
    assert_eq!(trader.amt_eth, 9999999000000000000000001);
    assert_eq!(trader.amt_dai, 10000000999900009999000099);
    // dai is token0: the price falls, half of the output is the fee
    assert_eq!(
        v3_swap(&mut trader, &mut pool, Token::Dai, 2_000_000_000_000_000_000, 500_000),
        Ok(SwapReceipt { amount_in: 1999999999999999999, amount_out: 999999990001999800 })
    );
    assert_eq!(pool.tick(), -3);
    assert_eq!(pool.sqrt_price_x96(), Wide::from_u128(79220239698171335796717257688));
    assert_eq!(pool.balance_0(), 247888789137852671990);
    assert_eq!(pool.balance_1(), 246888689157849671765);
    assert_eq!(trader.amt_eth, 9999999999999990001999801);
    assert_eq!(trader.amt_dai, 9999998999900009999000100);
}

#[test]
fn a_small_input_can_buy_nothing() {
    let mut owner = Trader { id: 2, amt_eth: RICH, amt_dai: RICH };
    let mut pool = eth_dai_pool();
    pool.mint(&mut owner, -86000, 86000, 10000000000000).unwrap();
    let mut trader = rich(4);
    // 100 units of dai are worth a fiftieth of a unit of eth
    assert_eq!(
        v3_swap(&mut trader, &mut pool, Token::Dai, 100, 30_000),
        Ok(SwapReceipt { amount_in: 99, amount_out: 0 })
    );
    assert_eq!(pool.tick(), 85176);
    assert_eq!(pool.sqrt_price_x96(), Wide::from_u128(5602277097479406480537418877615));
    assert_eq!(pool.balance_0(), 5706592522);
    assert_eq!(pool.balance_1(), 706971066422832 + 99);
    assert_eq!(trader, Trader { id: 4, amt_eth: RICH, amt_dai: RICH - 99 });
}

#[test]
fn crossing_changes_the_liquidity_by_the_net_of_the_tick() {
    assert_eq!(liquidity_after_crossing(100, 30, false), Ok(130));
    assert_eq!(liquidity_after_crossing(100, 30, true), Ok(70));
    assert_eq!(liquidity_after_crossing(100, -30, false), Ok(70));
    assert_eq!(liquidity_after_crossing(100, -30, true), Ok(130));
    assert_eq!(liquidity_after_crossing(100, 100, true), Ok(0));
    assert_eq!(liquidity_after_crossing(100, 101, true), Err(PoolError::InsufficientLiquidity));
    assert_eq!(liquidity_after_crossing(100, -101, false), Err(PoolError::InsufficientLiquidity));
    assert_eq!(liquidity_after_crossing(u128::MAX, 1, false), Err(PoolError::Overflow));
    assert_eq!(liquidity_after_crossing(u128::MAX, -1, true), Err(PoolError::Overflow));
    assert_eq!(liquidity_after_crossing(u128::MAX, i128::MIN, false), Ok(u128::MAX - (1 << 127)));
    assert_eq!(liquidity_after_crossing(0, i128::MIN, true), Ok(1 << 127));
    assert_eq!(liquidity_after_crossing(0, 0, true), Ok(0));
}

#[test]
fn fee_is_kept_from_the_output() {
    assert_eq!(after_fee(1000, 30_000), 970);
    assert_eq!(after_fee(1000, 0), 1000);
    assert_eq!(after_fee(7, 999_999), 0);
    assert_eq!(after_fee(0, 30_000), 0);
    assert_eq!(after_fee(u128::MAX, 1), 340282026638571542524911144057160779686);
    assert_eq!(after_fee(u128::MAX, 0), u128::MAX);
}

#[test]
fn registry_keeps_initialized_ticks_only() {
    let mut ticks = TickRegistry::new();
    assert_eq!(ticks.get(5), Tick { liquidity: 0, initialized: false });
    assert_eq!(ticks.update(5, 10), Some(true));
    assert_eq!(ticks.update(5, 10), Some(false));
    assert_eq!(ticks.get(5), Tick { liquidity: 20, initialized: true });
    assert_eq!(ticks.cross(5), 20);
    assert_eq!(ticks.update(5, -5), Some(false));
    assert_eq!(ticks.update(5, -15), Some(true));
    assert_eq!(ticks.get(5), Tick { liquidity: 0, initialized: false });
    assert_eq!(ticks.cross(5), 0);
    assert_eq!(ticks.next_initialized_tick(5, true), None);
    assert_eq!(ticks.update(7, 0), Some(false));
    assert_eq!(ticks.get(7), Tick { liquidity: 0, initialized: false });
    assert_eq!(ticks.update(7, -3), Some(true));
    assert_eq!(ticks.get(7), Tick { liquidity: -3, initialized: true });
    assert_eq!(ticks.update(7, i128::MIN), None);
    assert_eq!(ticks.get(7), Tick { liquidity: -3, initialized: true });
    assert_eq!(ticks.update(8, i128::MAX), Some(true));
    assert_eq!(ticks.update(8, 1), None);
    assert_eq!(ticks.cross(8), i128::MAX);
    let copy = ticks.snapshot();
    assert_eq!(ticks.update(8, -i128::MAX), Some(true));
    assert_eq!(copy.cross(8), i128::MAX);
    assert_eq!(ticks.cross(8), 0);
}

#[test]
fn next_initialized_tick_in_both_directions() {
    let mut ticks = TickRegistry::new();
    for tick in [-300, 40, -20, 500, 41, 0] {
        assert_eq!(ticks.update(tick, 1), Some(true));
    }
    // upwards: the least initialized tick that is not below
    assert_eq!(ticks.next_initialized_tick(-1000, true), Some(-300));
    assert_eq!(ticks.next_initialized_tick(-300, true), Some(-300));
    assert_eq!(ticks.next_initialized_tick(-299, true), Some(-20));
    assert_eq!(ticks.next_initialized_tick(1, true), Some(40));
    assert_eq!(ticks.next_initialized_tick(40, true), Some(40));
    assert_eq!(ticks.next_initialized_tick(41, true), Some(41));
    assert_eq!(ticks.next_initialized_tick(42, true), Some(500));
    assert_eq!(ticks.next_initialized_tick(501, true), None);
    // downwards: the greatest initialized tick that is not above
    assert_eq!(ticks.next_initialized_tick(1000, false), Some(500));
    assert_eq!(ticks.next_initialized_tick(500, false), Some(500));
    assert_eq!(ticks.next_initialized_tick(499, false), Some(41));
    assert_eq!(ticks.next_initialized_tick(40, false), Some(40));
    assert_eq!(ticks.next_initialized_tick(39, false), Some(0));
    assert_eq!(ticks.next_initialized_tick(-1, false), Some(-20));
    assert_eq!(ticks.next_initialized_tick(-300, false), Some(-300));
    assert_eq!(ticks.next_initialized_tick(-301, false), None);
    assert_eq!(ticks.next_initialized_tick(i32::MIN, false), None);
    assert_eq!(ticks.next_initialized_tick(i32::MAX, true), None);
    // a tick that lost its liquidity is no longer found
    assert_eq!(ticks.update(40, -1), Some(true));
    assert_eq!(ticks.next_initialized_tick(1, true), Some(41));
    assert_eq!(ticks.next_initialized_tick(40, false), Some(0));
}

#[test]
fn trader_balances_by_token() {
    let mut trader = Trader { id: 1, amt_eth: 5, amt_dai: 9 };
    assert_eq!(trader_balance(&trader, Token::Eth), 5);
    assert_eq!(trader_balance(&trader, Token::Dai), 9);
    set_trader_balance(&mut trader, Token::Dai, 11);
    assert_eq!(trader, Trader { id: 1, amt_eth: 5, amt_dai: 11 });
    set_trader_balance(&mut trader, Token::Eth, 0);
    assert_eq!(trader, Trader { id: 1, amt_eth: 0, amt_dai: 11 });
    assert_eq!(magnitude_of(0), 0);
    assert_eq!(magnitude_of(-5), 5);
    assert_eq!(magnitude_of(5), 5);
    assert_eq!(magnitude_of(i128::MIN), 1 << 127);
    assert_eq!(magnitude_of(i128::MAX), (1 << 127) - 1);
}

#[test]
fn provider_adds_above_five_and_removes_else() {
    for draw in 0..=5 {
        assert_eq!(liquidity_delta_for(draw), -10000);
    }
    for draw in 6..10 {
        assert_eq!(liquidity_delta_for(draw), 20000);
    }
    let mut additions = 0;
    let mut removals = 0;
    for _ in 0..2000 {
        match random_liquidity_delta() {
            20000 => additions += 1,
            -10000 => removals += 1,
            other => panic!("unexpected change {}", other),
        }
    }
    // four draws in ten add, six remove
    assert!(additions > 400 && removals > 600);
}
