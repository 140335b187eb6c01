use arbitrage::arbitrage::{calc_two_pool_arb_profit, find_optimal_arb};
use arbitrage::math::{get_max_tick, get_min_tick};
use arbitrage::pool::{PoolError, Token, Trader, UniswapV3Pool};
use arbitrage::provider::random_liquidity_delta;
use arbitrage::swap::v3_swap;
use arbitrage::tick_math::tick_to_price;
use arbitrage::wide::Wide;

/// One whole token in the 18-decimal fixed point of the amounts.
const UNIT: u128 = 1_000_000_000_000_000_000;

const SQRT_PRICE_OF_5000: u128 = 5602277097478614198912276234240;

fn pool_at_5000() -> UniswapV3Pool {
    UniswapV3Pool::new(
        Token::Eth,
        Token::Dai,
        get_min_tick(),
        get_max_tick(),
        Wide::from_u128(SQRT_PRICE_OF_5000),
        85176,
    )
    .unwrap()
}

fn set_up_pool(mint: bool, lower_tick: i32, upper_tick: i32, liquidity: i128) -> (Trader, UniswapV3Pool) {
    let mut trader = Trader { id: 2, amt_eth: 10000000000 * UNIT, amt_dai: 10000000000 * UNIT };
    let mut pool = pool_at_5000();
    if mint {
        pool.mint(&mut trader, lower_tick, upper_tick, liquidity).unwrap();
    }
    (trader, pool)
}

#[test]
fn v3_test_mint() {
    let mut trader = Trader { id: 2, amt_eth: 2000 * UNIT, amt_dai: 10000 * UNIT };
    let mut pool = pool_at_5000();

    let minted = pool.mint(&mut trader, 84222, 86129, 1517882343751509868544);

    assert_eq!(pool.sqrt_price_x96(), Wide::from_u128(5602277097478614198912276234240));
    assert_eq!(pool.tick(), 85176);
    assert_eq!(pool.liquidity(), 1517882343751509868544);
    assert_eq!(minted, Ok((998628802115141959, 5000209190920489519477)));
    assert_eq!(pool.balance_0(), 998628802115141959);
    assert_eq!(pool.balance_1(), 5000209190920489519477);
    assert_eq!(trader.amt_eth, 1999001371197884858041);
    assert_eq!(trader.amt_dai, 4999790809079510480523);
}

#[test]
fn v3_test_remove() {
    let mut trader = Trader { id: 2, amt_eth: 2000 * UNIT, amt_dai: 10000 * UNIT };
    let mut pool = pool_at_5000();

    pool.mint(&mut trader, 84222, 86129, 1517882343751509868544).unwrap();

    let liq = pool.liquidity();

    assert_eq!(liq, 1517882343751509868544);

    pool.mint(&mut trader, 84222, 86129, -1517882343751509868544).unwrap();

    assert_eq!(pool.sqrt_price_x96(), Wide::from_u128(5602277097478614198912276234240));
    let new_liquidity = pool.liquidity();
    assert_eq!(new_liquidity, 0);
    assert_eq!(pool.tick(), 85176);
    assert_eq!(trader.amt_eth, 2000 * UNIT);
    assert_eq!(trader.amt_dai, 10000 * UNIT);
    assert_eq!(pool.balance_0(), 0);
    assert_eq!(pool.balance_1(), 0);
    assert!(!pool.tick_info(84222).initialized);
    assert!(!pool.tick_info(86129).initialized);
}

#[test]
fn test_swap_eth() {
    let (mut trader, mut pool) = set_up_pool(true, -86000, 86000, 100000000000);
    let og_eth = trader.amt_eth;
    let og_dai = trader.amt_dai;

    let receipt = v3_swap(&mut trader, &mut pool, Token::Eth, 1000000 * UNIT, 30_000).unwrap();

    let post = trader.amt_eth;
    let post_dai = trader.amt_dai;

    assert_eq!(og_eth > post, true);
    assert_eq!(post_dai > og_dai, true);
    assert_eq!(receipt.amount_in, 7366980886764);
    assert_eq!(receipt.amount_out, 6857619344301);
    assert_eq!(og_eth - post, 7366980886764);
    assert_eq!(post_dai - og_dai, 6857619344301);
    assert_eq!(pool.tick(), -86000);
    assert_eq!(pool.sqrt_price_x96(), tick_to_price(-86000).unwrap());
    assert_eq!(pool.liquidity(), 0);
}

#[test]
fn test_swap_dai() {
    let (mut trader, mut pool) = set_up_pool(true, -86000, 86000, 10000000000000);
    let og_eth = trader.amt_eth;
    let og_dai = trader.amt_dai;

    let receipt = v3_swap(&mut trader, &mut pool, Token::Dai, 100 * UNIT, 30_000).unwrap();

    let post = trader.amt_eth;
    let post_dai = trader.amt_dai;

    assert_eq!(og_eth < post, true);
    assert_eq!(post_dai < og_dai, true);
    assert_eq!(receipt.amount_in, 29732728846174);
    assert_eq!(receipt.amount_out, 5535394746);
    assert_eq!(pool.tick(), 86000);
    assert_eq!(pool.sqrt_price_x96(), tick_to_price(86000).unwrap());
    assert_eq!(pool.liquidity(), 20000000000000);
}

#[test]
fn benchmark_search_for_arb() {
    let mut trader = Trader { id: 2, amt_eth: 2000 * UNIT, amt_dai: 10000 * UNIT };
    let mut pool1 = pool_at_5000();
    let mut pool2 = pool_at_5000();

    pool1.mint(&mut trader, -86000, 86000, 100000000000000).unwrap();
    pool2.mint(&mut trader, -86000, 86000, 1000000000000000000).unwrap();

    for _ in 0..20 {
        let delta = random_liquidity_delta();
        assert!(delta == 20000 || delta == -10000);
        pool1.mint(&mut trader, -86000, 86000, delta).unwrap();
        pool2.mint(&mut trader, -86000, 86000, delta).unwrap();
    }

    let b1 = find_optimal_arb(&pool1, &pool2, Token::Eth, 1000000, 100);
    let b2 = find_optimal_arb(&pool2, &pool1, Token::Eth, 1000000, 100);

    // both pools stand at the same price: no round trip gains
    assert_eq!(b1, (0, 0));
    assert_eq!(b2, (0, 0));
    assert!(calc_two_pool_arb_profit(b1.0, &pool1, &pool2, Token::Eth) <= 0);
    assert!(calc_two_pool_arb_profit(b1.0, &pool2, &pool1, Token::Eth) <= 0);
    assert_eq!(pool1.tick(), 85176);
    assert_eq!(pool2.tick(), 85176);
}

#[test]
fn mint_with_too_small_balances_is_rejected() {
    let mut trader = Trader { id: 2, amt_eth: 2000, amt_dai: 10000 };
    let mut pool = pool_at_5000();

    let minted = pool.mint(&mut trader, 84222, 86129, 1517882343751509868544);

    assert_eq!(minted, Err(PoolError::InsufficientBalance));
    assert_eq!(pool.sqrt_price_x96(), Wide::from_u128(5602277097478614198912276234240));
    assert_eq!(pool.liquidity(), 0);
    assert_eq!(trader, Trader { id: 2, amt_eth: 2000, amt_dai: 10000 });
}

#[test]
fn mint_within_narrower_bounds() {
    let mut trader = Trader { id: 2, amt_eth: 2000 * UNIT, amt_dai: 10000 * UNIT };
    let mut pool = UniswapV3Pool::new(
        Token::Eth,
        Token::Dai,
        -886000,
        886000,
        Wide::from_u128(SQRT_PRICE_OF_5000),
        85176,
    )
    .unwrap();
    pool.mint(&mut trader, 84222, 86129, 1517882343751509868544).unwrap();
    assert_eq!(pool.sqrt_price_x96(), Wide::from_u128(SQRT_PRICE_OF_5000));
    assert_eq!(pool.tick(), 85176);
    assert_eq!(pool.liquidity(), 1517882343751509868544);
    assert_eq!(
        pool.mint(&mut trader, -887000, 86129, 5),
        Err(PoolError::InvalidRange)
    );
}

fn priced_pool(tick: i32, liquidity: i128) -> UniswapV3Pool {
    let mut owner = Trader { id: 7, amt_eth: UNIT * UNIT, amt_dai: UNIT * UNIT };
    let mut pool = UniswapV3Pool::new(
        Token::Eth,
        Token::Dai,
        get_min_tick(),
        get_max_tick(),
        tick_to_price(tick).unwrap(),
        tick,
    )
    .unwrap();
    pool.mint(&mut owner, 80000, 90000, liquidity).unwrap();
    pool
}

#[test]
fn arbitrage_between_two_prices() {
    let liquidity = 1_000_000_000_000_000_000_000_000;
    let mut cheap = pool_at_5000();
    let mut owner = Trader { id: 7, amt_eth: UNIT * UNIT, amt_dai: UNIT * UNIT };
    cheap.mint(&mut owner, 80000, 90000, liquidity).unwrap();
    let dear = priced_pool(86500, liquidity);

    // eth sells for more on the dear pool and is bought back on the cheap one
    let there = find_optimal_arb(&dear, &cheap, Token::Eth, 1000 * UNIT, 100 * UNIT);
    assert_eq!(there, (200000000000000000001, 8401789860814535838));
    assert_eq!(
        calc_two_pool_arb_profit(there.0, &dear, &cheap, Token::Eth),
        8401789860814535838
    );

    // the other way round loses
    let back = find_optimal_arb(&cheap, &dear, Token::Eth, 1000 * UNIT, 100 * UNIT);
    assert_eq!(back, (0, 0));
    assert_eq!(
        calc_two_pool_arb_profit(UNIT, &cheap, &dear, Token::Eth),
        -175870540658013556
    );

    // with dai the cheap pool comes first
    let with_dai = find_optimal_arb(&cheap, &dear, Token::Dai, 1000 * UNIT, 100 * UNIT);
    assert_eq!(with_dai, (900000000000000000001, 66638672396947770030));

    // the pools themselves are as they were
    assert_eq!(cheap.tick(), 85176);
    assert_eq!(dear.tick(), 86500);
    assert_eq!(cheap.balance_0(), 3030639446709917627130);
    assert_eq!(dear.balance_1(), 20961942450601104789535017);
}

#[test]
fn search_stays_within_its_bounds() {
    let liquidity = 1_000_000_000_000_000_000_000_000;
    let cheap = priced_pool(85176, liquidity);
    let dear = priced_pool(86500, liquidity);
    for (max, step) in [(0u128, 5u128), (1, 1), (1000 * UNIT, 0), (5 * UNIT, UNIT), (1000, 3)] {
        let (amount, profit) = find_optimal_arb(&dear, &cheap, Token::Eth, max, step);
        assert!(amount <= max);
        if amount == 0 {
            assert_eq!(profit, 0);
        } else {
            assert!(profit > 0);
            assert_eq!(profit, calc_two_pool_arb_profit(amount, &dear, &cheap, Token::Eth));
        }
    }
    // a step of zero tries the floor alone
    assert_eq!(find_optimal_arb(&dear, &cheap, Token::Eth, 1000 * UNIT, 0), (0, 0));
    assert_eq!(find_optimal_arb(&dear, &cheap, Token::Eth, 0, 5), (0, 0));
    assert_eq!(
        find_optimal_arb(&dear, &cheap, Token::Eth, 5 * UNIT, UNIT).0,
        4 * UNIT + 1
    );
}
