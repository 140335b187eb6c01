use arbitrage::math::{
    calc_amount0, calc_amount1, calc_price_diff, compute_swap_step, get_max_tick, get_min_tick,
    get_next_sqrt_price_from_input, get_q96, liquidity0, liquidity1, price_in_range,
    price_to_sqrtp, SwapStep,
};
use arbitrage::tick_math::{highest_price, lowest_price, price_to_tick, tick_to_price};
use arbitrage::wide::Wide;

const P_5000: u128 = 5602277097478614198912276234240;
const P_84222: u128 = 5341283623238412454468334390110;
const P_86129: u128 = 5875617940067453351313928271749;
const LIQUIDITY: u128 = 1517882343751509868544;

fn w(x: u128) -> Wide {
    Wide::from_u128(x)
}

#[test]
fn price_to_sqrt_price() {
    assert_eq!(price_to_sqrtp(5000).to_u128().unwrap() as f64, 5.602277097478614e30);
    assert_eq!(price_to_sqrtp(5000), w(5602277097478613991873193822745));
    assert_eq!(price_to_sqrtp(1), w(79228162514264337593543950336));
    assert_eq!(price_to_sqrtp(0), w(0));
    assert_eq!(price_to_sqrtp(2), w(112045541949572279837463876454));
    assert_eq!(price_to_sqrtp(u128::MAX), Wide::from_parts(4294967295, 340282366920938463463374607429620727807));
}

#[test]
fn constants() {
    assert_eq!(get_min_tick(), -887272);
    assert_eq!(get_max_tick(), 887272);
    assert_eq!(get_max_tick(), -get_min_tick());
    assert_eq!(get_q96(), 79228162514264337593543950336);
    assert_eq!(get_q96(), 1u128 << 96);
}

#[test]
fn tick_to_price_values() {
    assert_eq!(tick_to_price(0), Some(w(1 << 96)));
    assert_eq!(tick_to_price(1), Some(w(79232123823359799118734030362)));
    assert_eq!(tick_to_price(-1), Some(w(79224201403219477176379185645)));
    assert_eq!(tick_to_price(100), Some(w(79625275426524748796585542667)));
    assert_eq!(tick_to_price(-100), Some(w(78833030112140176579847676749)));
    assert_eq!(tick_to_price(84222), Some(w(P_84222)));
    assert_eq!(tick_to_price(86129), Some(w(P_86129)));
    assert_eq!(tick_to_price(85176), Some(w(5602223755577321903527006374619)));
    assert_eq!(tick_to_price(85177), Some(w(5602503859762671192284709061461)));
    assert_eq!(tick_to_price(-86000), Some(w(1075243135520052528407716731)));
    assert_eq!(tick_to_price(443636), Some(w(340275971719517849909044336304097910000)));
    assert_eq!(tick_to_price(get_min_tick()), Some(w(4295128738)));
    assert_eq!(tick_to_price(get_min_tick() + 1), Some(w(4295343489)));
    assert_eq!(
        tick_to_price(get_max_tick()),
        Some(Wide::from_parts(4294805859, 318775800654411385251119188041820585166))
    );
    assert_eq!(tick_to_price(get_min_tick()), Some(lowest_price()));
    assert_eq!(tick_to_price(get_max_tick()), Some(highest_price()));
}

#[test]
fn tick_to_price_rejects_ticks_out_of_bounds() {
    assert_eq!(tick_to_price(get_min_tick() - 1), None);
    assert_eq!(tick_to_price(get_max_tick() + 1), None);
    assert_eq!(tick_to_price(i32::MIN), None);
    assert_eq!(tick_to_price(i32::MAX), None);
}

#[test]
fn tick_to_price_is_strictly_increasing() {
    let ticks = [
        -887272, -887271, -500000, -86000, -2, -1, 0, 1, 2, 85176, 85177, 443636, 443637, 887271,
        887272,
    ];
    for pair in ticks.windows(2) {
        let low = tick_to_price(pair[0]).unwrap();
        let high = tick_to_price(pair[1]).unwrap();
        assert!(low.lt(&high));
        assert_eq!(low.rank_against(&high), -1);
    }
}

#[test]
fn every_tick_raises_the_price_by_the_root_of_one_basis_point() {
    let mut ticks = vec![-887272, -887271, -443636, -86000, -1, 0, 1, 85176, 443636, 887270, 887271];
    for tick in (-880000..880000).step_by(7919) {
        ticks.push(tick);
    }
    for tick in ticks {
        let here = tick_to_price(tick).unwrap();
        let next = tick_to_price(tick + 1).unwrap();
        let scaled = next.mul(&w(1_000_000_000));
        assert!(here.mul(&w(1_000_049_998)).le(&scaled));
        assert!(scaled.le(&here.mul(&w(1_000_050_000))));
    }
}

fn as_float(price: &Wide) -> f64 {
    match price.to_u128() {
        Some(small) => small as f64,
        None => price.shr_limb().to_u128().unwrap() as f64 * 18446744073709551616.0,
    }
}

#[test]
fn sqrt_price_is_the_power_of_the_root_of_one_basis_point() {
    let unit = 79228162514264337593543950336.0_f64;
    let mut ticks = vec![-887272, -443636, -86000, -100, -1, 0, 1, 100, 85176, 443636, 887272];
    for tick in (-887000..887000).step_by(10007) {
        ticks.push(tick);
    }
    for tick in ticks {
        let price = as_float(&tick_to_price(tick).unwrap());
        let expected = 1.0001_f64.powf(tick as f64 / 2.0) * unit;
        let error = (price - expected).abs() / expected;
        assert!(error < 1e-9, "tick {}: {} against {}", tick, price, expected);
    }
}

#[test]
fn price_to_tick_undoes_tick_to_price() {
    for tick in [-887272, -887271, -443636, -86000, -1, 0, 1, 84222, 85176, 86129, 443637, 887271, 887272] {
        let price = tick_to_price(tick).unwrap();
        assert_eq!(price_to_tick(&price), Some(tick));
    }
}

#[test]
fn price_to_tick_rounds_down() {
    assert_eq!(price_to_tick(&w(P_5000)), Some(85176));
    assert_eq!(price_to_tick(&w(5602503859762671192284709061461 - 1)), Some(85176));
    assert_eq!(price_to_tick(&w(5602503859762671192284709061461)), Some(85177));
    assert_eq!(price_to_tick(&w((1 << 96) - 1)), Some(-1));
    assert_eq!(price_to_tick(&w(4295128738 + 1)), Some(-887272));
    let below_highest = highest_price().sub(&w(1));
    assert_eq!(price_to_tick(&below_highest), Some(887271));
    // the price of the tick found is never above the price asked for
    for price in [w(P_5000), w(1 << 96), w(12345678901234567890), below_highest] {
        let tick = price_to_tick(&price).unwrap();
        assert!(tick_to_price(tick).unwrap().le(&price));
        assert!(price.lt(&tick_to_price(tick + 1).unwrap()));
    }
}

#[test]
fn price_to_tick_rejects_prices_out_of_range() {
    assert_eq!(price_to_tick(&w(4295128737)), None);
    assert_eq!(price_to_tick(&w(0)), None);
    assert_eq!(price_to_tick(&highest_price().add(&w(1))), None);
    assert!(!price_in_range(&w(4295128737)));
    assert!(price_in_range(&w(4295128738)));
    assert!(price_in_range(&highest_price()));
    assert!(!price_in_range(&highest_price().add(&w(1))));
}

#[test]
fn amounts_of_a_liquidity() {
    assert_eq!(calc_amount0(LIQUIDITY, &w(P_5000), &w(P_86129)), Some(998628802115141959));
    assert_eq!(calc_amount1(LIQUIDITY, &w(P_84222), &w(P_5000)), Some(5000209190920489519477));
    assert_eq!(calc_amount0(LIQUIDITY, &w(P_84222), &w(P_86129)), Some(2047536121360322023));
    assert_eq!(calc_amount1(LIQUIDITY, &w(P_84222), &w(P_86129)), Some(10236973816340910199614));
    assert_eq!(calc_amount0(LIQUIDITY, &w(P_5000), &w(P_5000)), Some(0));
    assert_eq!(calc_amount1(LIQUIDITY, &w(P_5000), &w(P_5000)), Some(0));
    assert_eq!(calc_amount0(0, &w(P_84222), &w(P_86129)), Some(0));
    assert_eq!(calc_amount1(0, &w(P_84222), &w(P_86129)), Some(0));
    assert_eq!(
        calc_amount1(1 << 60, &lowest_price(), &highest_price()),
        Some(21266848539892963938696922285611832126)
    );
}

#[test]
fn amounts_do_not_depend_on_the_order_of_the_prices() {
    assert_eq!(
        calc_amount0(LIQUIDITY, &w(P_86129), &w(P_5000)),
        calc_amount0(LIQUIDITY, &w(P_5000), &w(P_86129))
    );
    assert_eq!(calc_amount0(LIQUIDITY, &w(P_86129), &w(P_5000)), Some(998628802115141959));
    assert_eq!(
        calc_amount1(LIQUIDITY, &w(P_5000), &w(P_84222)),
        calc_amount1(LIQUIDITY, &w(P_84222), &w(P_5000))
    );
    assert_eq!(calc_amount1(LIQUIDITY, &w(P_5000), &w(P_84222)), Some(5000209190920489519477));
}

#[test]
fn amounts_are_refused_for_bad_prices_and_where_they_do_not_fit() {
    assert_eq!(calc_amount0(LIQUIDITY, &w(0), &w(P_5000)), None);
    assert_eq!(calc_amount0(LIQUIDITY, &w(P_5000), &w(1)), None);
    assert_eq!(calc_amount1(LIQUIDITY, &w(0), &w(P_5000)), None);
    assert_eq!(calc_amount1(LIQUIDITY, &w(P_5000), &highest_price().add(&w(1))), None);
    assert_eq!(calc_amount0(u128::MAX, &lowest_price(), &highest_price()), None);
    assert_eq!(calc_amount1(u128::MAX, &lowest_price(), &highest_price()), None);
}

#[test]
fn next_price_from_input() {
    assert_eq!(
        get_next_sqrt_price_from_input(&w(P_5000), LIQUIDITY, 1_000_000_000_000_000_000, true),
        Some(w(5352911270537635590452592457547))
    );
    assert_eq!(
        get_next_sqrt_price_from_input(&w(P_5000), LIQUIDITY, 42_000_000_000_000_000_000, false),
        Some(w(5604469350942327889444743441197))
    );
    assert_eq!(get_next_sqrt_price_from_input(&w(P_5000), LIQUIDITY, 0, true), Some(w(P_5000)));
    assert_eq!(get_next_sqrt_price_from_input(&w(P_5000), LIQUIDITY, 0, false), Some(w(P_5000)));
}

#[test]
fn next_price_is_refused_without_liquidity_or_out_of_range() {
    assert_eq!(get_next_sqrt_price_from_input(&w(P_5000), 0, 5, true), None);
    assert_eq!(get_next_sqrt_price_from_input(&w(P_5000), 0, 5, false), None);
    assert_eq!(get_next_sqrt_price_from_input(&w(0), LIQUIDITY, 5, true), None);
    let near_top = highest_price().sub(&w(5));
    assert_eq!(get_next_sqrt_price_from_input(&near_top, 1, 1, false), None);
    let near_bottom = lowest_price().add(&w(1));
    assert_eq!(
        get_next_sqrt_price_from_input(&near_bottom, 1, 1_000_000_000_000_000_000_000_000_000_000, true),
        None
    );
}

#[test]
fn one_swap_step() {
    // token1 in, the input does not reach the target
    assert_eq!(
        compute_swap_step(&w(P_5000), &w(P_86129), LIQUIDITY, 42_000_000_000_000_000_000),
        Some(SwapStep {
            sqrt_price_next: w(5604469350942327889444743441197),
            amount_in: 41999999999999999999,
            amount_out: 8396714242162444,
        })
    );
    // token0 in, the input does not reach the target
    assert_eq!(
        compute_swap_step(&w(P_5000), &w(P_84222), LIQUIDITY, 1_000_000_000_000_000_000),
        Some(SwapStep {
            sqrt_price_next: w(5352911270537635590452592457547),
            amount_in: 999999999999999999,
            amount_out: 4777442437599874425735,
        })
    );
    // token0 in, the input reaches the target
    assert_eq!(
        compute_swap_step(
            &w(P_5000),
            &w(P_84222),
            LIQUIDITY,
            1_000_000_000_000_000_000_000_000_000_000
        ),
        Some(SwapStep {
            sqrt_price_next: w(P_84222),
            amount_in: 1048907319245180063,
            amount_out: 5000209190920489519477,
        })
    );
}

#[test]
fn swap_step_edge_cases() {
    assert_eq!(
        compute_swap_step(&w(P_5000), &w(P_5000), LIQUIDITY, 100),
        Some(SwapStep { sqrt_price_next: w(P_5000), amount_in: 0, amount_out: 0 })
    );
    assert_eq!(
        compute_swap_step(&w(P_5000), &w(P_84222), 0, 100),
        Some(SwapStep { sqrt_price_next: w(P_84222), amount_in: 0, amount_out: 0 })
    );
    assert_eq!(
        compute_swap_step(&w(P_5000), &w(P_84222), LIQUIDITY, 0),
        Some(SwapStep { sqrt_price_next: w(P_5000), amount_in: 0, amount_out: 0 })
    );
    assert_eq!(compute_swap_step(&w(0), &w(P_84222), LIQUIDITY, 100), None);
    assert_eq!(compute_swap_step(&w(P_5000), &w(1), LIQUIDITY, 100), None);
    // the output does not fit
    assert_eq!(
        compute_swap_step(&highest_price(), &lowest_price(), u128::MAX, u128::MAX),
        None
    );
}

#[test]
fn a_step_never_takes_more_than_remains() {
    for remaining in [0u128, 1, 2, 999, 1_000_000_007, 1_000_000_000_000_000_000] {
        for target in [P_84222, P_86129] {
            let step = compute_swap_step(&w(P_5000), &w(target), LIQUIDITY, remaining).unwrap();
            assert!(step.amount_in <= remaining);
        }
    }
}

#[test]
fn liquidity_of_amounts() {
    assert_eq!(
        liquidity0(1_000_000_000_000_000_000, &w(P_5000), &w(P_86129)),
        Some(1519966518626906121709)
    );
    assert_eq!(
        liquidity0(1_000_000_000_000_000_000, &w(P_86129), &w(P_5000)),
        Some(1519966518626906121709)
    );
    assert_eq!(
        liquidity1(5_000_000_000_000_000_000_000, &w(P_5000), &w(P_84222)),
        Some(1517818840967414206753)
    );
    assert_eq!(
        liquidity1(5_000_000_000_000_000_000_000, &w(P_84222), &w(P_5000)),
        Some(1517818840967414206753)
    );
    assert_eq!(liquidity0(5, &w(P_5000), &w(P_5000)), None);
    assert_eq!(liquidity1(5, &w(P_5000), &w(P_5000)), None);
    assert_eq!(liquidity0(5, &w(0), &w(P_5000)), None);
    assert_eq!(liquidity1(u128::MAX, &w(P_5000), &w(P_5000 + 1)), None);
}

#[test]
fn price_difference_of_an_input() {
    assert_eq!(
        calc_price_diff(42_000_000_000_000_000_000, LIQUIDITY),
        Some(w(2192253463713690532467206957))
    );
    assert_eq!(calc_price_diff(0, LIQUIDITY), Some(w(0)));
    assert_eq!(calc_price_diff(5, 0), None);
    assert_eq!(calc_price_diff(u128::MAX, 1), Some(Wide::from_parts((1 << 96) - 1, u128::MAX << 96)));
}

#[test]
fn wide_arithmetic() {
    let a = Wide::from_parts(7, 9);
    let b = w(u128::MAX);
    assert_eq!(a.add(&b), Wide::from_parts(8, 8));
    assert_eq!(a.sub(&b), Wide::from_parts(6, 10));
    assert_eq!(b.abs_diff(&a), Wide::from_parts(6, 10));
    assert_eq!(a.abs_diff(&b), Wide::from_parts(6, 10));
    assert_eq!(b.mul(&b), Wide::from_parts(u128::MAX - 1, 1));
    assert_eq!(b.mul(&b).div_rem(&b), (b, w(0)));
    assert_eq!(w(1000).div_rem(&w(7)), (w(142), w(6)));
    assert_eq!(w(6).div_rem(&w(7)), (w(0), w(6)));
    assert_eq!(a.div_rem(&w(1 << 64)), (Wide::from_parts(0, 7 << 64), w(9)));
    assert_eq!(a.to_u128(), None);
    assert_eq!(b.to_u128(), Some(u128::MAX));
    assert_eq!(Wide::zero().to_u128(), Some(0));
    assert!(Wide::zero().is_zero());
    assert!(!a.is_zero());
    assert_eq!(a.rank_against(&b), 1);
    assert_eq!(b.rank_against(&a), -1);
    assert_eq!(a.rank_against(&a), 0);
    assert!(b.lt(&a) && b.le(&a) && !a.le(&b) && a.equals(&a) && !a.equals(&b));
    assert_eq!(w(3).mul_small(5), (w(15), 0));
    assert_eq!(a.shl_limb(), (Wide::from_parts(7 << 64, 9 << 64), 0));
    assert_eq!(a.shr_limb(), w(7 << 64));
    assert_eq!(a.add_with_carry(&b, true), (Wide::from_parts(8, 9), false));
    assert_eq!(w(5).sub_with_borrow(&w(5)), (w(0), false));
    assert!(w(4).sub_with_borrow(&w(5)).1);
}

#[test]
fn wide_arithmetic_at_the_top() {
    // (2^256 - 1) * 2^128
    let top = Wide::from_parts(u128::MAX, u128::MAX).mul(&Wide::from_parts(1, 0));
    let (sum, carry) = top.add_with_carry(&top, true);
    assert!(!carry);
    assert_eq!(sum.div_rem(&w(2)), (top, w(1)));
    let (once, over) = top.shl_limb();
    assert_eq!(over, 0);
    assert_eq!(once.shr_limb(), top);
    // 2^512 - 2^256
    let (twice, over) = once.shl_limb();
    assert_eq!(over, 0);
    // 2^576 - 2^320 runs over by 2^64 - 1 and leaves 2^512 - 2^320
    let (thrice, over) = twice.shl_limb();
    assert_eq!(over, u64::MAX);
    assert_eq!(
        thrice.shr_limb().shr_limb().shr_limb().shr_limb().shr_limb(),
        Wide::from_parts((1 << 64) - 1, u128::MAX)
    );
    let (doubled, carry) = twice.add_with_carry(&twice, false);
    assert!(carry);
    assert_eq!(doubled.div_rem(&twice), (w(0), doubled));
    // three times 2^512 - 2^256 is 2 * 2^512 + (2^512 - 3 * 2^256)
    let (product, spill) = twice.mul_small(3);
    assert_eq!(spill, 2);
    let (diff, borrow) = twice.sub_with_borrow(&product);
    assert!(!borrow);
    assert_eq!(diff.shr_limb().shr_limb().shr_limb().shr_limb(), w(2));
    let (wrapped, borrow) = product.sub_with_borrow(&twice);
    assert!(borrow);
    assert_eq!(wrapped.add_with_carry(&diff, false), (w(0), true));
}
