//! Fixed-point arithmetic of the pool: the constants, the amounts of the two
//! tokens that a liquidity holds between two sqrt prices, the price that an
//! exact input leads to, and one step of a swap.
//!
//! Sqrt prices are Q96 values, amounts and liquidity are integers, and every
//! division rounds down unless a function says otherwise.

use crate::tick_math::{valid_price, highest_price, lowest_price};
use crate::wide::{lemma_pow64_values, limit, Wide};
use vstd::arithmetic::div_mod::{
    lemma_div_denominator, lemma_div_is_ordered, lemma_div_multiples_vanish,
    lemma_fundamental_div_mod,
};
use vstd::prelude::*;

verus! {

/// The lowest tick that a pool can use.
pub const MIN_TICK: i32 = -887272;

/// The highest tick that a pool can use.
pub const MAX_TICK: i32 = 887272;

/// The fixed-point unit of sqrt prices: 2^96.
pub const Q96: u128 = 0x1_0000_0000_0000_0000_0000_0000;

/// The lowest tick that a pool can use.
pub fn get_min_tick() -> (r: i32)
    ensures
        r == MIN_TICK,
        r == -887272,
{
    MIN_TICK
}

/// The highest tick that a pool can use: the lowest one mirrored.
pub fn get_max_tick() -> (r: i32)
    ensures
        r == MAX_TICK,
        r == 887272,
{
    -MIN_TICK
}

/// The fixed-point unit of sqrt prices: 2^96.
pub fn get_q96() -> (r: u128)
    ensures
        r == Q96,
        r == q96(),
{
    Q96
}

/// The fixed-point unit as a number.
pub open spec fn q96() -> nat {
    0x1_0000_0000_0000_0000_0000_0000
}

/// The distance between two numbers.
pub open spec fn distance(a: nat, b: nat) -> nat {
    if a >= b {
        (a - b) as nat
    } else {
        (b - a) as nat
    }
}

/// The quotient rounded up.
pub open spec fn div_ceil(a: nat, b: nat) -> nat {
    if a % b == 0 {
        a / b
    } else {
        a / b + 1
    }
}

/// The amount of token0 that `liquidity` holds between the sqrt prices `pa`
/// and `pb`, whichever of the two is the higher: `liquidity * 2^96 * |pb - pa|
/// / (pa * pb)`.
pub open spec fn amount0(liquidity: nat, pa: nat, pb: nat) -> nat {
    liquidity * q96() * distance(pa, pb) / pa / pb
}

/// The amount of token1 that `liquidity` holds between the sqrt prices `pa`
/// and `pb`: `liquidity * |pb - pa| / 2^96`.
pub open spec fn amount1(liquidity: nat, pa: nat, pb: nat) -> nat {
    liquidity * distance(pa, pb) / q96()
}

/// The sqrt price that an exact input of `amount` leads to from `price` at a
/// constant `liquidity`. Token0 comes in where `zero_for_one` holds and the
/// price falls to `liquidity * 2^96 * price / (liquidity * 2^96 + amount *
/// price)`, rounded up; else token1 comes in and the price rises by `amount *
/// 2^96 / liquidity`.
pub open spec fn next_sqrt_price(price: nat, liquidity: nat, amount: nat, zero_for_one: bool) -> nat {
    if zero_for_one {
        div_ceil(liquidity * q96() * price, liquidity * q96() + amount * price)
    } else {
        price + amount * q96() / liquidity
    }
}

/// What one step of a swap does.
#[derive(Clone, Copy, Debug, PartialEq, Eq)]
pub struct SwapStep {
    /// The sqrt price after the step.
    pub sqrt_price_next: Wide,
    /// The amount of the input token that the step takes.
    pub amount_in: u128,
    /// The amount of the output token that the step gives.
    pub amount_out: u128,
}

/// The price after one step, the input that it takes and the output that it gives.
pub struct StepAmounts {
    /// The sqrt price after the step.
    pub next: nat,
    /// The amount of the input token that the step takes.
    pub amount_in: nat,
    /// The amount of the output token that the step gives.
    pub amount_out: nat,
}

/// One step of a swap from `current` towards `target` with at most `remaining`
/// of the input token. The price falls, and token0 is the input, where
/// `current` is not below `target`. The step ends at `target` where `remaining`
/// covers the input that the way there takes, else where `remaining` leads to.
/// Both amounts follow from the two ends of the step.
pub open spec fn swap_step(current: nat, target: nat, liquidity: nat, remaining: nat) -> StepAmounts {
    let zero_for_one = current >= target;
    let needed = if zero_for_one {
        amount0(liquidity, current, target)
    } else {
        amount1(liquidity, current, target)
    };
    let next = if remaining >= needed {
        target
    } else {
        next_sqrt_price(current, liquidity, remaining, zero_for_one)
    };
    let of_token0 = amount0(liquidity, current, next);
    let of_token1 = amount1(liquidity, current, next);
    if zero_for_one {
        StepAmounts { next, amount_in: of_token0, amount_out: of_token1 }
    } else {
        StepAmounts { next, amount_in: of_token1, amount_out: of_token0 }
    }
}

/// `amount0` does not depend on the order of its two prices.
pub proof fn lemma_amount0_symmetric(liquidity: nat, pa: nat, pb: nat)
    requires
        pa > 0,
        pb > 0,
    ensures
        amount0(liquidity, pa, pb) == amount0(liquidity, pb, pa),
{
    let x = (liquidity * q96() * distance(pa, pb)) as int;
    lemma_div_denominator(x, pa as int, pb as int);
    lemma_div_denominator(x, pb as int, pa as int);
    assert(pa * pb == pb * pa) by (nonlinear_arith);
}

/// `amount1` does not depend on the order of its two prices.
pub proof fn lemma_amount1_symmetric(liquidity: nat, pa: nat, pb: nat)
    ensures
        amount1(liquidity, pa, pb) == amount1(liquidity, pb, pa),
{
}

/// No liquidity holds no tokens.
pub proof fn lemma_amounts_of_no_liquidity(pa: nat, pb: nat)
    requires
        pa > 0,
        pb > 0,
    ensures
        amount0(0, pa, pb) == 0,
        amount1(0, pa, pb) == 0,
{
    let d = distance(pa, pb);
    assert(0 * q96() * d == 0) by (nonlinear_arith);
    assert(0 * d == 0) by (nonlinear_arith);
    assert(0nat / pa == 0) by (nonlinear_arith)
        requires
            pa > 0,
    ;
    assert(0nat / pb == 0) by (nonlinear_arith)
        requires
            pb > 0,
    ;
}

proof fn lemma_div_ceil_at_most(a: nat, b: nat, t: nat)
    requires
        b > 0,
        a <= t * b,
    ensures
        div_ceil(a, b) <= t,
{
    let q = (a / b) as int;
    let r = (a % b) as int;
    lemma_fundamental_div_mod(a as int, b as int);
    assert(q < t || (q == t && r == 0)) by (nonlinear_arith)
        requires
            a == b * q + r,
            0 <= r < b,
            a <= t * b,
            b > 0,
    ;
}

proof fn lemma_div_ceil_covers(a: nat, b: nat)
    requires
        b > 0,
    ensures
        div_ceil(a, b) * b >= a,
{
    let q = (a / b) as int;
    let r = (a % b) as int;
    lemma_fundamental_div_mod(a as int, b as int);
    assert(0 <= r < b);
    if r == 0 {
        assert(q * b == b * q) by (nonlinear_arith);
    } else {
        assert((q + 1) * b == b * q + b) by (nonlinear_arith);
    }
}

/// A number of at most `x * p * t` gives at most `x` when divided by `p` and by `t`.
proof fn lemma_two_divisions_at_most(a: nat, p: nat, t: nat, x: nat)
    requires
        p > 0,
        t > 0,
        a <= x * p * t,
    ensures
        a / p / t <= x,
{
    assert(x * p * t == p * (x * t)) by (nonlinear_arith);
    lemma_div_is_ordered(a as int, (p * (x * t)) as int, p as int);
    lemma_div_multiples_vanish((x * t) as int, p as int);
    assert(a / p <= x * t);
    assert(x * t == t * x) by (nonlinear_arith);
    lemma_div_is_ordered((a / p) as int, (t * x) as int, t as int);
    lemma_div_multiples_vanish(x as int, t as int);
}

/// Where the input does not reach `target` on the way down, the next price
/// lies above `target` and not above `price`, and the way there takes no more
/// than the input.
pub proof fn lemma_next_price_down(price: nat, target: nat, liquidity: nat, amount: nat)
    requires
        0 < target <= price,
        amount < amount0(liquidity, price, target),
    ensures
        target < next_sqrt_price(price, liquidity, amount, true) <= price,
        amount0(liquidity, price, next_sqrt_price(price, liquidity, amount, true)) <= amount,
{
    if liquidity == 0 {
        lemma_amounts_of_no_liquidity(price, target);
    }
    let a = liquidity * q96();
    assert(a > 0) by (nonlinear_arith)
        requires
            a == liquidity * q96(),
            liquidity > 0,
            q96() > 0,
    ;
    let xp = amount * price;
    let den = a + xp;
    let num = a * price;
    let next = div_ceil(num, den);
    assert(next == next_sqrt_price(price, liquidity, amount, true));
    assert(num <= price * den) by (nonlinear_arith)
        requires
            num == a * price,
            den == a + xp,
            xp >= 0,
            price >= 0,
    ;
    lemma_div_ceil_at_most(num, den, price);
    lemma_div_ceil_covers(num, den);
    if next <= target {
        assert(a * (price - target) <= amount * price * target) by (nonlinear_arith)
            requires
                next * den >= num,
                next <= target,
                num == a * price,
                den == a + xp,
                xp == amount * price,
                den > 0,
                target <= price,
        ;
        assert(distance(price, target) == price - target);
        lemma_two_divisions_at_most(a * distance(price, target), price, target, amount);
        assert(false);
    }
    assert(a * (price - next) <= amount * price * next) by (nonlinear_arith)
        requires
            next * den >= num,
            num == a * price,
            den == a + xp,
            xp == amount * price,
            next <= price,
    ;
    assert(distance(price, next) == price - next);
    lemma_two_divisions_at_most(a * distance(price, next), price, next, amount);
}

/// Where the input does not reach `target` on the way up, the next price lies
/// below `target` and not below `price`, and the way there takes no more than
/// the input.
pub proof fn lemma_next_price_up(price: nat, target: nat, liquidity: nat, amount: nat)
    requires
        price <= target,
        amount < amount1(liquidity, price, target),
    ensures
        price <= next_sqrt_price(price, liquidity, amount, false) < target,
        amount1(liquidity, price, next_sqrt_price(price, liquidity, amount, false)) <= amount,
{
    if liquidity == 0 {
        assert(0 * distance(price, target) == 0) by (nonlinear_arith);
    }
    let xq = amount * q96();
    let k = xq / liquidity;
    let next = price + k;
    assert(next == next_sqrt_price(price, liquidity, amount, false));
    lemma_fundamental_div_mod(xq as int, liquidity as int);
    assert(liquidity * k <= xq) by (nonlinear_arith)
        requires
            xq == liquidity * k + (xq % liquidity),
            xq % liquidity >= 0,
    ;
    assert(distance(price, target) == target - price);
    if k >= target - price {
        assert(liquidity * (target - price) <= xq) by (nonlinear_arith)
            requires
                liquidity * k <= xq,
                k >= target - price,
                target - price >= 0,
        ;
        assert(false);
    }
    assert(distance(price, next) == k);
}

/// A step takes no more than the input that remains, and it ends between the
/// price it started at and its target.
pub proof fn lemma_swap_step_bounds(current: nat, target: nat, liquidity: nat, remaining: nat)
    requires
        current > 0,
        target > 0,
    ensures
        swap_step(current, target, liquidity, remaining).amount_in <= remaining,
        current >= target ==> target <= swap_step(current, target, liquidity, remaining).next
            <= current,
        current < target ==> current <= swap_step(current, target, liquidity, remaining).next
            <= target,
{
    if current >= target {
        if remaining < amount0(liquidity, current, target) {
            lemma_next_price_down(current, target, liquidity, remaining);
        }
    } else {
        if remaining < amount1(liquidity, current, target) {
            lemma_next_price_up(current, target, liquidity, remaining);
        }
    }
}

/// Whether `price` lies between the prices of the lowest and the highest tick.
pub fn price_in_range(price: &Wide) -> (r: bool)
    ensures
        r == valid_price(price@),
{
    let lowest = lowest_price();
    let highest = highest_price();
    lowest.le(price) && price.le(&highest)
}

/// `liquidity * 2^96 * |pb - pa|` for two valid prices.
fn scaled_liquidity_times_distance(liquidity: u128, pa: &Wide, pb: &Wide) -> (r: Wide)
    requires
        valid_price(pa@),
        valid_price(pb@),
    ensures
        r@ == liquidity * q96() * distance(pa@, pb@),
{
    let scaled = scaled_liquidity(liquidity);
    let d = pa.abs_diff(pb);
    proof {
        lemma_pow64_values();
        let s = scaled@ as int;
        let dv = d@ as int;
        assert(s * dv < 0x1_0000_0000_0000_0000_0000_0000_0000_0000_0000_0000_0000_0000_0000_0000nat
            * 0x1_0000_0000_0000_0000_0000_0000_0000_0000_0000_0000nat) by (nonlinear_arith)
            requires
                0 <= s < 0x1_0000_0000_0000_0000_0000_0000_0000_0000_0000_0000_0000_0000_0000_0000nat,
                0 <= dv < 0x1_0000_0000_0000_0000_0000_0000_0000_0000_0000_0000nat,
        ;
    }
    scaled.mul(&d)
}

/// `liquidity * 2^96`.
fn scaled_liquidity(liquidity: u128) -> (r: Wide)
    ensures
        r@ == liquidity * q96(),
        r@ < 0x1_0000_0000_0000_0000_0000_0000_0000_0000_0000_0000_0000_0000_0000_0000nat,
{
    let l = Wide::from_u128(liquidity);
    let q = Wide::from_u128(Q96);
    proof {
        lemma_pow64_values();
    }
    l.mul(&q)
}

/// The amount of token0 that `liq` holds between two sqrt prices, where both
/// are valid prices and the amount fits.
pub fn calc_amount0(liq: u128, pa: &Wide, pb: &Wide) -> (r: Option<u128>)
    ensures
        match r {
            Some(amount) => valid_price(pa@) && valid_price(pb@) && amount == amount0(
                liq as nat,
                pa@,
                pb@,
            ),
            None => !valid_price(pa@) || !valid_price(pb@) || amount0(liq as nat, pa@, pb@)
                > u128::MAX,
        },
{
    if !price_in_range(pa) || !price_in_range(pb) {
        return None;
    }
    let num = scaled_liquidity_times_distance(liq, pa, pb);
    let (first, _) = num.div_rem(pa);
    let (second, _) = first.div_rem(pb);
    second.to_u128()
}

/// The amount of token1 that `liq` holds between two sqrt prices, where both
/// are valid prices and the amount fits.
pub fn calc_amount1(liq: u128, pa: &Wide, pb: &Wide) -> (r: Option<u128>)
    ensures
        match r {
            Some(amount) => valid_price(pa@) && valid_price(pb@) && amount == amount1(
                liq as nat,
                pa@,
                pb@,
            ),
            None => !valid_price(pa@) || !valid_price(pb@) || amount1(liq as nat, pa@, pb@)
                > u128::MAX,
        },
{
    if !price_in_range(pa) || !price_in_range(pb) {
        return None;
    }
    let l = Wide::from_u128(liq);
    let d = pa.abs_diff(pb);
    proof {
        lemma_pow64_values();
        let lv = l@ as int;
        let dv = d@ as int;
        assert(lv * dv < 0x1_0000_0000_0000_0000_0000_0000_0000_0000nat
            * 0x1_0000_0000_0000_0000_0000_0000_0000_0000_0000_0000nat) by (nonlinear_arith)
            requires
                0 <= lv < 0x1_0000_0000_0000_0000_0000_0000_0000_0000nat,
                0 <= dv < 0x1_0000_0000_0000_0000_0000_0000_0000_0000_0000_0000nat,
        ;
    }
    let num = l.mul(&d);
    let q = Wide::from_u128(Q96);
    let (quotient, _) = num.div_rem(&q);
    quotient.to_u128()
}

/// The sqrt price that an exact input of `amount_remaining` leads to, where
/// there is liquidity and both the price before and the price after are valid
/// prices.
pub fn get_next_sqrt_price_from_input(
    sqrt_price_current_x96: &Wide,
    liquidity: u128,
    amount_remaining: u128,
    zero_for_one: bool,
) -> (r: Option<Wide>)
    ensures
        match r {
            Some(next) => liquidity > 0 && valid_price(sqrt_price_current_x96@) && valid_price(
                next@,
            ) && next@ == next_sqrt_price(
                sqrt_price_current_x96@,
                liquidity as nat,
                amount_remaining as nat,
                zero_for_one,
            ),
            None => liquidity == 0 || !valid_price(sqrt_price_current_x96@) || !valid_price(
                next_sqrt_price(
                    sqrt_price_current_x96@,
                    liquidity as nat,
                    amount_remaining as nat,
                    zero_for_one,
                ),
            ),
        },
{
    if liquidity == 0 || !price_in_range(sqrt_price_current_x96) {
        return None;
    }
    let amount = Wide::from_u128(amount_remaining);
    let next = if zero_for_one {
        let scaled = scaled_liquidity(liquidity);
        proof {
            lemma_pow64_values();
            let s = scaled@ as int;
            let p = sqrt_price_current_x96@ as int;
            let x = amount@ as int;
            assert(s * p < 0x1_0000_0000_0000_0000_0000_0000_0000_0000_0000_0000_0000_0000_0000_0000nat
                * 0x1_0000_0000_0000_0000_0000_0000_0000_0000_0000_0000nat) by (nonlinear_arith)
                requires
                    0 <= s < 0x1_0000_0000_0000_0000_0000_0000_0000_0000_0000_0000_0000_0000_0000_0000nat,
                    0 <= p < 0x1_0000_0000_0000_0000_0000_0000_0000_0000_0000_0000nat,
            ;
            assert(x * p < 0x1_0000_0000_0000_0000_0000_0000_0000_0000nat
                * 0x1_0000_0000_0000_0000_0000_0000_0000_0000_0000_0000nat) by (nonlinear_arith)
                requires
                    0 <= x < 0x1_0000_0000_0000_0000_0000_0000_0000_0000nat,
                    0 <= p < 0x1_0000_0000_0000_0000_0000_0000_0000_0000_0000_0000nat,
            ;
            assert(s > 0) by (nonlinear_arith)
                requires
                    s == liquidity * q96(),
                    liquidity > 0,
                    q96() > 0,
            ;
        }
        let num = scaled.mul(sqrt_price_current_x96);
        let product = amount.mul(sqrt_price_current_x96);
        let den = scaled.add(&product);
        let (quotient, rest) = num.div_rem(&den);
        if rest.is_zero() {
            quotient
        } else {
            proof {
                quotient.lemma_bounded();
                let nv = num@ as int;
                let dv = den@ as int;
                assert(nv / dv <= nv) by (nonlinear_arith)
                    requires
                        nv >= 0,
                        dv > 0,
                ;
            }
            let one = Wide::from_u128(1);
            quotient.add(&one)
        }
    } else {
        let q = Wide::from_u128(Q96);
        proof {
            lemma_pow64_values();
        }
        let xq = amount.mul(&q);
        let l = Wide::from_u128(liquidity);
        let (rise, _) = xq.div_rem(&l);
        proof {
            let xv = xq@ as int;
            let lv = l@ as int;
            assert(xv / lv <= xv) by (nonlinear_arith)
                requires
                    xv >= 0,
                    lv > 0,
            ;
        }
        sqrt_price_current_x96.add(&rise)
    };
    if price_in_range(&next) {
        Some(next)
    } else {
        None
    }
}

/// The liquidity that `amount` of token0 gives between the sqrt prices `pa`
/// and `pb`: `amount * (pa * pb) / 2^96 / |pb - pa|`.
pub open spec fn liquidity_of_amount0(amount: nat, pa: nat, pb: nat) -> nat {
    amount * (pa * pb) / q96() / distance(pa, pb)
}

/// The liquidity that `amount` of token1 gives between the sqrt prices `pa`
/// and `pb`: `amount * 2^96 / |pb - pa|`.
pub open spec fn liquidity_of_amount1(amount: nat, pa: nat, pb: nat) -> nat {
    amount * q96() / distance(pa, pb)
}

/// Whether `root` is the sqrt price of `price`: the square root of `price`
/// times 2^96, rounded down.
pub open spec fn is_sqrt_price_of(root: nat, price: nat) -> bool {
    root * root <= price * q96() * q96() < (root + 1) * (root + 1)
}

/// The liquidity that `amount` of token0 gives between two sqrt prices, where
/// both are valid prices, they differ and the liquidity fits.
pub fn liquidity0(amount: u128, pa: &Wide, pb: &Wide) -> (r: Option<u128>)
    ensures
        match r {
            Some(liquidity) => valid_price(pa@) && valid_price(pb@) && pa@ != pb@ && liquidity
                == liquidity_of_amount0(amount as nat, pa@, pb@),
            None => !valid_price(pa@) || !valid_price(pb@) || pa@ == pb@ || liquidity_of_amount0(
                amount as nat,
                pa@,
                pb@,
            ) > u128::MAX,
        },
{
    if !price_in_range(pa) || !price_in_range(pb) || pa.equals(pb) {
        return None;
    }
    let d = pa.abs_diff(pb);
    let x = Wide::from_u128(amount);
    proof {
        lemma_pow64_values();
        let a = pa@ as int;
        let b = pb@ as int;
        let xv = x@ as int;
        assert(a * b < 0x1_0000_0000_0000_0000_0000_0000_0000_0000_0000_0000nat
            * 0x1_0000_0000_0000_0000_0000_0000_0000_0000_0000_0000nat) by (nonlinear_arith)
            requires
                0 <= a < 0x1_0000_0000_0000_0000_0000_0000_0000_0000_0000_0000nat,
                0 <= b < 0x1_0000_0000_0000_0000_0000_0000_0000_0000_0000_0000nat,
        ;
        let ab = a * b;
        assert(xv * ab < 0x1_0000_0000_0000_0000_0000_0000_0000_0000nat
            * 0x1_0000_0000_0000_0000_0000_0000_0000_0000_0000_0000_0000_0000_0000_0000_0000_0000_0000_0000_0000_0000nat)
            by (nonlinear_arith)
            requires
                0 <= xv < 0x1_0000_0000_0000_0000_0000_0000_0000_0000nat,
                0 <= ab
                    < 0x1_0000_0000_0000_0000_0000_0000_0000_0000_0000_0000_0000_0000_0000_0000_0000_0000_0000_0000_0000_0000nat,
        ;
    }
    let product = pa.mul(pb);
    let num = x.mul(&product);
    let q = Wide::from_u128(Q96);
    let (first, _) = num.div_rem(&q);
    let (second, _) = first.div_rem(&d);
    second.to_u128()
}

/// The liquidity that `amount` of token1 gives between two sqrt prices, where
/// both are valid prices, they differ and the liquidity fits.
pub fn liquidity1(amount: u128, pa: &Wide, pb: &Wide) -> (r: Option<u128>)
    ensures
        match r {
            Some(liquidity) => valid_price(pa@) && valid_price(pb@) && pa@ != pb@ && liquidity
                == liquidity_of_amount1(amount as nat, pa@, pb@),
            None => !valid_price(pa@) || !valid_price(pb@) || pa@ == pb@ || liquidity_of_amount1(
                amount as nat,
                pa@,
                pb@,
            ) > u128::MAX,
        },
{
    if !price_in_range(pa) || !price_in_range(pb) || pa.equals(pb) {
        return None;
    }
    let d = pa.abs_diff(pb);
    let x = Wide::from_u128(amount);
    let q = Wide::from_u128(Q96);
    proof {
        lemma_pow64_values();
    }
    let num = x.mul(&q);
    let (quotient, _) = num.div_rem(&d);
    quotient.to_u128()
}

/// The rise of the sqrt price that `amount_in` of token1 brings at
/// `liquidity`: `amount_in * 2^96 / liquidity`, where there is liquidity.
pub fn calc_price_diff(amount_in: u128, liquidity: u128) -> (r: Option<Wide>)
    ensures
        match r {
            Some(rise) => liquidity > 0 && rise@ == (amount_in * q96()) as nat / (liquidity as nat),
            None => liquidity == 0,
        },
{
    if liquidity == 0 {
        return None;
    }
    let x = Wide::from_u128(amount_in);
    let q = Wide::from_u128(Q96);
    proof {
        lemma_pow64_values();
    }
    let num = x.mul(&q);
    let l = Wide::from_u128(liquidity);
    let (rise, _) = num.div_rem(&l);
    Some(rise)
}

/// The sqrt price of `price`: the square root of `price` times 2^96, rounded down.
pub fn price_to_sqrtp(price: u128) -> (r: Wide)
    ensures
        is_sqrt_price_of(r@, price as nat),
{
    let q = Wide::from_u128(Q96);
    let two = Wide::from_u128(2);
    let one = Wide::from_u128(1);
    proof {
        lemma_pow64_values();
        let pq = price * q96();
        assert(pq * q96() < 0x1_0000_0000_0000_0000_0000_0000_0000_0000_0000_0000_0000_0000_0000_0000nat
            * 0x1_0000_0000_0000_0000_0000_0000) by (nonlinear_arith)
            requires
                0 <= pq < 0x1_0000_0000_0000_0000_0000_0000_0000_0000_0000_0000_0000_0000_0000_0000nat,
        ;
    }
    let n = Wide::from_u128(price).mul(&q).mul(&q);
    let mut low = Wide::zero();
    let mut high = Wide::from_parts(0x2_0000_0000, 0);
    proof {
        high.lemma_bounded();
        assert(0nat * 0nat == 0) by (nonlinear_arith);
        assert(high@ == 0x2_0000_0000_0000_0000_0000_0000_0000_0000_0000_0000nat);
        assert(high@ * high@ == 0x2_0000_0000_0000_0000_0000_0000_0000_0000_0000_0000nat
            * 0x2_0000_0000_0000_0000_0000_0000_0000_0000_0000_0000nat);
    }
    while low.add(&one).lt(&high)
        invariant
            one@ == 1,
            two@ == 2,
            n@ == price * q96() * q96(),
            low@ < high@ <= 0x2_0000_0000_0000_0000_0000_0000_0000_0000_0000_0000nat,
            low@ * low@ <= n@ < high@ * high@,
            high@ < limit(),
        decreases high@ - low@,
    {
        proof {
            lemma_pow64_values();
        }
        let (mid, _) = low.add(&high).div_rem(&two);
        proof {
            let m = mid@ as int;
            mid.lemma_bounded();
            assert(low@ < m < high@);
            assert(m * m < 0x2_0000_0000_0000_0000_0000_0000_0000_0000_0000_0000nat
                * 0x2_0000_0000_0000_0000_0000_0000_0000_0000_0000_0000nat) by (nonlinear_arith)
                requires
                    0 <= m < 0x2_0000_0000_0000_0000_0000_0000_0000_0000_0000_0000nat,
            ;
        }
        let square = mid.mul(&mid);
        if square.le(&n) {
            low = mid;
        } else {
            high = mid;
        }
    }
    low
}

/// One step of a swap, where both prices are valid prices and the output fits.
pub fn compute_swap_step(
    sqrt_price_current_x96: &Wide,
    sqrt_price_target_x96: &Wide,
    liquidity: u128,
    amount_remaining: u128,
) -> (r: Option<SwapStep>)
    ensures
        match r {
            Some(step) => {
                let amounts = swap_step(
                    sqrt_price_current_x96@,
                    sqrt_price_target_x96@,
                    liquidity as nat,
                    amount_remaining as nat,
                );
                &&& valid_price(sqrt_price_current_x96@)
                &&& valid_price(sqrt_price_target_x96@)
                &&& valid_price(step.sqrt_price_next@)
                &&& step.sqrt_price_next@ == amounts.next
                &&& step.amount_in == amounts.amount_in
                &&& step.amount_out == amounts.amount_out
                &&& step.amount_in <= amount_remaining
            },
            None => !valid_price(sqrt_price_current_x96@) || !valid_price(sqrt_price_target_x96@)
                || swap_step(
                sqrt_price_current_x96@,
                sqrt_price_target_x96@,
                liquidity as nat,
                amount_remaining as nat,
            ).amount_out > u128::MAX,
        },
{
    if !price_in_range(sqrt_price_current_x96) || !price_in_range(sqrt_price_target_x96) {
        return None;
    }
    let zero_for_one = sqrt_price_target_x96.le(sqrt_price_current_x96);
    let needed = if zero_for_one {
        calc_amount0(liquidity, sqrt_price_current_x96, sqrt_price_target_x96)
    } else {
        calc_amount1(liquidity, sqrt_price_current_x96, sqrt_price_target_x96)
    };
    let reaches = match needed {
        Some(n) => amount_remaining >= n,
        None => false,
    };
    proof {
        lemma_swap_step_bounds(
            sqrt_price_current_x96@,
            sqrt_price_target_x96@,
            liquidity as nat,
            amount_remaining as nat,
        );
        if liquidity == 0 {
            lemma_amounts_of_no_liquidity(sqrt_price_current_x96@, sqrt_price_target_x96@);
        }
    }
    let next = if reaches {
        *sqrt_price_target_x96
    } else {
        get_next_sqrt_price_from_input(
            sqrt_price_current_x96,
            liquidity,
            amount_remaining,
            zero_for_one,
        ).unwrap()
    };
    let of_token0 = calc_amount0(liquidity, sqrt_price_current_x96, &next);
    let of_token1 = calc_amount1(liquidity, sqrt_price_current_x96, &next);
    let (taken, given) = if zero_for_one {
        (of_token0, of_token1)
    } else {
        (of_token1, of_token0)
    };
    match given {
        Some(amount_out) => Some(
            SwapStep { sqrt_price_next: next, amount_in: taken.unwrap(), amount_out },
        ),
        None => None,
    }
}

} // verus!
