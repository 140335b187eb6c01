//! The price ladder: the sqrt price of every tick, and the tick of every price.
//!
//! The sqrt price of tick `t` stands for `1.0001^(t/2) * 2^96`. It is built by
//! binary exponentiation: the ladder starts at the price far below the lowest
//! tick and multiplies it, for every set bit `i` of `t + 2^20`, by the constant
//! for `1.0001^(2^i / 2)`. The accumulator carries 64 more fractional bits than
//! the result. Because every factor is at least one, two neighbouring ticks
//! never share a price.

use crate::math::{MAX_TICK, MIN_TICK};
use crate::wide::{lemma_pow64_values, Wide};
use vstd::prelude::*;

verus! {

/// The scale of the ladder's factors, and the extra precision of its accumulator: 2^64.
pub open spec fn unit() -> nat {
    0x1_0000_0000_0000_0000
}

/// The accumulator's start: `1.0001^(-2^19) * 2^160`.
pub open spec fn ladder_base() -> nat {
    24911459612090269273547393
}

/// The factor for bit `i`: `1.0001^(2^i / 2) * 2^64`.
pub open spec fn ratio(i: nat) -> nat {
    if i == 0 {
        18447666387855959851
    } else if i == 1 {
        18448588748116922571
    } else if i == 2 {
        18450433606991734263
    } else if i == 3 {
        18454123878217468680
    } else if i == 4 {
        18461506635090006702
    } else if i == 5 {
        18476281010653910145
    } else if i == 6 {
        18505865242158250042
    } else if i == 7 {
        18565175891880433523
    } else if i == 8 {
        18684368066214940583
    } else if i == 9 {
        18925053041275764672
    } else if i == 10 {
        19415764168677886927
    } else if i == 11 {
        20435687552633177495
    } else if i == 12 {
        22639080592224303007
    } else if i == 13 {
        27784196929998399742
    } else if i == 14 {
        41848122137994986129
    } else if i == 15 {
        94936283578220370716
    } else if i == 16 {
        488590176327622479861
    } else if i == 17 {
        12941056668319229769860
    } else if i == 18 {
        9078618265828848800676189
    } else if i == 19 {
        4468068147273140139091016147737
    } else if i == 20 {
        0xc6c_63e5_73e9_9b8b_10f5_9665_2857_4e85_ec9dnat
    } else {
        0x1_0000_0000_0000_0000
    }
}

/// A bound on the product of the factors below bit `i`, in units of 2^64.
pub open spec fn lower_product(i: nat) -> nat {
    if i == 0 {
        18446744073709551616
    } else if i == 1 {
        18447666387855959851
    } else if i == 2 {
        18449511154494745447
    } else if i == 3 {
        18453201241220755941
    } else if i == 4 {
        18460583628983133367
    } else if i == 5 {
        18475357265883657907
    } else if i == 6 {
        18504940018287354212
    } else if i == 7 {
        18564247702699447988
    } else if i == 8 {
        18683433917872171733
    } else if i == 9 {
        18924106859586736230
    } else if i == 10 {
        19414793453272501774
    } else if i == 11 {
        20434665844882988571
    } else if i == 12 {
        22637948723084169927
    } else if i == 13 {
        27782807824333956518
    } else if i == 14 {
        41846029888805468017
    } else if i == 15 {
        94931537120022858157
    } else if i == 16 {
        488565748650866589066
    } else if i == 17 {
        12940409664010732592746
    } else if i == 18 {
        9078164368957539038306654
    } else if i == 19 {
        4467844760619635886799582435990
    } else if i == 20 {
        0xc6c_3b30_bb4d_f486_869b_7824_ef54_2289_3ca7nat
    } else if i == 21 {
        0x9a_5548_3eab_6c05_3447_a7da_db4e_6c6c_fe68_43fe_b57c_3675_4727_8cb6nat
    } else {
        0x9a_5548_3eab_6c05_3447_a7da_db4e_6c6c_fe68_43fe_b57c_3675_4727_8cb6nat
    }
}

/// The number of values that the bits from `i` up to bit 20 can spell.
pub open spec fn span(i: nat) -> nat
    decreases 21 - i,
{
    if i >= 21 {
        1
    } else {
        2 * span(i + 1)
    }
}

/// One multiplication of the ladder.
pub open spec fn scale(acc: nat, i: nat) -> nat {
    acc * ratio(i) / unit()
}

/// The accumulator after the bits of `n` have been applied from bit `i` on.
pub open spec fn ladder(n: nat, i: nat, acc: nat) -> nat
    decreases n,
{
    if n == 0 {
        acc
    } else {
        ladder(
            n / 2,
            i + 1,
            if n % 2 == 1 {
                scale(acc, i)
            } else {
                acc
            },
        )
    }
}

/// Whether `tick` lies within the bounds that every pool shares.
pub open spec fn valid_tick(tick: int) -> bool {
    MIN_TICK <= tick <= MAX_TICK
}

/// The sqrt price of `tick` with 64 more fractional bits than Q96 has: what
/// the ladder ends with.
pub open spec fn sqrt_price_accumulator(tick: int) -> nat {
    ladder((tick + 1048576) as nat, 0, ladder_base())
}

/// The sqrt price of `tick` in Q96.
pub open spec fn sqrt_price_at_tick(tick: int) -> nat {
    sqrt_price_accumulator(tick) / unit()
}

/// The sqrt price of the lowest tick.
pub open spec fn min_sqrt_price() -> nat {
    4295128738
}

/// The sqrt price of the highest tick.
pub open spec fn max_sqrt_price() -> nat {
    0xfffd_8963_efd1_fc6a_ab2d_d999_23a5_33e5_96dc_bccenat
}

/// Whether `price` lies between the prices of the lowest and the highest tick.
pub open spec fn valid_price(price: nat) -> bool {
    min_sqrt_price() <= price <= max_sqrt_price()
}

/// Whether `tick` is the tick that `price` falls into: the price of `tick` is
/// not above `price`, and the price of the next tick is.
pub open spec fn is_tick_of(tick: int, price: nat) -> bool {
    &&& valid_tick(tick)
    &&& sqrt_price_at_tick(tick) <= price
    &&& tick < MAX_TICK ==> price < sqrt_price_at_tick(tick + 1)
}

/// The tick that `price` falls into.
pub open spec fn tick_at_sqrt_price(price: nat) -> int {
    choose|tick: int| is_tick_of(tick, price)
}

proof fn lemma_span_values()
    ensures
        span(0) == 2097152,
        forall|i: nat| i >= 21 ==> span(i) == 1,
        forall|i: nat| i < 21 ==> #[trigger] span(i) == 2 * span(i + 1),
        forall|i: nat| #[trigger] span(i) >= 1,
        span(20) == 2,
{
    reveal_with_fuel(span, 23);
    assert forall|i: nat| #[trigger] span(i) >= 1 by {
        lemma_span_positive(i);
    }
}

proof fn lemma_span_positive(i: nat)
    ensures
        span(i) >= 1,
    decreases 21 - i,
{
    if i < 21 {
        lemma_span_positive(i + 1);
    }
}

/// Every factor is at least one.
proof fn lemma_ratio_at_least_unit(i: nat)
    ensures
        ratio(i) >= unit(),
{
}

/// What the proofs below need of the two tables.
proof fn lemma_ratio_table(i: nat)
    requires
        i <= 20,
    ensures
        unit() <= ratio(i) < 0x1000_0000_0000_0000_0000_0000_0000_0000_0000nat,
        lower_product(i) * ratio(i) <= unit() * lower_product(i + 1),
        ladder_base() * (ratio(i) - lower_product(i)) >= (unit() + 1) * unit(),
        lower_product(i) <= lower_product(i + 1),
        lower_product(i + 1) <= 0x9a_5548_3eab_6c05_3447_a7da_db4e_6c6c_fe68_43fe_b57c_3675_4727_8cb6nat,
        lower_product(0) == unit(),
{
    let u = unit() as int;
    let b = ladder_base() as int;
    if i == 0 {
        let r = ratio(0) as int;
        let g = lower_product(0) as int;
        let h = lower_product(1) as int;
        assert(r == 18447666387855959851);
        assert(g == 18446744073709551616);
        assert(h == 18447666387855959851);
        assert(g * r <= u * h && b * (r - g) >= (u + 1) * u) by (nonlinear_arith)
            requires
                r == 18447666387855959851,
                g == 18446744073709551616,
                h == 18447666387855959851,
                u == 0x1_0000_0000_0000_0000,
                b == 24911459612090269273547393,
        ;
    } else if i == 1 {
        let r = ratio(1) as int;
        let g = lower_product(1) as int;
        let h = lower_product(2) as int;
        assert(r == 18448588748116922571);
        assert(g == 18447666387855959851);
        assert(h == 18449511154494745447);
        assert(g * r <= u * h && b * (r - g) >= (u + 1) * u) by (nonlinear_arith)
            requires
                r == 18448588748116922571,
                g == 18447666387855959851,
                h == 18449511154494745447,
                u == 0x1_0000_0000_0000_0000,
                b == 24911459612090269273547393,
        ;
    } else if i == 2 {
        let r = ratio(2) as int;
        let g = lower_product(2) as int;
        let h = lower_product(3) as int;
        assert(r == 18450433606991734263);
        assert(g == 18449511154494745447);
        assert(h == 18453201241220755941);
        assert(g * r <= u * h && b * (r - g) >= (u + 1) * u) by (nonlinear_arith)
            requires
                r == 18450433606991734263,
                g == 18449511154494745447,
                h == 18453201241220755941,
                u == 0x1_0000_0000_0000_0000,
                b == 24911459612090269273547393,
        ;
    } else if i == 3 {
        let r = ratio(3) as int;
        let g = lower_product(3) as int;
        let h = lower_product(4) as int;
        assert(r == 18454123878217468680);
        assert(g == 18453201241220755941);
        assert(h == 18460583628983133367);
        assert(g * r <= u * h && b * (r - g) >= (u + 1) * u) by (nonlinear_arith)
            requires
                r == 18454123878217468680,
                g == 18453201241220755941,
                h == 18460583628983133367,
                u == 0x1_0000_0000_0000_0000,
                b == 24911459612090269273547393,
        ;
    } else if i == 4 {
        let r = ratio(4) as int;
        let g = lower_product(4) as int;
        let h = lower_product(5) as int;
        assert(r == 18461506635090006702);
        assert(g == 18460583628983133367);
        assert(h == 18475357265883657907);
        assert(g * r <= u * h && b * (r - g) >= (u + 1) * u) by (nonlinear_arith)
            requires
                r == 18461506635090006702,
                g == 18460583628983133367,
                h == 18475357265883657907,
                u == 0x1_0000_0000_0000_0000,
                b == 24911459612090269273547393,
        ;
    } else if i == 5 {
        let r = ratio(5) as int;
        let g = lower_product(5) as int;
        let h = lower_product(6) as int;
        assert(r == 18476281010653910145);
        assert(g == 18475357265883657907);
        assert(h == 18504940018287354212);
        assert(g * r <= u * h && b * (r - g) >= (u + 1) * u) by (nonlinear_arith)
            requires
                r == 18476281010653910145,
                g == 18475357265883657907,
                h == 18504940018287354212,
                u == 0x1_0000_0000_0000_0000,
                b == 24911459612090269273547393,
        ;
    } else if i == 6 {
        let r = ratio(6) as int;
        let g = lower_product(6) as int;
        let h = lower_product(7) as int;
        assert(r == 18505865242158250042);
        assert(g == 18504940018287354212);
        assert(h == 18564247702699447988);
        assert(g * r <= u * h && b * (r - g) >= (u + 1) * u) by (nonlinear_arith)
            requires
                r == 18505865242158250042,
                g == 18504940018287354212,
                h == 18564247702699447988,
                u == 0x1_0000_0000_0000_0000,
                b == 24911459612090269273547393,
        ;
    } else if i == 7 {
        let r = ratio(7) as int;
        let g = lower_product(7) as int;
        let h = lower_product(8) as int;
        assert(r == 18565175891880433523);
        assert(g == 18564247702699447988);
        assert(h == 18683433917872171733);
        assert(g * r <= u * h && b * (r - g) >= (u + 1) * u) by (nonlinear_arith)
            requires
                r == 18565175891880433523,
                g == 18564247702699447988,
                h == 18683433917872171733,
                u == 0x1_0000_0000_0000_0000,
                b == 24911459612090269273547393,
        ;
    } else if i == 8 {
        let r = ratio(8) as int;
        let g = lower_product(8) as int;
        let h = lower_product(9) as int;
        assert(r == 18684368066214940583);
        assert(g == 18683433917872171733);
        assert(h == 18924106859586736230);
        assert(g * r <= u * h && b * (r - g) >= (u + 1) * u) by (nonlinear_arith)
            requires
                r == 18684368066214940583,
                g == 18683433917872171733,
                h == 18924106859586736230,
                u == 0x1_0000_0000_0000_0000,
                b == 24911459612090269273547393,
        ;
    } else if i == 9 {
        let r = ratio(9) as int;
        let g = lower_product(9) as int;
        let h = lower_product(10) as int;
        assert(r == 18925053041275764672);
        assert(g == 18924106859586736230);
        assert(h == 19414793453272501774);
        assert(g * r <= u * h && b * (r - g) >= (u + 1) * u) by (nonlinear_arith)
            requires
                r == 18925053041275764672,
                g == 18924106859586736230,
                h == 19414793453272501774,
                u == 0x1_0000_0000_0000_0000,
                b == 24911459612090269273547393,
        ;
    } else if i == 10 {
        let r = ratio(10) as int;
        let g = lower_product(10) as int;
        let h = lower_product(11) as int;
        assert(r == 19415764168677886927);
        assert(g == 19414793453272501774);
        assert(h == 20434665844882988571);
        assert(g * r <= u * h && b * (r - g) >= (u + 1) * u) by (nonlinear_arith)
            requires
                r == 19415764168677886927,
                g == 19414793453272501774,
                h == 20434665844882988571,
                u == 0x1_0000_0000_0000_0000,
                b == 24911459612090269273547393,
        ;
    } else if i == 11 {
        let r = ratio(11) as int;
        let g = lower_product(11) as int;
        let h = lower_product(12) as int;
        assert(r == 20435687552633177495);
        assert(g == 20434665844882988571);
        assert(h == 22637948723084169927);
        assert(g * r <= u * h && b * (r - g) >= (u + 1) * u) by (nonlinear_arith)
            requires
                r == 20435687552633177495,
                g == 20434665844882988571,
                h == 22637948723084169927,
                u == 0x1_0000_0000_0000_0000,
                b == 24911459612090269273547393,
        ;
    } else if i == 12 {
        let r = ratio(12) as int;
        let g = lower_product(12) as int;
        let h = lower_product(13) as int;
        assert(r == 22639080592224303007);
        assert(g == 22637948723084169927);
        assert(h == 27782807824333956518);
        assert(g * r <= u * h && b * (r - g) >= (u + 1) * u) by (nonlinear_arith)
            requires
                r == 22639080592224303007,
                g == 22637948723084169927,
                h == 27782807824333956518,
                u == 0x1_0000_0000_0000_0000,
                b == 24911459612090269273547393,
        ;
    } else if i == 13 {
        let r = ratio(13) as int;
        let g = lower_product(13) as int;
        let h = lower_product(14) as int;
        assert(r == 27784196929998399742);
        assert(g == 27782807824333956518);
        assert(h == 41846029888805468017);
        assert(g * r <= u * h && b * (r - g) >= (u + 1) * u) by (nonlinear_arith)
            requires
                r == 27784196929998399742,
                g == 27782807824333956518,
                h == 41846029888805468017,
                u == 0x1_0000_0000_0000_0000,
                b == 24911459612090269273547393,
        ;
    } else if i == 14 {
        let r = ratio(14) as int;
        let g = lower_product(14) as int;
        let h = lower_product(15) as int;
        assert(r == 41848122137994986129);
        assert(g == 41846029888805468017);
        assert(h == 94931537120022858157);
        assert(g * r <= u * h && b * (r - g) >= (u + 1) * u) by (nonlinear_arith)
            requires
                r == 41848122137994986129,
                g == 41846029888805468017,
                h == 94931537120022858157,
                u == 0x1_0000_0000_0000_0000,
                b == 24911459612090269273547393,
        ;
    } else if i == 15 {
        let r = ratio(15) as int;
        let g = lower_product(15) as int;
        let h = lower_product(16) as int;
        assert(r == 94936283578220370716);
        assert(g == 94931537120022858157);
        assert(h == 488565748650866589066);
        assert(g * r <= u * h && b * (r - g) >= (u + 1) * u) by (nonlinear_arith)
            requires
                r == 94936283578220370716,
                g == 94931537120022858157,
                h == 488565748650866589066,
                u == 0x1_0000_0000_0000_0000,
                b == 24911459612090269273547393,
        ;
    } else if i == 16 {
        let r = ratio(16) as int;
        let g = lower_product(16) as int;
        let h = lower_product(17) as int;
        assert(r == 488590176327622479861);
        assert(g == 488565748650866589066);
        assert(h == 12940409664010732592746);
        assert(g * r <= u * h && b * (r - g) >= (u + 1) * u) by (nonlinear_arith)
            requires
                r == 488590176327622479861,
                g == 488565748650866589066,
                h == 12940409664010732592746,
                u == 0x1_0000_0000_0000_0000,
                b == 24911459612090269273547393,
        ;
    } else if i == 17 {
        let r = ratio(17) as int;
        let g = lower_product(17) as int;
        let h = lower_product(18) as int;
        assert(r == 12941056668319229769860);
        assert(g == 12940409664010732592746);
        assert(h == 9078164368957539038306654);
        assert(g * r <= u * h && b * (r - g) >= (u + 1) * u) by (nonlinear_arith)
            requires
                r == 12941056668319229769860,
                g == 12940409664010732592746,
                h == 9078164368957539038306654,
                u == 0x1_0000_0000_0000_0000,
                b == 24911459612090269273547393,
        ;
    } else if i == 18 {
        let r = ratio(18) as int;
        let g = lower_product(18) as int;
        let h = lower_product(19) as int;
        assert(r == 9078618265828848800676189);
        assert(g == 9078164368957539038306654);
        assert(h == 4467844760619635886799582435990);
        assert(g * r <= u * h && b * (r - g) >= (u + 1) * u) by (nonlinear_arith)
            requires
                r == 9078618265828848800676189,
                g == 9078164368957539038306654,
                h == 4467844760619635886799582435990,
                u == 0x1_0000_0000_0000_0000,
                b == 24911459612090269273547393,
        ;
    } else if i == 19 {
        let r = ratio(19) as int;
        let g = lower_product(19) as int;
        let h = lower_product(20) as int;
        assert(r == 4468068147273140139091016147737);
        assert(g == 4467844760619635886799582435990);
        assert(h == 0xc6c_3b30_bb4d_f486_869b_7824_ef54_2289_3ca7nat);
        assert(g * r <= u * h && b * (r - g) >= (u + 1) * u) by (nonlinear_arith)
            requires
                r == 4468068147273140139091016147737,
                g == 4467844760619635886799582435990,
                h == 0xc6c_3b30_bb4d_f486_869b_7824_ef54_2289_3ca7nat,
                u == 0x1_0000_0000_0000_0000,
                b == 24911459612090269273547393,
        ;
    } else if i == 20 {
        let r = ratio(20) as int;
        let g = lower_product(20) as int;
        let h = lower_product(21) as int;
        assert(r == 0xc6c_63e5_73e9_9b8b_10f5_9665_2857_4e85_ec9dnat);
        assert(g == 0xc6c_3b30_bb4d_f486_869b_7824_ef54_2289_3ca7nat);
        assert(h == 0x9a_5548_3eab_6c05_3447_a7da_db4e_6c6c_fe68_43fe_b57c_3675_4727_8cb6nat);
        assert(g * r <= u * h && b * (r - g) >= (u + 1) * u) by (nonlinear_arith)
            requires
                r == 0xc6c_63e5_73e9_9b8b_10f5_9665_2857_4e85_ec9dnat,
                g == 0xc6c_3b30_bb4d_f486_869b_7824_ef54_2289_3ca7nat,
                h == 0x9a_5548_3eab_6c05_3447_a7da_db4e_6c6c_fe68_43fe_b57c_3675_4727_8cb6nat,
                u == 0x1_0000_0000_0000_0000,
                b == 24911459612090269273547393,
        ;
    }
}

/// A gap between two accumulators survives one multiplication.
proof fn lemma_scale_gap(a: nat, b: nat, d: nat, i: nat)
    requires
        a + d <= b,
    ensures
        scale(a, i) + d <= scale(b, i),
{
    lemma_ratio_at_least_unit(i);
    let r = ratio(i) as int;
    let u = unit() as int;
    assert(b * r >= a * r + d * u) by (nonlinear_arith)
        requires
            a + d <= b,
            r >= u,
            u >= 0,
            a >= 0,
            d >= 0,
    ;
    assert((a * r + d * u) / u == (a * r) / u + d);
}

/// A gap between two accumulators survives the rest of the ladder.
proof fn lemma_ladder_gap(n: nat, i: nat, a: nat, b: nat, d: nat)
    requires
        a + d <= b,
    ensures
        ladder(n, i, a) + d <= ladder(n, i, b),
    decreases n,
{
    if n != 0 {
        if n % 2 == 1 {
            lemma_scale_gap(a, b, d, i);
            lemma_ladder_gap(n / 2, i + 1, scale(a, i), scale(b, i), d);
        } else {
            lemma_ladder_gap(n / 2, i + 1, a, b, d);
        }
    }
}

/// An accumulator within the bound of bit `i` stays within the bound of the
/// next bit when it is multiplied.
proof fn lemma_scale_within(x: nat, i: nat)
    requires
        i <= 20,
        x * unit() <= ladder_base() * lower_product(i),
    ensures
        scale(x, i) * unit() <= ladder_base() * lower_product(i + 1),
        x * unit() <= ladder_base() * lower_product(i + 1),
{
    lemma_ratio_table(i);
    let u = unit() as int;
    let b = ladder_base() as int;
    let r = ratio(i) as int;
    let g = lower_product(i) as int;
    let g1 = lower_product(i + 1) as int;
    let s = scale(x, i) as int;
    let xr = x * r;
    assert(s == xr / u);
    assert(s * u <= xr);
    assert((x * u) * r <= (b * g) * r) by (nonlinear_arith)
        requires
            x * u <= b * g,
            r >= 0,
    ;
    assert((b * g) * r == b * (g * r)) by (nonlinear_arith);
    assert(b * (g * r) <= b * (u * g1)) by (nonlinear_arith)
        requires
            g * r <= u * g1,
            b >= 0,
    ;
    assert((x * u) * r == xr * u) by (nonlinear_arith)
        requires
            xr == x * r,
    ;
    assert(b * (u * g1) == (b * g1) * u) by (nonlinear_arith);
    assert(xr <= b * g1) by (nonlinear_arith)
        requires
            xr * u <= (b * g1) * u,
            u > 0,
    ;
    assert(b * g <= b * g1) by (nonlinear_arith)
        requires
            g <= g1,
            b >= 0,
    ;
}

/// The ladder of `n + 1` ends at least one unit above the ladder of `n`.
proof fn lemma_ladder_successor(n: nat, i: nat, x: nat)
    requires
        x * unit() <= ladder_base() * lower_product(i),
        n + 1 < span(i),
    ensures
        ladder(n, i, x) + unit() <= ladder(n + 1, i, ladder_base()),
    decreases n,
{
    lemma_span_values();
    let b = ladder_base();
    assert(i <= 20);
    lemma_ratio_table(i);
    if n % 2 == 0 {
        let r = ratio(i) as int;
        let g = lower_product(i) as int;
        let u = unit() as int;
        assert(b * r >= (x + u + 1) * u) by (nonlinear_arith)
            requires
                x * u <= b * g,
                b * (r - g) >= (u + 1) * u,
        ;
        assert(scale(b, i) >= x + unit() + 1);
        assert((n + 1) / 2 == n / 2 && (n + 1) % 2 == 1);
        assert(ladder(n + 1, i, b) == ladder(n / 2, i + 1, scale(b, i)));
        assert(ladder(n, i, x) == ladder(n / 2, i + 1, x));
        lemma_ladder_gap(n / 2, i + 1, x, scale(b, i), unit());
    } else {
        assert(span(i) > 2);
        assert(i <= 19);
        lemma_scale_within(x, i);
        assert((n + 1) / 2 == n / 2 + 1 && (n + 1) % 2 == 0);
        lemma_ladder_successor(n / 2, i + 1, scale(x, i));
        assert(ladder(n, i, x) == ladder(n / 2, i + 1, scale(x, i)));
        assert(ladder(n + 1, i, b) == ladder(n / 2 + 1, i + 1, b));
    }
}

/// The next tick has a higher price.
pub proof fn lemma_sqrt_price_successor(tick: int)
    requires
        MIN_TICK <= tick < MAX_TICK,
    ensures
        sqrt_price_at_tick(tick) < sqrt_price_at_tick(tick + 1),
{
    lemma_span_values();
    lemma_ratio_table(0);
    let n = (tick + 1048576) as nat;
    lemma_ladder_successor(n, 0, ladder_base());
}

/// `tick_to_price` is strictly increasing: a higher tick has a higher price.
pub proof fn lemma_sqrt_price_increasing(low: int, high: int)
    requires
        valid_tick(low),
        valid_tick(high),
        low < high,
    ensures
        sqrt_price_at_tick(low) < sqrt_price_at_tick(high),
    decreases high - low,
{
    lemma_sqrt_price_successor(high - 1);
    if low < high - 1 {
        lemma_sqrt_price_increasing(low, high - 1);
    }
}

/// The prices of the lowest tick, of tick 0 and of the highest tick.
pub proof fn lemma_sqrt_price_endpoints()
    ensures
        sqrt_price_at_tick(MIN_TICK as int) == min_sqrt_price(),
        sqrt_price_at_tick(0) == 0x1_0000_0000_0000_0000_0000_0000,
        sqrt_price_at_tick(MAX_TICK as int) == max_sqrt_price(),
{
    lemma_ladder_lowest();
    lemma_ladder_zero();
    lemma_ladder_highest();
}

proof fn lemma_ladder_lowest()
    ensures
        ladder(161304, 0, ladder_base()) == 79231140595944432138154620418,
{
    assert(ladder(0, 18, 79231140595944432138154620418) == 79231140595944432138154620418);
    assert(ladder(1, 17, 112939508009380472645596940) == 79231140595944432138154620418);
    assert(ladder(2, 16, 112939508009380472645596940) == 79231140595944432138154620418);
    assert(ladder(4, 15, 112939508009380472645596940) == 79231140595944432138154620418);
    assert(ladder(9, 14, 49783982975144538923251133) == 79231140595944432138154620418);
    assert(ladder(19, 13, 33053047933189178870253221) == 79231140595944432138154620418);
    assert(ladder(39, 12, 26932238418242662830167619) == 79231140595944432138154620418);
    assert(ladder(78, 11, 26932238418242662830167619) == 79231140595944432138154620418);
    assert(ladder(157, 10, 25588079105066760956030927) == 79231140595944432138154620418);
    assert(ladder(315, 9, 24941369810669876005724913) == 79231140595944432138154620418);
    assert(ladder(630, 8, 24941369810669876005724913) == 79231140595944432138154620418);
    assert(ladder(1260, 7, 24941369810669876005724913) == 79231140595944432138154620418);
    assert(ladder(2520, 6, 24941369810669876005724913) == 79231140595944432138154620418);
    assert(ladder(5040, 5, 24941369810669876005724913) == 79231140595944432138154620418);
    assert(ladder(10081, 4, 24921425690722330436012402) == 79231140595944432138154620418);
    assert(ladder(20163, 3, 24911459612090269273547393) == 79231140595944432138154620418);
    assert(ladder(40326, 2, 24911459612090269273547393) == 79231140595944432138154620418);
    assert(ladder(80652, 1, 24911459612090269273547393) == 79231140595944432138154620418);
    assert(ladder(161304, 0, 24911459612090269273547393) == 79231140595944432138154620418);
}

proof fn lemma_ladder_zero()
    ensures
        ladder(1048576, 0, ladder_base()) == 0x1_0000_0000_0000_0000_0000_0000_0000_0000_000f_c698nat,
{
    assert(ladder(0, 21, 0x1_0000_0000_0000_0000_0000_0000_0000_0000_000f_c698nat) == 0x1_0000_0000_0000_0000_0000_0000_0000_0000_000f_c698nat);
    assert(ladder(1, 20, 24911459612090269273547393) == 0x1_0000_0000_0000_0000_0000_0000_0000_0000_000f_c698nat);
    assert(ladder(2, 19, 24911459612090269273547393) == 0x1_0000_0000_0000_0000_0000_0000_0000_0000_000f_c698nat);
    assert(ladder(4, 18, 24911459612090269273547393) == 0x1_0000_0000_0000_0000_0000_0000_0000_0000_000f_c698nat);
    assert(ladder(8, 17, 24911459612090269273547393) == 0x1_0000_0000_0000_0000_0000_0000_0000_0000_000f_c698nat);
    assert(ladder(16, 16, 24911459612090269273547393) == 0x1_0000_0000_0000_0000_0000_0000_0000_0000_000f_c698nat);
    assert(ladder(32, 15, 24911459612090269273547393) == 0x1_0000_0000_0000_0000_0000_0000_0000_0000_000f_c698nat);
    assert(ladder(64, 14, 24911459612090269273547393) == 0x1_0000_0000_0000_0000_0000_0000_0000_0000_000f_c698nat);
    assert(ladder(128, 13, 24911459612090269273547393) == 0x1_0000_0000_0000_0000_0000_0000_0000_0000_000f_c698nat);
    assert(ladder(256, 12, 24911459612090269273547393) == 0x1_0000_0000_0000_0000_0000_0000_0000_0000_000f_c698nat);
    assert(ladder(512, 11, 24911459612090269273547393) == 0x1_0000_0000_0000_0000_0000_0000_0000_0000_000f_c698nat);
    assert(ladder(1024, 10, 24911459612090269273547393) == 0x1_0000_0000_0000_0000_0000_0000_0000_0000_000f_c698nat);
    assert(ladder(2048, 9, 24911459612090269273547393) == 0x1_0000_0000_0000_0000_0000_0000_0000_0000_000f_c698nat);
    assert(ladder(4096, 8, 24911459612090269273547393) == 0x1_0000_0000_0000_0000_0000_0000_0000_0000_000f_c698nat);
    assert(ladder(8192, 7, 24911459612090269273547393) == 0x1_0000_0000_0000_0000_0000_0000_0000_0000_000f_c698nat);
    assert(ladder(16384, 6, 24911459612090269273547393) == 0x1_0000_0000_0000_0000_0000_0000_0000_0000_000f_c698nat);
    assert(ladder(32768, 5, 24911459612090269273547393) == 0x1_0000_0000_0000_0000_0000_0000_0000_0000_000f_c698nat);
    assert(ladder(65536, 4, 24911459612090269273547393) == 0x1_0000_0000_0000_0000_0000_0000_0000_0000_000f_c698nat);
    assert(ladder(131072, 3, 24911459612090269273547393) == 0x1_0000_0000_0000_0000_0000_0000_0000_0000_000f_c698nat);
    assert(ladder(262144, 2, 24911459612090269273547393) == 0x1_0000_0000_0000_0000_0000_0000_0000_0000_000f_c698nat);
    assert(ladder(524288, 1, 24911459612090269273547393) == 0x1_0000_0000_0000_0000_0000_0000_0000_0000_000f_c698nat);
    assert(ladder(1048576, 0, 24911459612090269273547393) == 0x1_0000_0000_0000_0000_0000_0000_0000_0000_000f_c698nat);
}

proof fn lemma_ladder_highest()
    ensures
        ladder(1935848, 0, ladder_base()) == 0xfffd_8963_efd1_fc6a_ab2d_d999_23a5_33e5_96dc_bcce_d934_1e6f_76d2_004cnat,
{
    assert(ladder(0, 21, 0xfffd_8963_efd1_fc6a_ab2d_d999_23a5_33e5_96dc_bcce_d934_1e6f_76d2_004cnat) == 0xfffd_8963_efd1_fc6a_ab2d_d999_23a5_33e5_96dc_bcce_d934_1e6f_76d2_004cnat);
    assert(ladder(1, 20, 0x14_9b02_2bf6_9dd7_e8c2_ee5b_0693_fca0_b4f8_feb6nat) == 0xfffd_8963_efd1_fc6a_ab2d_d999_23a5_33e5_96dc_bcce_d934_1e6f_76d2_004cnat);
    assert(ladder(3, 19, 1897153654834254018759059130093423) == 0xfffd_8963_efd1_fc6a_ab2d_d999_23a5_33e5_96dc_bcce_d934_1e6f_76d2_004cnat);
    assert(ladder(7, 18, 3854805534775411180389521648) == 0xfffd_8963_efd1_fc6a_ab2d_d999_23a5_33e5_96dc_bcce_d934_1e6f_76d2_004cnat);
    assert(ladder(14, 17, 3854805534775411180389521648) == 0xfffd_8963_efd1_fc6a_ab2d_d999_23a5_33e5_96dc_bcce_d934_1e6f_76d2_004cnat);
    assert(ladder(29, 16, 145538356273130342017882265) == 0xfffd_8963_efd1_fc6a_ab2d_d999_23a5_33e5_96dc_bcce_d934_1e6f_76d2_004cnat);
    assert(ladder(59, 15, 28279059490113682034349973) == 0xfffd_8963_efd1_fc6a_ab2d_d999_23a5_33e5_96dc_bcce_d934_1e6f_76d2_004cnat);
    assert(ladder(118, 14, 28279059490113682034349973) == 0xfffd_8963_efd1_fc6a_ab2d_d999_23a5_33e5_96dc_bcce_d934_1e6f_76d2_004cnat);
    assert(ladder(236, 13, 28279059490113682034349973) == 0xfffd_8963_efd1_fc6a_ab2d_d999_23a5_33e5_96dc_bcce_d934_1e6f_76d2_004cnat);
    assert(ladder(472, 12, 28279059490113682034349973) == 0xfffd_8963_efd1_fc6a_ab2d_d999_23a5_33e5_96dc_bcce_d934_1e6f_76d2_004cnat);
    assert(ladder(945, 11, 25526744412967792200105275) == 0xfffd_8963_efd1_fc6a_ab2d_d999_23a5_33e5_96dc_bcce_d934_1e6f_76d2_004cnat);
    assert(ladder(1890, 10, 25526744412967792200105275) == 0xfffd_8963_efd1_fc6a_ab2d_d999_23a5_33e5_96dc_bcce_d934_1e6f_76d2_004cnat);
    assert(ladder(3780, 9, 25526744412967792200105275) == 0xfffd_8963_efd1_fc6a_ab2d_d999_23a5_33e5_96dc_bcce_d934_1e6f_76d2_004cnat);
    assert(ladder(7561, 8, 25202100469882440908708589) == 0xfffd_8963_efd1_fc6a_ab2d_d999_23a5_33e5_96dc_bcce_d934_1e6f_76d2_004cnat);
    assert(ladder(15123, 7, 25041330079245915855040686) == 0xfffd_8963_efd1_fc6a_ab2d_d999_23a5_33e5_96dc_bcce_d934_1e6f_76d2_004cnat);
    assert(ladder(30247, 6, 24961329891498850207030018) == 0xfffd_8963_efd1_fc6a_ab2d_d999_23a5_33e5_96dc_bcce_d934_1e6f_76d2_004cnat);
    assert(ladder(60495, 5, 24921425690722330436012402) == 0xfffd_8963_efd1_fc6a_ab2d_d999_23a5_33e5_96dc_bcce_d934_1e6f_76d2_004cnat);
    assert(ladder(120990, 4, 24921425690722330436012402) == 0xfffd_8963_efd1_fc6a_ab2d_d999_23a5_33e5_96dc_bcce_d934_1e6f_76d2_004cnat);
    assert(ladder(241981, 3, 24911459612090269273547393) == 0xfffd_8963_efd1_fc6a_ab2d_d999_23a5_33e5_96dc_bcce_d934_1e6f_76d2_004cnat);
    assert(ladder(483962, 2, 24911459612090269273547393) == 0xfffd_8963_efd1_fc6a_ab2d_d999_23a5_33e5_96dc_bcce_d934_1e6f_76d2_004cnat);
    assert(ladder(967924, 1, 24911459612090269273547393) == 0xfffd_8963_efd1_fc6a_ab2d_d999_23a5_33e5_96dc_bcce_d934_1e6f_76d2_004cnat);
    assert(ladder(1935848, 0, 24911459612090269273547393) == 0xfffd_8963_efd1_fc6a_ab2d_d999_23a5_33e5_96dc_bcce_d934_1e6f_76d2_004cnat);
}

/// The price of every tick is a valid price.
pub proof fn lemma_sqrt_price_valid(tick: int)
    requires
        valid_tick(tick),
    ensures
        valid_price(sqrt_price_at_tick(tick)),
{
    lemma_sqrt_price_endpoints();
    if MIN_TICK < tick {
        lemma_sqrt_price_increasing(MIN_TICK as int, tick);
    }
    if tick < MAX_TICK {
        lemma_sqrt_price_increasing(tick, MAX_TICK as int);
    }
}

/// A price falls into one tick only.
pub proof fn lemma_tick_of_unique(first: int, second: int, price: nat)
    requires
        is_tick_of(first, price),
        is_tick_of(second, price),
    ensures
        first == second,
{
    if first < second {
        if first + 1 < second {
            lemma_sqrt_price_increasing(first + 1, second);
        }
    } else if second < first {
        if second + 1 < first {
            lemma_sqrt_price_increasing(second + 1, first);
        }
    }
}

/// A tick that `price` falls into is the one that `tick_at_sqrt_price` names.
pub proof fn lemma_tick_at_sqrt_price(tick: int, price: nat)
    requires
        is_tick_of(tick, price),
    ensures
        tick_at_sqrt_price(price) == tick,
{
    lemma_tick_of_unique(tick, tick_at_sqrt_price(price), price);
}

proof fn lemma_tick_search(price: nat, from: int)
    requires
        valid_tick(from),
        sqrt_price_at_tick(from) <= price,
    ensures
        exists|tick: int| is_tick_of(tick, price),
    decreases MAX_TICK - from,
{
    if from < MAX_TICK && sqrt_price_at_tick(from + 1) <= price {
        lemma_tick_search(price, from + 1);
    } else {
        assert(is_tick_of(from, price));
    }
}

/// Every valid price falls into a tick.
pub proof fn lemma_tick_exists(price: nat)
    requires
        valid_price(price),
    ensures
        is_tick_of(tick_at_sqrt_price(price), price),
{
    lemma_sqrt_price_endpoints();
    lemma_tick_search(price, MIN_TICK as int);
}

/// `price_to_tick` undoes `tick_to_price`: the price of a tick falls into that tick.
pub proof fn lemma_price_to_tick_inverts(tick: int)
    requires
        valid_tick(tick),
    ensures
        tick_at_sqrt_price(sqrt_price_at_tick(tick)) == tick,
{
    if tick < MAX_TICK {
        lemma_sqrt_price_successor(tick);
    }
    lemma_tick_at_sqrt_price(tick, sqrt_price_at_tick(tick));
}

/// `price_to_tick` is increasing: a higher price never falls into a lower tick.
pub proof fn lemma_price_to_tick_monotone(low: nat, high: nat)
    requires
        valid_price(low),
        valid_price(high),
        low <= high,
    ensures
        tick_at_sqrt_price(low) <= tick_at_sqrt_price(high),
{
    lemma_tick_exists(low);
    lemma_tick_exists(high);
    let a = tick_at_sqrt_price(low);
    let b = tick_at_sqrt_price(high);
    if b < a {
        if b + 1 < a {
            lemma_sqrt_price_increasing(b + 1, a);
        }
    }
}

/// The accumulator of a number whose bits below `i` are all set, before bit
/// `i` is applied.
pub open spec fn run_below(i: nat) -> nat
    decreases i,
{
    if i == 0 {
        ladder_base()
    } else {
        scale(run_below((i - 1) as nat), (i - 1) as nat)
    }
}

/// Whether `a * p` is not above `b * q` by more than `k` parts in 2^80.
pub open spec fn near(a: nat, b: nat, p: nat, q: nat, k: nat) -> bool {
    a * p * 0x1_0000_0000_0000_0000_0000 <= b * q * (0x1_0000_0000_0000_0000_0000 + k)
}

proof fn lemma_near_weakens(a: nat, b: nat, p: nat, q: nat, k: nat, more: nat)
    requires
        near(a, b, p, q, k),
        k <= more,
    ensures
        near(a, b, p, q, more),
{
    let e: int = 0x1_0000_0000_0000_0000_0000;
    let bq = b * q;
    assert(bq * (e + k) <= bq * (e + more)) by (nonlinear_arith)
        requires
            bq >= 0,
            k <= more,
    ;
}

/// One multiplication of both accumulators loosens their relation by one
/// part in 2^80 at most.
proof fn lemma_near_step(a: nat, b: nat, i: nat, p: nat, q: nat, k: nat)
    requires
        near(a, b, p, q, k),
        b >= 0x2_0000_0000_0000_0000_0000,
        k <= 40,
    ensures
        near(scale(a, i), scale(b, i), p, q, k + 1),
        scale(b, i) >= b,
{
    lemma_ratio_at_least_unit(i);
    let u = unit() as int;
    let r = ratio(i) as int;
    let e: int = 0x1_0000_0000_0000_0000_0000;
    let m = e + k;
    let ar = a * r;
    let br = b * r;
    let sa = scale(a, i) as int;
    let sb = scale(b, i) as int;
    assert(sa == ar / u && sb == br / u);
    assert(sa * u <= ar);
    assert(br < sb * u + u);
    assert(br >= b * u) by (nonlinear_arith)
        requires
            br == b * r,
            r >= u,
            b >= 0,
    ;
    assert(sb >= b);
    let pe = p * e;
    let qm = q * m;
    let ape = a * p * e;
    let bqm = b * q * m;
    assert(ape <= bqm);
    assert((sa * u) * pe <= ar * pe) by (nonlinear_arith)
        requires
            sa * u <= ar,
            pe >= 0,
    ;
    assert(ar * pe == ape * r) by (nonlinear_arith)
        requires
            ar == a * r,
            pe == p * e,
            ape == a * p * e,
    ;
    assert(ape * r <= bqm * r) by (nonlinear_arith)
        requires
            ape <= bqm,
            r >= 0,
    ;
    assert(bqm * r == br * qm) by (nonlinear_arith)
        requires
            br == b * r,
            qm == q * m,
            bqm == b * q * m,
    ;
    assert(br * qm <= (sb * u + u) * qm) by (nonlinear_arith)
        requires
            br < sb * u + u,
            qm >= 0,
    ;
    assert((sb * u + u) * qm <= (sb * q * (m + 1)) * u) by (nonlinear_arith)
        requires
            qm == q * m,
            m <= sb,
            q >= 0,
            u >= 0,
            sb >= 0,
            m >= 0,
    ;
    assert((sa * u) * pe == (sa * p * e) * u) by (nonlinear_arith)
        requires
            pe == p * e,
    ;
    let left = sa * p * e;
    let right = sb * q * (m + 1);
    assert(left <= right) by (nonlinear_arith)
        requires
            left * u <= right * u,
            u > 0,
    ;
}

/// The rest of the ladder loosens the relation of two accumulators by one
/// part in 2^80 for every bit at most.
proof fn lemma_near_kept(n: nat, i: nat, a: nat, b: nat, p: nat, q: nat, k: nat)
    requires
        near(a, b, p, q, k),
        b >= 0x2_0000_0000_0000_0000_0000,
        n < span(i),
        i <= 21,
        k + 21 - i <= 40,
    ensures
        near(ladder(n, i, a), ladder(n, i, b), p, q, (k + 21 - i) as nat),
    decreases n,
{
    lemma_span_values();
    if n == 0 {
        lemma_near_weakens(a, b, p, q, k, (k + 21 - i) as nat);
    } else {
        assert(i <= 20);
        if n % 2 == 1 {
            lemma_near_step(a, b, i, p, q, k);
            lemma_near_kept(n / 2, i + 1, scale(a, i), scale(b, i), p, q, k + 1);
        } else {
            lemma_near_kept(n / 2, i + 1, a, b, p, q, k);
            lemma_near_weakens(
                ladder(n / 2, i + 1, a),
                ladder(n / 2, i + 1, b),
                p,
                q,
                (k + 20 - i) as nat,
                (k + 21 - i) as nat,
            );
        }
    }
}

proof fn lemma_run_values()
    ensures
        run_below(0) == 24911459612090269273547393,
        run_below(1) == 24912705153933106140960970,
        run_below(2) == 24915196424448499451356821,
        run_below(3) == 24920179712885353395166545,
        run_below(4) == 24930149280080973520260350,
        run_below(5) == 24950100381343099606934591,
        run_below(6) == 24990050496050304400343299,
        run_below(7) == 25070142732328690812717186,
        run_below(8) == 25231098106010315038711446,
        run_below(9) == 25556115585696076177140461,
        run_below(10) == 26218764734616531994809788,
        run_below(11) == 27596054395684693900683718,
        run_below(12) == 30571484217608884708418162,
        run_below(13) == 37519374273358194144476640,
        run_below(14) == 56511093737512283855551953,
        run_below(15) == 128200572601294347900774996,
        run_below(16) == 659785047525690657281979554,
        run_below(17) == 17475414166359170686290419852,
        run_below(18) == 12259633685248224706715042992440,
        run_below(19) == 6033614054736716135883700036464527856,
        run_below(20) == 0xfffc_b933_bd6f_ad39_046f_19ed_7732_6d78_d668_6810nat,
{
    assert(run_below(0) == 24911459612090269273547393);
    assert(run_below(1) == 24912705153933106140960970);
    assert(run_below(2) == 24915196424448499451356821);
    assert(run_below(3) == 24920179712885353395166545);
    assert(run_below(4) == 24930149280080973520260350);
    assert(run_below(5) == 24950100381343099606934591);
    assert(run_below(6) == 24990050496050304400343299);
    assert(run_below(7) == 25070142732328690812717186);
    assert(run_below(8) == 25231098106010315038711446);
    assert(run_below(9) == 25556115585696076177140461);
    assert(run_below(10) == 26218764734616531994809788);
    assert(run_below(11) == 27596054395684693900683718);
    assert(run_below(12) == 30571484217608884708418162);
    assert(run_below(13) == 37519374273358194144476640);
    assert(run_below(14) == 56511093737512283855551953);
    assert(run_below(15) == 128200572601294347900774996);
    assert(run_below(16) == 659785047525690657281979554);
    assert(run_below(17) == 17475414166359170686290419852);
    assert(run_below(18) == 12259633685248224706715042992440);
    assert(run_below(19) == 6033614054736716135883700036464527856);
    assert(run_below(20) == 0xfffc_b933_bd6f_ad39_046f_19ed_7732_6d78_d668_6810nat);
}

/// Where the ladders of two neighbouring numbers part, their accumulators
/// differ by the factor of one tick.
proof fn lemma_run_table(i: nat)
    requires
        i <= 20,
    ensures
        near(run_below(i), scale(ladder_base(), i), 10000499987500624959910, 10000000000000000000000, 0),
        near(scale(ladder_base(), i), run_below(i), 10000000000000000000000, 10000499987500624961499, 0),
        run_below(i) >= 0x2_0000_0000_0000_0000_0000,
        scale(ladder_base(), i) >= 0x2_0000_0000_0000_0000_0000,
{
    lemma_run_values();
    if i == 0 {
        let a = run_below(0) as int;
        let s = scale(ladder_base(), 0) as int;
        assert(a == 24911459612090269273547393);
        assert(s == 24912705153933106140960970);
        assert(a * 10000499987500624959910 * 0x1_0000_0000_0000_0000_0000 <= s * 10000000000000000000000 * (
        0x1_0000_0000_0000_0000_0000 + 0) && s * 10000000000000000000000 * 0x1_0000_0000_0000_0000_0000
            <= a * 10000499987500624961499 * (0x1_0000_0000_0000_0000_0000 + 0)) by (nonlinear_arith)
            requires
                a == 24911459612090269273547393,
                s == 24912705153933106140960970,
        ;
    } else if i == 1 {
        let a = run_below(1) as int;
        let s = scale(ladder_base(), 1) as int;
        assert(a == 24912705153933106140960970);
        assert(s == 24913950758051478300256514);
        assert(a * 10000499987500624959910 * 0x1_0000_0000_0000_0000_0000 <= s * 10000000000000000000000 * (
        0x1_0000_0000_0000_0000_0000 + 0) && s * 10000000000000000000000 * 0x1_0000_0000_0000_0000_0000
            <= a * 10000499987500624961499 * (0x1_0000_0000_0000_0000_0000 + 0)) by (nonlinear_arith)
            requires
                a == 24912705153933106140960970,
                s == 24913950758051478300256514,
        ;
    } else if i == 2 {
        let a = run_below(2) as int;
        let s = scale(ladder_base(), 2) as int;
        assert(a == 24915196424448499451356821);
        assert(s == 24916442153127283447739338);
        assert(a * 10000499987500624959910 * 0x1_0000_0000_0000_0000_0000 <= s * 10000000000000000000000 * (
        0x1_0000_0000_0000_0000_0000 + 0) && s * 10000000000000000000000 * 0x1_0000_0000_0000_0000_0000
            <= a * 10000499987500624961499 * (0x1_0000_0000_0000_0000_0000 + 0)) by (nonlinear_arith)
            requires
                a == 24915196424448499451356821,
                s == 24916442153127283447739338,
        ;
    } else if i == 3 {
        let a = run_below(3) as int;
        let s = scale(ladder_base(), 3) as int;
        assert(a == 24920179712885353395166545);
        assert(s == 24921425690722330436012402);
        assert(a * 10000499987500624959910 * 0x1_0000_0000_0000_0000_0000 <= s * 10000000000000000000000 * (
        0x1_0000_0000_0000_0000_0000 + 0) && s * 10000000000000000000000 * 0x1_0000_0000_0000_0000_0000
            <= a * 10000499987500624961499 * (0x1_0000_0000_0000_0000_0000 + 0)) by (nonlinear_arith)
            requires
                a == 24920179712885353395166545,
                s == 24921425690722330436012402,
        ;
    } else if i == 4 {
        let a = run_below(4) as int;
        let s = scale(ladder_base(), 4) as int;
        assert(a == 24930149280080973520260350);
        assert(s == 24931395756383849007181082);
        assert(a * 10000499987500624959910 * 0x1_0000_0000_0000_0000_0000 <= s * 10000000000000000000000 * (
        0x1_0000_0000_0000_0000_0000 + 0) && s * 10000000000000000000000 * 0x1_0000_0000_0000_0000_0000
            <= a * 10000499987500624961499 * (0x1_0000_0000_0000_0000_0000 + 0)) by (nonlinear_arith)
            requires
                a == 24930149280080973520260350,
                s == 24931395756383849007181082,
        ;
    } else if i == 5 {
        let a = run_below(5) as int;
        let s = scale(ladder_base(), 5) as int;
        assert(a == 24950100381343099606934591);
        assert(s == 24951347855176100569935816);
        assert(a * 10000499987500624959910 * 0x1_0000_0000_0000_0000_0000 <= s * 10000000000000000000000 * (
        0x1_0000_0000_0000_0000_0000 + 0) && s * 10000000000000000000000 * 0x1_0000_0000_0000_0000_0000
            <= a * 10000499987500624961499 * (0x1_0000_0000_0000_0000_0000 + 0)) by (nonlinear_arith)
            requires
                a == 24950100381343099606934591,
                s == 24951347855176100569935816,
        ;
    } else if i == 6 {
        let a = run_below(6) as int;
        let s = scale(ladder_base(), 6) as int;
        assert(a == 24990050496050304400343299);
        assert(s == 24991299967339105576145847);
        assert(a * 10000499987500624959910 * 0x1_0000_0000_0000_0000_0000 <= s * 10000000000000000000000 * (
        0x1_0000_0000_0000_0000_0000 + 0) && s * 10000000000000000000000 * 0x1_0000_0000_0000_0000_0000
            <= a * 10000499987500624961499 * (0x1_0000_0000_0000_0000_0000 + 0)) by (nonlinear_arith)
            requires
                a == 24990050496050304400343299,
                s == 24991299967339105576145847,
        ;
    } else if i == 7 {
        let a = run_below(7) as int;
        let s = scale(ladder_base(), 7) as int;
        assert(a == 25070142732328690812717186);
        assert(s == 25071396208129195618154584);
        assert(a * 10000499987500624959910 * 0x1_0000_0000_0000_0000_0000 <= s * 10000000000000000000000 * (
        0x1_0000_0000_0000_0000_0000 + 0) && s * 10000000000000000000000 * 0x1_0000_0000_0000_0000_0000
            <= a * 10000499987500624961499 * (0x1_0000_0000_0000_0000_0000 + 0)) by (nonlinear_arith)
            requires
                a == 25070142732328690812717186,
                s == 25071396208129195618154584,
        ;
    } else if i == 8 {
        let a = run_below(8) as int;
        let s = scale(ladder_base(), 8) as int;
        assert(a == 25231098106010315038711446);
        assert(s == 25232359629378319766419356);
        assert(a * 10000499987500624959910 * 0x1_0000_0000_0000_0000_0000 <= s * 10000000000000000000000 * (
        0x1_0000_0000_0000_0000_0000 + 0) && s * 10000000000000000000000 * 0x1_0000_0000_0000_0000_0000
            <= a * 10000499987500624961499 * (0x1_0000_0000_0000_0000_0000 + 0)) by (nonlinear_arith)
            requires
                a == 25231098106010315038711446,
                s == 25232359629378319766419356,
        ;
    } else if i == 9 {
        let a = run_below(9) as int;
        let s = scale(ladder_base(), 9) as int;
        assert(a == 25556115585696076177140461);
        assert(s == 25557393359531813655895067);
        assert(a * 10000499987500624959910 * 0x1_0000_0000_0000_0000_0000 <= s * 10000000000000000000000 * (
        0x1_0000_0000_0000_0000_0000 + 0) && s * 10000000000000000000000 * 0x1_0000_0000_0000_0000_0000
            <= a * 10000499987500624961499 * (0x1_0000_0000_0000_0000_0000 + 0)) by (nonlinear_arith)
            requires
                a == 25556115585696076177140461,
                s == 25557393359531813655895067,
        ;
    } else if i == 10 {
        let a = run_below(10) as int;
        let s = scale(ladder_base(), 10) as int;
        assert(a == 26218764734616531994809788);
        assert(s == 26220075640081445472346220);
        assert(a * 10000499987500624959910 * 0x1_0000_0000_0000_0000_0000 <= s * 10000000000000000000000 * (
        0x1_0000_0000_0000_0000_0000 + 0) && s * 10000000000000000000000 * 0x1_0000_0000_0000_0000_0000
            <= a * 10000499987500624961499 * (0x1_0000_0000_0000_0000_0000 + 0)) by (nonlinear_arith)
            requires
                a == 26218764734616531994809788,
                s == 26220075640081445472346220,
        ;
    } else if i == 11 {
        let a = run_below(11) as int;
        let s = scale(ladder_base(), 11) as int;
        assert(a == 27596054395684693900683718);
        assert(s == 27597434163911134784207334);
        assert(a * 10000499987500624959910 * 0x1_0000_0000_0000_0000_0000 <= s * 10000000000000000000000 * (
        0x1_0000_0000_0000_0000_0000 + 0) && s * 10000000000000000000000 * 0x1_0000_0000_0000_0000_0000
            <= a * 10000499987500624961499 * (0x1_0000_0000_0000_0000_0000 + 0)) by (nonlinear_arith)
            requires
                a == 27596054395684693900683718,
                s == 27597434163911134784207334,
        ;
    } else if i == 12 {
        let a = run_below(12) as int;
        let s = scale(ladder_base(), 12) as int;
        assert(a == 30571484217608884708418162);
        assert(s == 30573012753607320475848016);
        assert(a * 10000499987500624959910 * 0x1_0000_0000_0000_0000_0000 <= s * 10000000000000000000000 * (
        0x1_0000_0000_0000_0000_0000 + 0) && s * 10000000000000000000000 * 0x1_0000_0000_0000_0000_0000
            <= a * 10000499987500624961499 * (0x1_0000_0000_0000_0000_0000 + 0)) by (nonlinear_arith)
            requires
                a == 30571484217608884708418162,
                s == 30573012753607320475848016,
        ;
    } else if i == 13 {
        let a = run_below(13) as int;
        let s = scale(ladder_base(), 13) as int;
        assert(a == 37519374273358194144476640);
        assert(s == 37521250195174989023121476);
        assert(a * 10000499987500624959910 * 0x1_0000_0000_0000_0000_0000 <= s * 10000000000000000000000 * (
        0x1_0000_0000_0000_0000_0000 + 0) && s * 10000000000000000000000 * 0x1_0000_0000_0000_0000_0000
            <= a * 10000499987500624961499 * (0x1_0000_0000_0000_0000_0000 + 0)) by (nonlinear_arith)
            requires
                a == 37519374273358194144476640,
                s == 37521250195174989023121476,
        ;
    } else if i == 14 {
        let a = run_below(14) as int;
        let s = scale(ladder_base(), 14) as int;
        assert(a == 56511093737512283855551953);
        assert(s == 56513919221563824017479175);
        assert(a * 10000499987500624959910 * 0x1_0000_0000_0000_0000_0000 <= s * 10000000000000000000000 * (
        0x1_0000_0000_0000_0000_0000 + 0) && s * 10000000000000000000000 * 0x1_0000_0000_0000_0000_0000
            <= a * 10000499987500624961499 * (0x1_0000_0000_0000_0000_0000 + 0)) by (nonlinear_arith)
            requires
                a == 56511093737512283855551953,
                s == 56513919221563824017479175,
        ;
    } else if i == 15 {
        let a = run_below(15) as int;
        let s = scale(ladder_base(), 15) as int;
        assert(a == 128200572601294347900774996);
        assert(s == 128206982469681708891205173);
        assert(a * 10000499987500624959910 * 0x1_0000_0000_0000_0000_0000 <= s * 10000000000000000000000 * (
        0x1_0000_0000_0000_0000_0000 + 0) && s * 10000000000000000000000 * 0x1_0000_0000_0000_0000_0000
            <= a * 10000499987500624961499 * (0x1_0000_0000_0000_0000_0000 + 0)) by (nonlinear_arith)
            requires
                a == 128200572601294347900774996,
                s == 128206982469681708891205173,
        ;
    } else if i == 16 {
        let a = run_below(16) as int;
        let s = scale(ladder_base(), 16) as int;
        assert(a == 659785047525690657281979554);
        assert(s == 659818035953376866348169417);
        assert(a * 10000499987500624959910 * 0x1_0000_0000_0000_0000_0000 <= s * 10000000000000000000000 * (
        0x1_0000_0000_0000_0000_0000 + 0) && s * 10000000000000000000000 * 0x1_0000_0000_0000_0000_0000
            <= a * 10000499987500624961499 * (0x1_0000_0000_0000_0000_0000 + 0)) by (nonlinear_arith)
            requires
                a == 659785047525690657281979554,
                s == 659818035953376866348169417,
        ;
    } else if i == 17 {
        let a = run_below(17) as int;
        let s = scale(ladder_base(), 17) as int;
        assert(a == 17475414166359170686290419852);
        assert(s == 17476287915224313080720192706);
        assert(a * 10000499987500624959910 * 0x1_0000_0000_0000_0000_0000 <= s * 10000000000000000000000 * (
        0x1_0000_0000_0000_0000_0000 + 0) && s * 10000000000000000000000 * 0x1_0000_0000_0000_0000_0000
            <= a * 10000499987500624961499 * (0x1_0000_0000_0000_0000_0000 + 0)) by (nonlinear_arith)
            requires
                a == 17475414166359170686290419852,
                s == 17476287915224313080720192706,
        ;
    } else if i == 18 {
        let a = run_below(18) as int;
        let s = scale(ladder_base(), 18) as int;
        assert(a == 12259633685248224706715042992440);
        assert(s == 12260246651608711189710580723753);
        assert(a * 10000499987500624959910 * 0x1_0000_0000_0000_0000_0000 <= s * 10000000000000000000000 * (
        0x1_0000_0000_0000_0000_0000 + 0) && s * 10000000000000000000000 * 0x1_0000_0000_0000_0000_0000
            <= a * 10000499987500624961499 * (0x1_0000_0000_0000_0000_0000 + 0)) by (nonlinear_arith)
            requires
                a == 12259633685248224706715042992440,
                s == 12260246651608711189710580723753,
        ;
    } else if i == 19 {
        let a = run_below(19) as int;
        let s = scale(ladder_base(), 19) as int;
        assert(a == 6033614054736716135883700036464527856);
        assert(s == 6033915727897812480138418113151109316);
        assert(a * 10000499987500624959910 * 0x1_0000_0000_0000_0000_0000 <= s * 10000000000000000000000 * (
        0x1_0000_0000_0000_0000_0000 + 0) && s * 10000000000000000000000 * 0x1_0000_0000_0000_0000_0000
            <= a * 10000499987500624961499 * (0x1_0000_0000_0000_0000_0000 + 0)) by (nonlinear_arith)
            requires
                a == 6033614054736716135883700036464527856,
                s == 6033915727897812480138418113151109316,
        ;
    } else if i == 20 {
        let a = run_below(20) as int;
        let s = scale(ladder_base(), 20) as int;
        assert(a == 0xfffc_b933_bd6f_ad39_046f_19ed_7732_6d78_d668_6810nat);
        assert(s == 0x1_0000_0000_0000_0000_0000_0000_0000_0000_000f_c698nat);
        assert(a * 10000499987500624959910 * 0x1_0000_0000_0000_0000_0000 <= s * 10000000000000000000000 * (
        0x1_0000_0000_0000_0000_0000 + 0) && s * 10000000000000000000000 * 0x1_0000_0000_0000_0000_0000
            <= a * 10000499987500624961499 * (0x1_0000_0000_0000_0000_0000 + 0)) by (nonlinear_arith)
            requires
                a == 0xfffc_b933_bd6f_ad39_046f_19ed_7732_6d78_d668_6810nat,
                s == 0x1_0000_0000_0000_0000_0000_0000_0000_0000_000f_c698nat,
        ;
    }
}

/// The ladders of `n` and of `n + 1` end within the factor of one tick of
/// each other.
proof fn lemma_ladder_step_factor(n: nat, i: nat)
    requires
        n + 1 < span(i),
    ensures
        near(
            ladder(n, i, run_below(i)),
            ladder(n + 1, i, ladder_base()),
            10000499987500624959910,
            10000000000000000000000,
            21,
        ),
        near(
            ladder(n + 1, i, ladder_base()),
            ladder(n, i, run_below(i)),
            10000000000000000000000,
            10000499987500624961499,
            21,
        ),
    decreases n,
{
    lemma_span_values();
    let b = ladder_base();
    let x = run_below(i);
    assert(i <= 20);
    if n % 2 == 0 {
        lemma_run_table(i);
        assert((n + 1) / 2 == n / 2 && (n + 1) % 2 == 1);
        assert(ladder(n + 1, i, b) == ladder(n / 2, i + 1, scale(b, i)));
        assert(ladder(n, i, x) == ladder(n / 2, i + 1, x));
        lemma_near_kept(n / 2, i + 1, x, scale(b, i), 10000499987500624959910, 10000000000000000000000, 0);
        lemma_near_kept(n / 2, i + 1, scale(b, i), x, 10000000000000000000000, 10000499987500624961499, 0);
        lemma_near_weakens(
            ladder(n / 2, i + 1, x),
            ladder(n / 2, i + 1, scale(b, i)),
            10000499987500624959910,
            10000000000000000000000,
            (20 - i) as nat,
            21,
        );
        lemma_near_weakens(
            ladder(n / 2, i + 1, scale(b, i)),
            ladder(n / 2, i + 1, x),
            10000000000000000000000,
            10000499987500624961499,
            (20 - i) as nat,
            21,
        );
    } else {
        assert(span(i) > 2);
        assert(i <= 19);
        assert((n + 1) / 2 == n / 2 + 1 && (n + 1) % 2 == 0);
        assert(run_below(i + 1) == scale(x, i));
        lemma_ladder_step_factor(n / 2, i + 1);
        assert(ladder(n, i, x) == ladder(n / 2, i + 1, scale(x, i)));
        assert(ladder(n + 1, i, b) == ladder(n / 2 + 1, i + 1, b));
    }
}

/// Every tick raises the sqrt price by a factor between 1.000049998 and
/// 1.00005: the square root of 1.0001 is 1.0000499988. With the price 2^96
/// of tick 0 this ties the sqrt price of tick `t` to `1.0001^(t/2) * 2^96`.
pub proof fn lemma_sqrt_price_factor(tick: int)
    requires
        MIN_TICK <= tick < MAX_TICK,
    ensures
        sqrt_price_at_tick(tick) * 1000049998 <= sqrt_price_at_tick(tick + 1) * 1000000000,
        sqrt_price_at_tick(tick + 1) * 1000000000 <= sqrt_price_at_tick(tick) * 1000050000,
{
    lemma_span_values();
    let n = (tick + 1048576) as nat;
    lemma_ladder_step_factor(n, 0);
    lemma_sqrt_price_valid(tick);
    lemma_sqrt_price_valid(tick + 1);
    let low = ladder(n, 0, ladder_base()) as int;
    let high = ladder(n + 1, 0, ladder_base()) as int;
    let u = unit() as int;
    let p = sqrt_price_at_tick(tick) as int;
    let q = sqrt_price_at_tick(tick + 1) as int;
    assert(run_below(0) == ladder_base());
    assert(p == low / u && q == high / u);
    assert(p * u <= low < p * u + u);
    assert(q * u <= high < q * u + u);
    assert(p >= 4295128738);
    assert(low * 10000499987500624959910 * 0x1_0000_0000_0000_0000_0000 <= high * 10000000000000000000000 * (
    0x1_0000_0000_0000_0000_0000 + 21));
    assert(high * 10000000000000000000000 * 0x1_0000_0000_0000_0000_0000 <= low * 10000499987500624961499 * (
    0x1_0000_0000_0000_0000_0000 + 21));
    assert(p * 10000499987500624959910 * 0x1_0000_0000_0000_0000_0000 < (q + 1) * 10000000000000000000000 * (
    0x1_0000_0000_0000_0000_0000 + 21)) by (nonlinear_arith)
        requires
            p * u <= low,
            high < q * u + u,
            u == 0x1_0000_0000_0000_0000,
            low * 10000499987500624959910 * 0x1_0000_0000_0000_0000_0000 <= high * 10000000000000000000000 * (
            0x1_0000_0000_0000_0000_0000 + 21),
    ;
    assert(p * 1000049998 <= q * 1000000000) by (nonlinear_arith)
        requires
            p * 10000499987500624959910 * 0x1_0000_0000_0000_0000_0000 < (q + 1) * 10000000000000000000000 * (
            0x1_0000_0000_0000_0000_0000 + 21),
            p >= 4295128738,
            q >= 0,
    ;
    assert(q * 10000000000000000000000 * 0x1_0000_0000_0000_0000_0000 < (p + 1) * 10000499987500624961499 * (
    0x1_0000_0000_0000_0000_0000 + 21)) by (nonlinear_arith)
        requires
            q * u <= high,
            low < p * u + u,
            u == 0x1_0000_0000_0000_0000,
            high * 10000000000000000000000 * 0x1_0000_0000_0000_0000_0000 <= low * 10000499987500624961499 * (
            0x1_0000_0000_0000_0000_0000 + 21),
    ;
    assert(q * 1000000000 <= p * 1000050000) by (nonlinear_arith)
        requires
            q * 10000000000000000000000 * 0x1_0000_0000_0000_0000_0000 < (p + 1) * 10000499987500624961499 * (
            0x1_0000_0000_0000_0000_0000 + 21),
            p >= 4295128738,
            q >= 0,
    ;
}

/// `b` raised to the power `e`.
pub open spec fn power(b: nat, e: nat) -> nat
    decreases e,
{
    if e == 0 {
        1
    } else {
        b * power(b, (e - 1) as nat)
    }
}

/// A power of a positive number is positive.
pub proof fn lemma_power_positive(b: nat, e: nat)
    requires
        b > 0,
    ensures
        power(b, e) > 0,
    decreases e,
{
    if e > 0 {
        lemma_power_positive(b, (e - 1) as nat);
        let rest = power(b, (e - 1) as nat);
        assert(b * rest > 0) by (nonlinear_arith)
            requires
                b > 0,
                rest > 0,
        ;
    }
}

/// Every tick raises the accumulator by a factor between 1.00004999875006249
/// and 1.0000499987500625.
proof fn lemma_accumulator_factor(tick: int)
    requires
        MIN_TICK <= tick < MAX_TICK,
    ensures
        sqrt_price_accumulator(tick) * 100004999875006249 <= sqrt_price_accumulator(tick + 1)
            * 100000000000000000,
        sqrt_price_accumulator(tick + 1) * 100000000000000000 <= sqrt_price_accumulator(tick)
            * 100004999875006250,
{
    lemma_span_values();
    let n = (tick + 1048576) as nat;
    lemma_ladder_step_factor(n, 0);
    assert(run_below(0) == ladder_base());
    let low = sqrt_price_accumulator(tick) as int;
    let high = sqrt_price_accumulator(tick + 1) as int;
    assert(low * 10000499987500624959910 * 0x1_0000_0000_0000_0000_0000 <= high * 10000000000000000000000 * (
    0x1_0000_0000_0000_0000_0000 + 21));
    assert(high * 10000000000000000000000 * 0x1_0000_0000_0000_0000_0000 <= low * 10000499987500624961499 * (
    0x1_0000_0000_0000_0000_0000 + 21));
    assert(low * 100004999875006249 <= high * 100000000000000000) by (nonlinear_arith)
        requires
            low * 10000499987500624959910 * 0x1_0000_0000_0000_0000_0000 <= high * 10000000000000000000000 * (
            0x1_0000_0000_0000_0000_0000 + 21),
            low >= 0,
            high >= 0,
    ;
    assert(high * 100000000000000000 <= low * 100004999875006250) by (nonlinear_arith)
        requires
            high * 10000000000000000000000 * 0x1_0000_0000_0000_0000_0000 <= low * 10000499987500624961499 * (
            0x1_0000_0000_0000_0000_0000 + 21),
            low >= 0,
            high >= 0,
    ;
}

/// The accumulator follows the powers of the two factors from tick 0 on, in
/// both directions.
proof fn lemma_accumulator_near_power(t: nat)
    requires
        t <= MAX_TICK,
    ensures
        sqrt_price_accumulator(0) * power(100004999875006249, t) <= sqrt_price_accumulator(
            t as int,
        ) * power(100000000000000000, t),
        sqrt_price_accumulator(t as int) * power(100000000000000000, t) <= sqrt_price_accumulator(
            0,
        ) * power(100004999875006250, t),
        sqrt_price_accumulator(-(t as int)) * power(100004999875006249, t)
            <= sqrt_price_accumulator(0) * power(100000000000000000, t),
        sqrt_price_accumulator(0) * power(100000000000000000, t) <= sqrt_price_accumulator(
            -(t as int),
        ) * power(100004999875006250, t),
    decreases t,
{
    if t > 0 {
        let s = (t - 1) as nat;
        lemma_accumulator_near_power(s);
        lemma_accumulator_factor(t - 1);
        lemma_accumulator_factor(-(t as int));
        let q = sqrt_price_accumulator(0) as int;
        let n: int = 100004999875006249;
        let d: int = 100000000000000000;
        let h: int = 100004999875006250;
        let n1 = power(100004999875006249, s) as int;
        let d1 = power(100000000000000000, s) as int;
        let h1 = power(100004999875006250, s) as int;
        let a = sqrt_price_accumulator(t - 1) as int;
        let b = sqrt_price_accumulator(t as int) as int;
        let c = sqrt_price_accumulator(-(t as int)) as int;
        let e = sqrt_price_accumulator(-(t as int) + 1) as int;
        assert(e == sqrt_price_accumulator(-(s as int)));
        assert(power(100004999875006249, t) == n * n1);
        assert(power(100000000000000000, t) == d * d1);
        assert(power(100004999875006250, t) == h * h1);
        assert(q * (n * n1) <= b * (d * d1)) by (nonlinear_arith)
            requires
                q * n1 <= a * d1,
                a * n <= b * d,
                n >= 0,
                d1 >= 0,
        ;
        assert(b * (d * d1) <= q * (h * h1)) by (nonlinear_arith)
            requires
                a * d1 <= q * h1,
                b * d <= a * h,
                h >= 0,
                d1 >= 0,
        ;
        assert(c * (n * n1) <= q * (d * d1)) by (nonlinear_arith)
            requires
                e * n1 <= q * d1,
                c * n <= e * d,
                d >= 0,
                n1 >= 0,
        ;
        assert(q * (d * d1) <= c * (h * h1)) by (nonlinear_arith)
            requires
                q * d1 <= e * h1,
                e * d <= c * h,
                d >= 0,
                h1 >= 0,
        ;
    } else {
        assert(power(100004999875006249, 0) == 1);
        assert(power(100000000000000000, 0) == 1);
        assert(power(100004999875006250, 0) == 1);
    }
}

/// The sqrt price follows the powers of the square root of 1.0001, which is
/// 1.000049998750062496...: with `lo = 1.00004999875006249` and `hi =
/// 1.0000499987500625`, the sqrt price `p` of tick `t` has `2^96 * lo^t < p +
/// 1` and `p < (2^96 + 1) * hi^t`, and the sqrt price `p` of tick `-t` has
/// `2^96 / hi^t < p + 1` and `p < (2^96 + 1) / lo^t`. The two factors differ
/// by one part in 10^17, so over all ticks the two bounds differ by less than
/// one part in 10^11.
pub proof fn lemma_sqrt_price_near_power(t: nat)
    requires
        t <= MAX_TICK,
    ensures
        0x1_0000_0000_0000_0000_0000_0000 * power(100004999875006249, t) < (sqrt_price_at_tick(
            t as int,
        ) + 1) * power(100000000000000000, t),
        sqrt_price_at_tick(t as int) * power(100000000000000000, t) < (
        0x1_0000_0000_0000_0000_0000_0000 + 1) * power(100004999875006250, t),
        0x1_0000_0000_0000_0000_0000_0000 * power(100000000000000000, t) < (sqrt_price_at_tick(
            -(t as int),
        ) + 1) * power(100004999875006250, t),
        sqrt_price_at_tick(-(t as int)) * power(100004999875006249, t) < (
        0x1_0000_0000_0000_0000_0000_0000 + 1) * power(100000000000000000, t),
{
    lemma_accumulator_near_power(t);
    lemma_ladder_zero();
    lemma_power_positive(100004999875006249, t);
    lemma_power_positive(100000000000000000, t);
    lemma_power_positive(100004999875006250, t);
    let u = unit() as int;
    let q: int = 0x1_0000_0000_0000_0000_0000_0000;
    let zero = sqrt_price_accumulator(0) as int;
    assert(q * u <= zero < (q + 1) * u);
    let up = sqrt_price_accumulator(t as int) as int;
    let down = sqrt_price_accumulator(-(t as int)) as int;
    let p = sqrt_price_at_tick(t as int) as int;
    let m = sqrt_price_at_tick(-(t as int)) as int;
    assert(p == up / u && m == down / u);
    assert(p * u <= up < (p + 1) * u);
    assert(m * u <= down < (m + 1) * u);
    let l = power(100004999875006249, t) as int;
    let d = power(100000000000000000, t) as int;
    let h = power(100004999875006250, t) as int;
    assert(q * l < (p + 1) * d) by (nonlinear_arith)
        requires
            zero * l <= up * d,
            q * u <= zero,
            up < (p + 1) * u,
            u > 0,
            l > 0,
            d > 0,
    ;
    assert(p * d < (q + 1) * h) by (nonlinear_arith)
        requires
            up * d <= zero * h,
            p * u <= up,
            zero < (q + 1) * u,
            u > 0,
            h > 0,
            d > 0,
    ;
    assert(q * d < (m + 1) * h) by (nonlinear_arith)
        requires
            zero * d <= down * h,
            q * u <= zero,
            down < (m + 1) * u,
            u > 0,
            h > 0,
            d > 0,
    ;
    assert(m * l < (q + 1) * d) by (nonlinear_arith)
        requires
            down * l <= zero * d,
            m * u <= down,
            zero < (q + 1) * u,
            u > 0,
            l > 0,
            d > 0,
    ;
}

/// The factor for bit `i`.
fn ratio_at(i: usize) -> (r: Wide)
    requires
        i <= 20,
    ensures
        r@ == ratio(i as nat),
{
    match i {
        0 => Wide::from_u128(18447666387855959851),
        1 => Wide::from_u128(18448588748116922571),
        2 => Wide::from_u128(18450433606991734263),
        3 => Wide::from_u128(18454123878217468680),
        4 => Wide::from_u128(18461506635090006702),
        5 => Wide::from_u128(18476281010653910145),
        6 => Wide::from_u128(18505865242158250042),
        7 => Wide::from_u128(18565175891880433523),
        8 => Wide::from_u128(18684368066214940583),
        9 => Wide::from_u128(18925053041275764672),
        10 => Wide::from_u128(19415764168677886927),
        11 => Wide::from_u128(20435687552633177495),
        12 => Wide::from_u128(22639080592224303007),
        13 => Wide::from_u128(27784196929998399742),
        14 => Wide::from_u128(41848122137994986129),
        15 => Wide::from_u128(94936283578220370716),
        16 => Wide::from_u128(488590176327622479861),
        17 => Wide::from_u128(12941056668319229769860),
        18 => Wide::from_u128(9078618265828848800676189),
        19 => Wide::from_u128(4468068147273140139091016147737),
        20 => Wide::from_parts(3180, 132784958548715730009487851371354254493),
        _ => Wide::from_u128(0x1_0000_0000_0000_0000),
    }
}

/// The sqrt price of `tick`, for a tick within the bounds.
pub fn tick_to_price(tick: i32) -> (r: Option<Wide>)
    ensures
        match r {
            Some(price) => valid_tick(tick as int) && price@ == sqrt_price_at_tick(tick as int)
                && valid_price(price@),
            None => !valid_tick(tick as int),
        },
{
    if tick < MIN_TICK || tick > MAX_TICK {
        return None;
    }
    let mut n: u32 = (tick + 1048576) as u32;
    let mut i: usize = 0;
    let mut acc = Wide::from_u128(24911459612090269273547393);
    let ghost end = ladder(n as nat, 0, ladder_base());
    proof {
        lemma_span_values();
        lemma_ratio_table(0);
        lemma_sqrt_price_valid(tick as int);
    }
    while n != 0
        invariant
            i <= 21,
            (n as nat) < span(i as nat),
            ladder(n as nat, i as nat, acc@) == end,
            acc@ * unit() <= ladder_base() * lower_product(i as nat),
        decreases n,
    {
        proof {
            lemma_span_values();
            assert(i <= 20);
            lemma_ratio_table(i as nat);
            lemma_scale_within(acc@, i as nat);
        }
        if n % 2 == 1 {
            let r = ratio_at(i);
            proof {
                lemma_pow64_values();
                let a = acc@ as int;
                let rv = r@ as int;
                assert(a < 0x2_0000_0000_0000_0000_0000_0000_0000_0000_0000_0000_0000_0000_0000_0000_0000_0000_0000_0000_0000_0000_0000_0000_0000nat);
                assert(a * rv < 0x2_0000_0000_0000_0000_0000_0000_0000_0000_0000_0000_0000_0000_0000_0000_0000_0000_0000_0000_0000_0000_0000_0000_0000nat
                    * 0x1000_0000_0000_0000_0000_0000_0000_0000_0000nat) by (nonlinear_arith)
                    requires
                        0 <= a < 0x2_0000_0000_0000_0000_0000_0000_0000_0000_0000_0000_0000_0000_0000_0000_0000_0000_0000_0000_0000_0000_0000_0000_0000nat,
                        0 <= rv < 0x1000_0000_0000_0000_0000_0000_0000_0000_0000nat,
                ;
            }
            acc = acc.mul(&r).shr_limb();
        }
        n = n / 2;
        i = i + 1;
    }
    Some(acc.shr_limb())
}

/// The lowest valid sqrt price.
pub fn lowest_price() -> (r: Wide)
    ensures
        r@ == min_sqrt_price(),
{
    Wide::from_u128(4295128738)
}

/// The highest valid sqrt price.
pub fn highest_price() -> (r: Wide)
    ensures
        r@ == max_sqrt_price(),
{
    Wide::from_parts(4294805859, 318775800654411385251119188041820585166)
}

/// The tick that `price` falls into, for a price between those of the lowest
/// and the highest tick.
pub fn price_to_tick(price: &Wide) -> (r: Option<i32>)
    ensures
        match r {
            Some(tick) => valid_price(price@) && is_tick_of(tick as int, price@) && tick
                == tick_at_sqrt_price(price@),
            None => !valid_price(price@),
        },
{
    let lowest = lowest_price();
    let highest = highest_price();
    if price.lt(&lowest) || highest.lt(price) {
        return None;
    }
    proof {
        lemma_sqrt_price_endpoints();
    }
    if highest.le(price) {
        proof {
            lemma_tick_at_sqrt_price(MAX_TICK as int, price@);
        }
        return Some(MAX_TICK);
    }
    let mut low: i32 = MIN_TICK;
    let mut high: i32 = MAX_TICK;
    while high - low > 1
        invariant
            MIN_TICK <= low < high <= MAX_TICK,
            sqrt_price_at_tick(low as int) <= price@ < sqrt_price_at_tick(high as int),
        decreases high - low,
    {
        let mid: i32 = low + (high - low) / 2;
        let at_mid = tick_to_price(mid).unwrap();
        if at_mid.le(price) {
            low = mid;
        } else {
            high = mid;
        }
    }
    proof {
        lemma_tick_at_sqrt_price(low as int, price@);
    }
    Some(low)
}

} // verus!
