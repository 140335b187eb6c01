//! A concentrated-liquidity pool in Q96 fixed point, and a search for the
//! most profitable round trip between two such pools.
//!
//! Every number is an integer. A sqrt price is the square root of the price
//! of token0 in token1, times 2^96; an amount counts the smallest units of an
//! asset; liquidity and ticks are plain integers. Divisions round down unless
//! a function says otherwise, so a pool never pays out more than its rules
//! allow.
//!
//! - [`wide`]: the 512-bit integers that the products of the arithmetic need.
//! - [`tick_math`]: the sqrt price of every tick and the tick of every price.
//! - [`math`]: the constants, the amounts that a liquidity stands for, and one
//!   step of a swap.
//! - [`ticks`]: the initialized ticks of a pool.
//! - [`pool`]: the pool, and the minting and burning of liquidity.
//! - [`swap`]: the swap.
//! - [`arbitrage`]: the round trip between two pools and the search for its
//!   best input.
//! - [`provider`]: the random liquidity provider of the simulation.

pub mod arbitrage;
pub mod math;
pub mod pool;
pub mod provider;
pub mod swap;
pub mod tick_math;
pub mod ticks;
pub mod wide;
