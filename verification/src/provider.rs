//! The liquidity provider of the simulation: it adds or removes liquidity as
//! a random draw says.

use rand::Rng;
use vstd::prelude::*;

verus! {

/// The liquidity that the provider adds in one move.
pub const PROVIDER_ADDITION: i128 = 20000;

/// The liquidity that the provider removes in one move.
pub const PROVIDER_REMOVAL: i128 = 10000;

/// The change of liquidity that the provider makes on a draw: an addition on
/// a draw above five, a removal else.
pub open spec fn delta_for_draw(draw: int) -> int {
    if draw > 5 {
        PROVIDER_ADDITION as int
    } else {
        -PROVIDER_REMOVAL
    }
}

/// `rand::rngs::ThreadRng`, the handle of a thread's random number generator.
/// Nothing is known of what it holds.
#[verifier::external_type_specification]
#[verifier::external_body]
pub struct ExThreadRng(rand::rngs::ThreadRng);

/// `rand::thread_rng`: the handle of the generator of the calling thread,
/// which the system seeds on first use. Nothing is claimed of it. The call
/// panics only where the system cannot seed the generator.
#[verifier::external_body]
fn thread_generator() -> rand::rngs::ThreadRng {
    rand::thread_rng()
}

/// `rand::Rng::gen_range` over `0..10`. The range is not empty, so the call
/// does not panic. All that is claimed of the result is that it lies in the
/// range: which value comes is left open.
#[verifier::external_body]
fn draw_below_ten(rng: &mut rand::rngs::ThreadRng) -> (r: i32)
    ensures
        0 <= r < 10,
{
    rng.gen_range(0..10)
}

/// The change of liquidity that the provider makes on `draw`.
pub fn liquidity_delta_for(draw: i32) -> (r: i128)
    ensures
        r == delta_for_draw(draw as int),
{
    if draw > 5 {
        PROVIDER_ADDITION
    } else {
        -PROVIDER_REMOVAL
    }
}

/// The provider's next change of liquidity, as a fresh draw says.
pub fn random_liquidity_delta() -> (r: i128)
    ensures
        r == PROVIDER_ADDITION || r == -PROVIDER_REMOVAL,
        exists|draw: int| 0 <= draw < 10 && r == delta_for_draw(draw),
{
    let mut rng = thread_generator();
    let draw = draw_below_ten(&mut rng);
    liquidity_delta_for(draw)
}

} // verus!
