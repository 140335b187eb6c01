//! The tick registry: the net liquidity of every initialized tick.

use std::collections::HashMap;
use vstd::prelude::*;
use vstd::std_specs::hash::*;

verus! {

broadcast use vstd::std_specs::hash::group_hash_axioms;

/// One price boundary.
#[derive(Clone, Copy, Debug, PartialEq, Eq, Structural)]
pub struct Tick {
    /// The liquidity that is added when the price crosses this tick upwards,
    /// and taken away when it crosses downwards.
    pub liquidity: i128,
    /// Whether any net liquidity rests on this tick.
    pub initialized: bool,
}

/// The record of a tick that no position touches.
pub open spec fn blank_tick() -> Tick {
    Tick { liquidity: 0, initialized: false }
}

/// The record of `tick` in `ticks`.
pub open spec fn tick_of(ticks: Map<i32, Tick>, tick: i32) -> Tick {
    if ticks.contains_key(tick) {
        ticks[tick]
    } else {
        blank_tick()
    }
}

/// The net liquidity of `tick` in `ticks`.
pub open spec fn net_of(ticks: Map<i32, Tick>, tick: i32) -> int {
    tick_of(ticks, tick).liquidity as int
}

/// Whether `ticks` holds the initialized ticks and no others: each tick in it
/// has net liquidity and is marked initialized.
pub open spec fn registry_wf(ticks: Map<i32, Tick>) -> bool {
    forall|t: i32| #[trigger]
        ticks.contains_key(t) ==> ticks[t].initialized && ticks[t].liquidity != 0
}

/// `ticks` after `delta` has been added to the net liquidity of `tick`: the
/// tick leaves the registry where its net liquidity returns to zero.
pub open spec fn with_delta(ticks: Map<i32, Tick>, tick: i32, delta: int) -> Map<i32, Tick> {
    let net = net_of(ticks, tick) + delta;
    if net == 0 {
        ticks.remove(tick)
    } else {
        ticks.insert(tick, Tick { liquidity: net as i128, initialized: true })
    }
}

/// Whether adding `delta` takes `tick` from no net liquidity to some, or back.
pub open spec fn flips(ticks: Map<i32, Tick>, tick: i32, delta: int) -> bool {
    (net_of(ticks, tick) == 0) != (net_of(ticks, tick) + delta == 0)
}

/// Whether `candidate` lies at or past `from` in the direction of the search.
pub open spec fn lies_ahead(candidate: int, from: int, is_up: bool) -> bool {
    if is_up {
        candidate >= from
    } else {
        candidate <= from
    }
}

/// Whether `tick` is the initialized tick nearest to `from` among those at or
/// past it: the least one that is not below `from` where `is_up` holds, the
/// greatest one that is not above `from` else.
pub open spec fn is_next_initialized(ticks: Map<i32, Tick>, from: i32, is_up: bool, tick: i32) -> bool {
    &&& ticks.contains_key(tick)
    &&& lies_ahead(tick as int, from as int, is_up)
    &&& forall|other: i32| #[trigger]
        ticks.contains_key(other) && lies_ahead(other as int, from as int, is_up) ==> lies_ahead(
            other as int,
            tick as int,
            is_up,
        )
}

/// The initialized tick nearest to `from` among those at or past it, if there is one.
pub open spec fn next_initialized(ticks: Map<i32, Tick>, from: i32, is_up: bool) -> Option<i32> {
    if exists|tick: i32| is_next_initialized(ticks, from, is_up, tick) {
        Some(choose|tick: i32| is_next_initialized(ticks, from, is_up, tick))
    } else {
        None
    }
}

/// There is one nearest initialized tick at most.
pub proof fn lemma_next_initialized_unique(
    ticks: Map<i32, Tick>,
    from: i32,
    is_up: bool,
    first: i32,
    second: i32,
)
    requires
        is_next_initialized(ticks, from, is_up, first),
        is_next_initialized(ticks, from, is_up, second),
    ensures
        first == second,
{
}

/// Adding `delta` to a tick and taking it away again leaves the ticks as they were.
pub proof fn lemma_with_delta_undone(ticks: Map<i32, Tick>, tick: i32, delta: int)
    requires
        registry_wf(ticks),
        i128::MIN <= net_of(ticks, tick) + delta <= i128::MAX,
    ensures
        with_delta(with_delta(ticks, tick, delta), tick, -delta) =~= ticks,
        registry_wf(with_delta(ticks, tick, delta)),
{
    let after = with_delta(ticks, tick, delta);
    assert(net_of(after, tick) == net_of(ticks, tick) + delta);
    if ticks.contains_key(tick) {
        assert(ticks[tick].initialized && ticks[tick].liquidity != 0);
    }
}

/// Changes of two different ticks can be made in either order.
pub proof fn lemma_with_delta_commutes(
    ticks: Map<i32, Tick>,
    first: i32,
    first_delta: int,
    second: i32,
    second_delta: int,
)
    requires
        first != second,
    ensures
        with_delta(with_delta(ticks, first, first_delta), second, second_delta) =~= with_delta(
            with_delta(ticks, second, second_delta),
            first,
            first_delta,
        ),
{
    let by_first = with_delta(ticks, first, first_delta);
    let by_second = with_delta(ticks, second, second_delta);
    assert(net_of(by_first, second) == net_of(ticks, second));
    assert(net_of(by_second, first) == net_of(ticks, first));
}

/// The initialized ticks of one pool.
pub struct TickRegistry {
    ticks: HashMap<i32, Tick>,
}

impl View for TickRegistry {
    type V = Map<i32, Tick>;

    closed spec fn view(&self) -> Map<i32, Tick> {
        self.ticks@
    }
}

impl TickRegistry {
    /// Whether the registry holds initialized ticks only.
    pub open spec fn wf(&self) -> bool {
        registry_wf(self@)
    }

    /// A registry without ticks.
    pub fn new() -> (r: TickRegistry)
        ensures
            r@ == Map::<i32, Tick>::empty(),
            r.wf(),
    {
        TickRegistry { ticks: HashMap::new() }
    }

    /// A copy of the registry.
    pub fn snapshot(&self) -> (r: TickRegistry)
        ensures
            r@ == self@,
    {
        TickRegistry { ticks: self.ticks.clone() }
    }

    /// The record of `tick`.
    pub fn get(&self, tick: i32) -> (r: Tick)
        ensures
            r == tick_of(self@, tick),
    {
        match self.ticks.get(&tick) {
            Some(found) => *found,
            None => Tick { liquidity: 0, initialized: false },
        }
    }

    /// Adds `liquidity_delta` to the net liquidity of `tick` and says whether
    /// the tick flipped between no net liquidity and some. Where the sum does
    /// not fit, nothing changes.
    pub fn update(&mut self, tick: i32, liquidity_delta: i128) -> (r: Option<bool>)
        requires
            old(self).wf(),
        ensures
            final(self).wf(),
            match r {
                Some(flipped) => {
                    &&& i128::MIN <= net_of(old(self)@, tick) + liquidity_delta <= i128::MAX
                    &&& final(self)@ == with_delta(old(self)@, tick, liquidity_delta as int)
                    &&& flipped == flips(old(self)@, tick, liquidity_delta as int)
                },
                None => {
                    &&& !(i128::MIN <= net_of(old(self)@, tick) + liquidity_delta <= i128::MAX)
                    &&& final(self)@ == old(self)@
                },
            },
    {
        let liquidity_before = self.get(tick).liquidity;
        let liquidity_after = match liquidity_before.checked_add(liquidity_delta) {
            Some(sum) => sum,
            None => {
                return None;
            },
        };
        if liquidity_after == 0 {
            self.ticks.remove(&tick);
        } else {
            self.ticks.insert(tick, Tick { liquidity: liquidity_after, initialized: true });
        }
        Some((liquidity_after == 0) != (liquidity_before == 0))
    }

    /// The initialized tick nearest to `tick` among those at or past it: upwards
    /// where `is_up` holds, downwards else.
    pub fn next_initialized_tick(&self, tick: i32, is_up: bool) -> (r: Option<i32>)
        ensures
            r == next_initialized(self@, tick, is_up),
            match r {
                Some(next) => is_next_initialized(self@, tick, is_up, next),
                None => forall|other: i32| #[trigger]
                    self@.contains_key(other) ==> !lies_ahead(other as int, tick as int, is_up),
            },
    {
        let mut best: Option<i32> = None;
        for key in it: self.ticks.keys()
            invariant
                it.seq().unref().to_set() == self.ticks@.dom(),
                match best {
                    Some(b) => {
                        &&& self.ticks@.contains_key(b)
                        &&& lies_ahead(b as int, tick as int, is_up)
                        &&& forall|j: int|
                            0 <= j < it.index() && lies_ahead(
                                *#[trigger] it.seq()[j] as int,
                                tick as int,
                                is_up,
                            ) ==> lies_ahead(*it.seq()[j] as int, b as int, is_up)
                    },
                    None => forall|j: int|
                        0 <= j < it.index() ==> !lies_ahead(
                            *#[trigger] it.seq()[j] as int,
                            tick as int,
                            is_up,
                        ),
                },
        {
            let candidate: i32 = *key;
            proof {
                assert(it.seq().unref()[it.index()] == candidate);
                assert(it.seq().unref().to_set().contains(candidate));
            }
            let ahead = if is_up {
                candidate >= tick
            } else {
                candidate <= tick
            };
            if ahead {
                best = match best {
                    None => Some(candidate),
                    Some(b) => {
                        let nearer = if is_up {
                            candidate < b
                        } else {
                            candidate > b
                        };
                        if nearer {
                            Some(candidate)
                        } else {
                            Some(b)
                        }
                    },
                };
            }
        }
        proof {
            match best {
                Some(b) => {
                    assert(is_next_initialized(self@, tick, is_up, b));
                    let chosen = choose|t: i32| is_next_initialized(self@, tick, is_up, t);
                    lemma_next_initialized_unique(self@, tick, is_up, b, chosen);
                },
                None => {
                    assert forall|t: i32| !is_next_initialized(self@, tick, is_up, t) by {
                        if self@.contains_key(t) {
                            assert(!lies_ahead(t as int, tick as int, is_up));
                        }
                    }
                },
            }
        }
        best
    }

    /// The net liquidity that crossing `next_tick` upwards adds.
    pub fn cross(&self, next_tick: i32) -> (r: i128)
        ensures
            r == net_of(self@, next_tick),
    {
        self.get(next_tick).liquidity
    }
}

} // verus!
