//! Unsigned 512-bit integers.
//!
//! The pool arithmetic multiplies 128-bit liquidity by 160-bit prices and by the
//! fixed-point unit before it divides, so its intermediate values need far more
//! than 128 bits. `Wide` holds eight 64-bit limbs, least significant first, and
//! its view is the natural number that the limbs spell.

use vstd::arithmetic::div_mod::lemma_fundamental_div_mod_converse;
use vstd::arithmetic::power2::{lemma2_to64, lemma_pow2_adds, lemma_pow2_pos, pow2};
use vstd::prelude::*;

verus! {

/// The radix of one limb: 2^64.
pub open spec fn base() -> nat {
    0x1_0000_0000_0000_0000
}

/// `base()` raised to the power `k`.
pub open spec fn pow64(k: nat) -> nat
    decreases k,
{
    if k == 0 {
        1
    } else {
        base() * pow64((k - 1) as nat)
    }
}

/// The first value that a `Wide` cannot hold: 2^512.
pub open spec fn limit() -> nat {
    pow64(8)
}

/// The number that the first `n` limbs of `s` spell, least significant limb first.
pub open spec fn limbs_value(s: Seq<u64>, n: nat) -> nat
    decreases n,
{
    if n == 0 {
        0
    } else {
        limbs_value(s, (n - 1) as nat) + (s[n - 1] as nat) * pow64((n - 1) as nat)
    }
}

/// The number that the limbs `j..n` of `s` spell when limb `j` is taken as the
/// least significant one.
pub open spec fn limbs_high(s: Seq<u64>, j: nat, n: nat) -> nat
    decreases n - j,
{
    if j >= n {
        0
    } else {
        (s[j as int] as nat) + base() * limbs_high(s, j + 1, n)
    }
}

/// The powers of the radix up to the eighth, written out.
pub proof fn lemma_pow64_values()
    ensures
        pow64(0) == 1,
        pow64(1) == 0x1_0000_0000_0000_0000,
        pow64(2) == 0x1_0000_0000_0000_0000_0000_0000_0000_0000,
        pow64(3) == 0x1_0000_0000_0000_0000_0000_0000_0000_0000_0000_0000_0000_0000,
        pow64(4) == 0x1_0000_0000_0000_0000_0000_0000_0000_0000_0000_0000_0000_0000_0000_0000_0000_0000,
        pow64(5) == 0x1_0000_0000_0000_0000 * pow64(4),
        pow64(6) == 0x1_0000_0000_0000_0000_0000_0000_0000_0000 * pow64(4),
        pow64(7) == 0x1_0000_0000_0000_0000_0000_0000_0000_0000_0000_0000_0000_0000 * pow64(4),
        pow64(8) == pow64(4) * pow64(4),
        limit()
            == 0x1_0000_0000_0000_0000_0000_0000_0000_0000_0000_0000_0000_0000_0000_0000_0000_0000_0000_0000_0000_0000_0000_0000_0000_0000_0000_0000_0000_0000_0000_0000_0000_0000,
{
    reveal_with_fuel(pow64, 10);
}

/// `pow64(k)` is the power of two with exponent `64 * k`.
pub proof fn lemma_pow64_is_pow2(k: nat)
    ensures
        pow64(k) == pow2(64 * k),
    decreases k,
{
    lemma2_to64();
    if k > 0 {
        lemma_pow64_is_pow2((k - 1) as nat);
        lemma_pow2_adds(64, (64 * (k - 1)) as nat);
    }
}

/// Every power of the radix is positive.
pub proof fn lemma_pow64_positive(k: nat)
    ensures
        pow64(k) > 0,
    decreases k,
{
    if k > 0 {
        lemma_pow64_positive((k - 1) as nat);
        let p = pow64((k - 1) as nat);
        assert(base() * p > 0) by (nonlinear_arith)
            requires
                p > 0,
                base() > 0,
        ;
    }
}

/// Two limb sequences that agree on their first `n` limbs spell the same number there.
pub proof fn lemma_limbs_value_agree(s: Seq<u64>, t: Seq<u64>, n: nat)
    requires
        forall|i: int| 0 <= i < n ==> s[i] == t[i],
    ensures
        limbs_value(s, n) == limbs_value(t, n),
    decreases n,
{
    if n > 0 {
        lemma_limbs_value_agree(s, t, (n - 1) as nat);
    }
}

/// Limbs that are all zero spell zero.
pub proof fn lemma_limbs_value_zero(s: Seq<u64>, n: nat)
    requires
        forall|i: int| 0 <= i < n ==> s[i] == 0u64,
    ensures
        limbs_value(s, n) == 0,
    decreases n,
{
    if n > 0 {
        lemma_limbs_value_zero(s, (n - 1) as nat);
        assert(s[n - 1] == 0u64);
        assert(0 * pow64((n - 1) as nat) == 0);
    }
}

/// `n` limbs spell a number below the `n`-th power of the radix.
pub proof fn lemma_limbs_value_bound(s: Seq<u64>, n: nat)
    ensures
        limbs_value(s, n) < pow64(n),
    decreases n,
{
    if n > 0 {
        lemma_limbs_value_bound(s, (n - 1) as nat);
        let p = pow64((n - 1) as nat) as int;
        let d = s[n - 1] as int;
        assert(d * p + p <= base() * p) by (nonlinear_arith)
            requires
                0 <= d <= base() - 1,
                p >= 0,
        ;
    }
}

/// The least significant limb can be split off: the rest counts one radix higher.
pub proof fn lemma_limbs_value_low(s: Seq<u64>, n: nat)
    requires
        0 < n <= s.len(),
    ensures
        limbs_value(s, n) == (s[0] as nat) + base() * limbs_value(
            s.subrange(1, s.len() as int),
            (n - 1) as nat,
        ),
    decreases n,
{
    let rest = s.subrange(1, s.len() as int);
    if n == 1 {
        assert(limbs_value(s, 0) == 0);
        assert(limbs_value(rest, 0) == 0);
        assert(pow64(0) == 1);
    } else {
        lemma_limbs_value_low(s, (n - 1) as nat);
        let p = pow64((n - 2) as nat) as int;
        let d = s[n - 1] as int;
        let r = limbs_value(rest, (n - 2) as nat) as int;
        assert(rest[n - 2] == s[n - 1]);
        assert(pow64((n - 1) as nat) == base() * pow64((n - 2) as nat));
        assert(limbs_value(rest, (n - 1) as nat) == r + d * p);
        assert(base() * (r + d * p) == base() * r + d * (base() * p)) by (nonlinear_arith);
    }
}

/// The limbs from `j` on, taken as a number, stand in the whole at `pow64(j)`.
pub proof fn lemma_limbs_value_split(s: Seq<u64>, j: nat, n: nat)
    requires
        j <= n,
    ensures
        limbs_value(s, n) == limbs_value(s, j) + pow64(j) * limbs_high(s, j, n),
    decreases n - j,
{
    if j == n {
        assert(pow64(j) * 0 == 0);
    } else {
        lemma_limbs_value_split(s, j + 1, n);
        let p = pow64(j) as int;
        let d = s[j as int] as int;
        let h = limbs_high(s, j + 1, n) as int;
        assert(pow64(j + 1) == base() * pow64(j));
        assert(limbs_value(s, j + 1) == limbs_value(s, j) + d * p);
        assert(p * (d + base() * h) == d * p + (base() * p) * h) by (nonlinear_arith);
    }
}

/// With equal limbs above position `k`, the limb at `k` decides which number is smaller.
pub proof fn lemma_limbs_value_less(s: Seq<u64>, t: Seq<u64>, k: nat, n: nat)
    requires
        k < n,
        s[k as int] < t[k as int],
        forall|j: int| k < j < n ==> s[j] == t[j],
    ensures
        limbs_value(s, n) < limbs_value(t, n),
    decreases n,
{
    if n == k + 1 {
        lemma_limbs_value_bound(s, k);
        let p = pow64(k) as int;
        let a = s[k as int] as int;
        let b = t[k as int] as int;
        assert(a * p + p <= b * p) by (nonlinear_arith)
            requires
                a + 1 <= b,
                p >= 0,
        ;
    } else {
        lemma_limbs_value_less(s, t, k, (n - 1) as nat);
        assert(s[n - 1] == t[n - 1]);
    }
}

/// Eight limbs spell the sum of their multiples of the powers of the radix.
pub proof fn lemma_limbs_value_unfold(s: Seq<u64>)
    ensures
        limbs_value(s, 8) == s[0] * 1 + s[1] * 0x1_0000_0000_0000_0000 + s[2] * 0x1_0000_0000_0000_0000_0000_0000_0000_0000 + s[3] * 0x1_0000_0000_0000_0000_0000_0000_0000_0000_0000_0000_0000_0000 + s[4] * 0x1_0000_0000_0000_0000_0000_0000_0000_0000_0000_0000_0000_0000_0000_0000_0000_0000 + s[5] * 0x1_0000_0000_0000_0000_0000_0000_0000_0000_0000_0000_0000_0000_0000_0000_0000_0000_0000_0000_0000_0000 + s[6] * 0x1_0000_0000_0000_0000_0000_0000_0000_0000_0000_0000_0000_0000_0000_0000_0000_0000_0000_0000_0000_0000_0000_0000_0000_0000 + s[7] * 0x1_0000_0000_0000_0000_0000_0000_0000_0000_0000_0000_0000_0000_0000_0000_0000_0000_0000_0000_0000_0000_0000_0000_0000_0000_0000_0000_0000_0000,
{
    reveal_with_fuel(limbs_value, 9);
    reveal_with_fuel(pow64, 9);
    assert(pow64(0) == 1);
    assert(s[0] * pow64(0) == s[0] * 1);
    assert(pow64(1) == 0x1_0000_0000_0000_0000);
    assert(s[1] * pow64(1) == s[1] * 0x1_0000_0000_0000_0000);
    assert(pow64(2) == 0x1_0000_0000_0000_0000_0000_0000_0000_0000);
    assert(s[2] * pow64(2) == s[2] * 0x1_0000_0000_0000_0000_0000_0000_0000_0000);
    assert(pow64(3) == 0x1_0000_0000_0000_0000_0000_0000_0000_0000_0000_0000_0000_0000);
    assert(s[3] * pow64(3) == s[3] * 0x1_0000_0000_0000_0000_0000_0000_0000_0000_0000_0000_0000_0000);
    assert(pow64(4) == 0x1_0000_0000_0000_0000_0000_0000_0000_0000_0000_0000_0000_0000_0000_0000_0000_0000);
    assert(s[4] * pow64(4) == s[4] * 0x1_0000_0000_0000_0000_0000_0000_0000_0000_0000_0000_0000_0000_0000_0000_0000_0000);
    assert(pow64(5) == 0x1_0000_0000_0000_0000_0000_0000_0000_0000_0000_0000_0000_0000_0000_0000_0000_0000_0000_0000_0000_0000);
    assert(s[5] * pow64(5) == s[5] * 0x1_0000_0000_0000_0000_0000_0000_0000_0000_0000_0000_0000_0000_0000_0000_0000_0000_0000_0000_0000_0000);
    assert(pow64(6) == 0x1_0000_0000_0000_0000_0000_0000_0000_0000_0000_0000_0000_0000_0000_0000_0000_0000_0000_0000_0000_0000_0000_0000_0000_0000);
    assert(s[6] * pow64(6) == s[6] * 0x1_0000_0000_0000_0000_0000_0000_0000_0000_0000_0000_0000_0000_0000_0000_0000_0000_0000_0000_0000_0000_0000_0000_0000_0000);
    assert(pow64(7) == 0x1_0000_0000_0000_0000_0000_0000_0000_0000_0000_0000_0000_0000_0000_0000_0000_0000_0000_0000_0000_0000_0000_0000_0000_0000_0000_0000_0000_0000);
    assert(s[7] * pow64(7) == s[7] * 0x1_0000_0000_0000_0000_0000_0000_0000_0000_0000_0000_0000_0000_0000_0000_0000_0000_0000_0000_0000_0000_0000_0000_0000_0000_0000_0000_0000_0000);
}

/// An unsigned integer below 2^512.
#[derive(Clone, Copy, Debug, PartialEq, Eq)]
pub struct Wide {
    limbs: [u64; 8],
}

impl View for Wide {
    type V = nat;

    closed spec fn view(&self) -> nat {
        limbs_value(self.limbs@, 8)
    }
}

impl Wide {
    /// Every `Wide` is below `limit()`.
    pub proof fn lemma_bounded(self)
        ensures
            self@ < limit(),
    {
        lemma_limbs_value_bound(self.limbs@, 8);
    }

    /// Zero.
    pub fn zero() -> (r: Wide)
        ensures
            r@ == 0,
    {
        let r = Wide { limbs: [0u64; 8] };
        proof {
            assert(forall|i: int| 0 <= i < 8 ==> r.limbs@[i] == 0u64);
            lemma_limbs_value_zero(r.limbs@, 8);
        }
        r
    }

    /// The value `hi * 2^128 + lo`.
    pub fn from_parts(hi: u128, lo: u128) -> (r: Wide)
        ensures
            r@ == hi * 0x1_0000_0000_0000_0000_0000_0000_0000_0000 + lo,
    {
        let mut limbs = [0u64; 8];
        limbs[0] = (lo % 0x1_0000_0000_0000_0000) as u64;
        limbs[1] = (lo / 0x1_0000_0000_0000_0000) as u64;
        limbs[2] = (hi % 0x1_0000_0000_0000_0000) as u64;
        limbs[3] = (hi / 0x1_0000_0000_0000_0000) as u64;
        let r = Wide { limbs };
        proof {
            let s = r.limbs@;
            assert(s[0] == lo % 0x1_0000_0000_0000_0000);
            assert(s[1] == lo / 0x1_0000_0000_0000_0000);
            assert(s[2] == hi % 0x1_0000_0000_0000_0000);
            assert(s[3] == hi / 0x1_0000_0000_0000_0000);
            assert(s[4] == 0 && s[5] == 0 && s[6] == 0 && s[7] == 0);
            lemma_limbs_value_unfold(s);
        }
        r
    }

    /// The value of a `u128`.
    pub fn from_u128(x: u128) -> (r: Wide)
        ensures
            r@ == x,
    {
        Wide::from_parts(0, x)
    }

    /// The value as a `u128`, where it fits.
    pub fn to_u128(&self) -> (r: Option<u128>)
        ensures
            match r {
                Some(x) => x == self@,
                None => self@ > u128::MAX,
            },
    {
        proof {
            lemma_limbs_value_unfold(self.limbs@);
        }
        if self.limbs[2] != 0 || self.limbs[3] != 0 || self.limbs[4] != 0 || self.limbs[5] != 0
            || self.limbs[6] != 0 || self.limbs[7] != 0 {
            None
        } else {
            let lo: u128 = self.limbs[0] as u128;
            let hi: u128 = self.limbs[1] as u128;
            Some(hi * 0x1_0000_0000_0000_0000 + lo)
        }
    }

    /// -1, 0 or 1 as `self` is below, equal to or above `other`.
    pub fn rank_against(&self, other: &Wide) -> (r: i8)
        ensures
            r == -1 <==> self@ < other@,
            r == 0 <==> self@ == other@,
            r == 1 <==> self@ > other@,
            -1 <= r <= 1,
    {
        let mut i: usize = 8;
        while i > 0
            invariant
                i <= 8,
                forall|j: int| i <= j < 8 ==> self.limbs@[j] == other.limbs@[j],
            decreases i,
        {
            i = i - 1;
            if self.limbs[i] < other.limbs[i] {
                proof {
                    lemma_limbs_value_less(self.limbs@, other.limbs@, i as nat, 8);
                }
                return -1;
            }
            if self.limbs[i] > other.limbs[i] {
                proof {
                    lemma_limbs_value_less(other.limbs@, self.limbs@, i as nat, 8);
                }
                return 1;
            }
        }
        proof {
            lemma_limbs_value_agree(self.limbs@, other.limbs@, 8);
        }
        0
    }

    /// Whether `self` is below `other`.
    pub fn lt(&self, other: &Wide) -> (r: bool)
        ensures
            r == (self@ < other@),
    {
        self.rank_against(other) < 0
    }

    /// Whether `self` is not above `other`.
    pub fn le(&self, other: &Wide) -> (r: bool)
        ensures
            r == (self@ <= other@),
    {
        self.rank_against(other) <= 0
    }

    /// Whether both hold the same number.
    pub fn equals(&self, other: &Wide) -> (r: bool)
        ensures
            r == (self@ == other@),
    {
        self.rank_against(other) == 0
    }

    /// Whether the number is zero.
    pub fn is_zero(&self) -> (r: bool)
        ensures
            r == (self@ == 0),
    {
        let z = Wide::zero();
        self.rank_against(&z) == 0
    }

    /// The sum with a carry in and a carry out.
    pub fn add_with_carry(&self, other: &Wide, carry_in: bool) -> (r: (Wide, bool))
        ensures
            r.0@ + (if r.1 { limit() } else { 0 }) == self@ + other@ + (if carry_in { 1nat } else { 0 }),
    {
        let mut out = [0u64; 8];
        let mut carry: u128 = if carry_in { 1 } else { 0 };
        let mut i: usize = 0;
        while i < 8
            invariant
                i <= 8,
                carry <= 1,
                limbs_value(out@, i as nat) + carry * pow64(i as nat) == limbs_value(
                    self.limbs@,
                    i as nat,
                ) + limbs_value(other.limbs@, i as nat) + (if carry_in { 1nat } else { 0 }),
            decreases 8 - i,
        {
            let t: u128 = self.limbs[i] as u128 + other.limbs[i] as u128 + carry;
            let ghost prev = out@;
            let ghost old_carry = carry;
            out[i] = (t % 0x1_0000_0000_0000_0000) as u64;
            carry = t / 0x1_0000_0000_0000_0000;
            proof {
                lemma_limbs_value_agree(prev, out@, i as nat);
                let p = pow64(i as nat) as int;
                let lo = out@[i as int] as int;
                let c = carry as int;
                let a = self.limbs@[i as int] as int;
                let b = other.limbs@[i as int] as int;
                let oc = old_carry as int;
                assert(lo + c * base() == a + b + oc);
                assert(lo * p + c * (base() * p) == a * p + b * p + oc * p) by (nonlinear_arith)
                    requires
                        lo + c * base() == a + b + oc,
                ;
                assert(pow64((i + 1) as nat) == base() * pow64(i as nat));
                assert(limbs_value(out@, (i + 1) as nat) == limbs_value(out@, i as nat) + lo * p);
                assert(limbs_value(self.limbs@, (i + 1) as nat) == limbs_value(self.limbs@, i as nat)
                    + a * p);
                assert(limbs_value(other.limbs@, (i + 1) as nat) == limbs_value(
                    other.limbs@,
                    i as nat,
                ) + b * p);
            }
            i = i + 1;
        }
        (Wide { limbs: out }, carry == 1)
    }

    /// The sum, where it fits.
    pub fn add(&self, other: &Wide) -> (r: Wide)
        requires
            self@ + other@ < limit(),
        ensures
            r@ == self@ + other@,
    {
        let (sum, carry) = self.add_with_carry(other, false);
        sum
    }

    /// The difference modulo 2^512, and whether `self` was below `other`.
    pub fn sub_with_borrow(&self, other: &Wide) -> (r: (Wide, bool))
        ensures
            r.0@ + other@ == self@ + (if r.1 { limit() } else { 0 }),
            r.1 == (self@ < other@),
    {
        let mut out = [0u64; 8];
        let mut borrow: u128 = 0;
        let mut i: usize = 0;
        while i < 8
            invariant
                i <= 8,
                borrow <= 1,
                limbs_value(out@, i as nat) + limbs_value(other.limbs@, i as nat) == limbs_value(
                    self.limbs@,
                    i as nat,
                ) + borrow * pow64(i as nat),
            decreases 8 - i,
        {
            let a: u128 = self.limbs[i] as u128;
            let b: u128 = other.limbs[i] as u128 + borrow;
            let ghost prev = out@;
            let ghost old_borrow = borrow;
            if a >= b {
                out[i] = (a - b) as u64;
                borrow = 0;
            } else {
                out[i] = (a + 0x1_0000_0000_0000_0000 - b) as u64;
                borrow = 1;
            }
            proof {
                lemma_limbs_value_agree(prev, out@, i as nat);
                let p = pow64(i as nat) as int;
                let lo = out@[i as int] as int;
                let c = borrow as int;
                let x = self.limbs@[i as int] as int;
                let y = other.limbs@[i as int] as int;
                let oc = old_borrow as int;
                assert(lo + y + oc == x + c * base());
                assert(lo * p + y * p + oc * p == x * p + c * (base() * p)) by (nonlinear_arith)
                    requires
                        lo + y + oc == x + c * base(),
                ;
                assert(pow64((i + 1) as nat) == base() * pow64(i as nat));
                assert(limbs_value(out@, (i + 1) as nat) == limbs_value(out@, i as nat) + lo * p);
                assert(limbs_value(self.limbs@, (i + 1) as nat) == limbs_value(self.limbs@, i as nat)
                    + x * p);
                assert(limbs_value(other.limbs@, (i + 1) as nat) == limbs_value(
                    other.limbs@,
                    i as nat,
                ) + y * p);
            }
            i = i + 1;
        }
        let r = Wide { limbs: out };
        proof {
            r.lemma_bounded();
            self.lemma_bounded();
            other.lemma_bounded();
        }
        (r, borrow == 1)
    }

    /// The difference, where `self` is not below `other`.
    pub fn sub(&self, other: &Wide) -> (r: Wide)
        requires
            self@ >= other@,
        ensures
            r@ == self@ - other@,
    {
        let (diff, borrow) = self.sub_with_borrow(other);
        diff
    }

    /// The distance between two values.
    pub fn abs_diff(&self, other: &Wide) -> (r: Wide)
        ensures
            r@ == (if self@ >= other@ { self@ - other@ } else { other@ - self@ }),
    {
        if self.lt(other) {
            other.sub(self)
        } else {
            self.sub(other)
        }
    }

    /// The product with one limb: the low 512 bits and the limb that runs over.
    pub fn mul_small(&self, k: u64) -> (r: (Wide, u64))
        ensures
            r.0@ + r.1 * limit() == self@ * k,
    {
        let mut out = [0u64; 8];
        let mut carry: u128 = 0;
        let mut i: usize = 0;
        proof {
            assert(limbs_value(self.limbs@, 0) == 0);
            assert(0 * (k as int) == 0);
            assert(0 * pow64(0) == 0);
        }
        while i < 8
            invariant
                i <= 8,
                carry < 0x1_0000_0000_0000_0000,
                limbs_value(out@, i as nat) + carry * pow64(i as nat) == limbs_value(
                    self.limbs@,
                    i as nat,
                ) * k,
            decreases 8 - i,
        {
            let a: u128 = self.limbs[i] as u128;
            let kk: u128 = k as u128;
            assert(a * kk <= 0xffff_ffff_ffff_ffff * 0xffff_ffff_ffff_ffff) by (nonlinear_arith)
                requires
                    a <= 0xffff_ffff_ffff_ffff,
                    kk <= 0xffff_ffff_ffff_ffff,
            ;
            let t: u128 = a * kk + carry;
            let ghost prev = out@;
            let ghost old_carry = carry;
            out[i] = (t % 0x1_0000_0000_0000_0000) as u64;
            carry = t / 0x1_0000_0000_0000_0000;
            proof {
                lemma_limbs_value_agree(prev, out@, i as nat);
                let p = pow64(i as nat) as int;
                let lo = out@[i as int] as int;
                let c = carry as int;
                let x = self.limbs@[i as int] as int;
                let oc = old_carry as int;
                let v = limbs_value(self.limbs@, i as nat) as int;
                let ki = k as int;
                assert(lo + c * base() == x * ki + oc);
                assert(lo * p + c * (base() * p) == (x * p) * ki + oc * p) by (nonlinear_arith)
                    requires
                        lo + c * base() == x * ki + oc,
                ;
                assert((v + x * p) * ki == v * ki + (x * p) * ki) by (nonlinear_arith);
                assert(pow64((i + 1) as nat) == base() * pow64(i as nat));
                assert(limbs_value(out@, (i + 1) as nat) == limbs_value(out@, i as nat) + lo * p);
                assert(limbs_value(self.limbs@, (i + 1) as nat) == v + x * p);
            }
            i = i + 1;
        }
        (Wide { limbs: out }, carry as u64)
    }

    /// The value moved up by one limb: the low 512 bits and the limb that runs over.
    pub fn shl_limb(&self) -> (r: (Wide, u64))
        ensures
            r.0@ + r.1 * limit() == self@ * base(),
    {
        let mut out = [0u64; 8];
        let mut i: usize = 1;
        while i < 8
            invariant
                1 <= i <= 8,
                out@[0] == 0u64,
                forall|j: int| 1 <= j < i ==> out@[j] == self.limbs@[j - 1],
            decreases 8 - i,
        {
            out[i] = self.limbs[i - 1];
            i = i + 1;
        }
        let top = self.limbs[7];
        let r = Wide { limbs: out };
        proof {
            let rest = out@.subrange(1, 8);
            lemma_limbs_value_low(out@, 8);
            assert(forall|j: int| 0 <= j < 7 ==> rest[j] == self.limbs@[j]);
            lemma_limbs_value_agree(rest, self.limbs@, 7);
            let lower = limbs_value(self.limbs@, 7) as int;
            let seventh = pow64(7) as int;
            let t = top as int;
            assert(limbs_value(self.limbs@, 8) == lower + t * seventh);
            assert(pow64(8) == base() * pow64(7));
            assert((lower + t * seventh) * base() == base() * lower + t * (base() * seventh)) by (nonlinear_arith);
        }
        (r, top)
    }

    /// The value moved down by one limb: the quotient by 2^64.
    pub fn shr_limb(&self) -> (r: Wide)
        ensures
            r@ == self@ / base(),
    {
        let mut out = [0u64; 8];
        let mut i: usize = 0;
        while i < 7
            invariant
                i <= 7,
                out@[7] == 0u64,
                forall|j: int| 0 <= j < i ==> out@[j] == self.limbs@[j + 1],
            decreases 7 - i,
        {
            out[i] = self.limbs[i + 1];
            i = i + 1;
        }
        let r = Wide { limbs: out };
        proof {
            let rest = self.limbs@.subrange(1, 8);
            lemma_limbs_value_low(self.limbs@, 8);
            assert(forall|j: int| 0 <= j < 7 ==> rest[j] == out@[j]);
            lemma_limbs_value_agree(rest, out@, 7);
            assert(limbs_value(out@, 8) == limbs_value(out@, 7) + (out@[7] as nat) * pow64(7));
            assert(0 * pow64(7) == 0);
            let q = limbs_value(out@, 8) as int;
            let low = self.limbs@[0] as int;
            assert(limbs_value(self.limbs@, 8) == low + base() * q);
            lemma_fundamental_div_mod_converse(self@ as int, base() as int, q, low);
        }
        r
    }

    /// The product, where it fits.
    pub fn mul(&self, other: &Wide) -> (r: Wide)
        requires
            self@ * other@ < limit(),
        ensures
            r@ == self@ * other@,
    {
        let mut acc = Wide::zero();
        let mut j: usize = 8;
        proof {
            assert(self@ * 0 == 0) by (nonlinear_arith);
        }
        while j > 0
            invariant
                j <= 8,
                self@ * other@ < limit(),
                acc@ == self@ * limbs_high(other.limbs@, j as nat, 8),
            decreases j,
        {
            j = j - 1;
            let (shifted, top) = acc.shl_limb();
            let (part, over) = self.mul_small(other.limbs[j]);
            proof {
                let a = self@ as int;
                let h = limbs_high(other.limbs@, (j + 1) as nat, 8) as int;
                let d = other.limbs@[j as int] as int;
                let hj = limbs_high(other.limbs@, j as nat, 8) as int;
                let lowv = limbs_value(other.limbs@, j as nat) as int;
                let pj = pow64(j as nat) as int;
                assert(hj == d + base() * h);
                lemma_limbs_value_split(other.limbs@, j as nat, 8);
                lemma_pow64_positive(j as nat);
                assert(other@ == lowv + pj * hj);
                assert(a * hj <= a * (lowv + pj * hj)) by (nonlinear_arith)
                    requires
                        a >= 0,
                        hj >= 0,
                        lowv >= 0,
                        pj >= 1,
                ;
                assert(a * hj == (a * h) * base() + a * d) by (nonlinear_arith)
                    requires
                        hj == d + base() * h,
                ;
                assert((a * h) * base() >= 0 && a * d >= 0) by (nonlinear_arith)
                    requires
                        a >= 0,
                        h >= 0,
                        d >= 0,
                ;
                shifted.lemma_bounded();
                part.lemma_bounded();
                let lim = limit() as int;
                let tp = top as int;
                let ov = over as int;
                assert(tp == 0) by (nonlinear_arith)
                    requires
                        shifted@ + tp * lim < lim,
                        tp >= 0,
                        lim > 0,
                ;
                assert(ov == 0) by (nonlinear_arith)
                    requires
                        part@ + ov * lim < lim,
                        ov >= 0,
                        lim > 0,
                ;
                assert(tp * lim == 0 && ov * lim == 0) by (nonlinear_arith)
                    requires
                        tp == 0,
                        ov == 0,
                ;
                assert(shifted@ == (a * h) * base());
                assert(part@ == a * d);
                assert(shifted@ + part@ == a * hj);
            }
            acc = shifted.add(&part);
        }
        proof {
            lemma_limbs_value_split(other.limbs@, 0, 8);
            assert(pow64(0) == 1);
            assert(1 * limbs_high(other.limbs@, 0, 8) == limbs_high(other.limbs@, 0, 8));
        }
        acc
    }

    /// Quotient and remainder of the division by a positive `d`.
    pub fn div_rem(&self, d: &Wide) -> (r: (Wide, Wide))
        requires
            d@ > 0,
        ensures
            r.0@ == self@ / d@,
            r.1@ == self@ % d@,
    {
        let mut q = Wide::zero();
        let mut rem = Wide::zero();
        let mut num = *self;
        let ghost mut high: nat = 0;
        let ghost mut scale: nat = 1;
        let mut k: usize = 0;
        proof {
            lemma2_to64();
            assert(0 * limit() == 0);
            assert(0 * d@ == 0);
            assert(self@ * 1 == self@);
            self.lemma_bounded();
        }
        // the leading zero limbs of the numerator stand for zero bits of the
        // quotient: they are moved out a limb at a time
        while k < 448 && num.limbs[7] == 0
            invariant
                k <= 448,
                k % 64 == 0,
                scale == pow2(k as nat),
                num@ == self@ * scale,
            decreases 448 - k,
        {
            let (shifted, top) = num.shl_limb();
            proof {
                lemma_limbs_value_bound(num.limbs@, 7);
                assert(limbs_value(num.limbs@, 8) == limbs_value(num.limbs@, 7) + (
                num.limbs@[7] as nat) * pow64(7));
                assert(0 * pow64(7) == 0);
                assert(pow64(8) == base() * pow64(7));
                let lim = limit() as int;
                let tp = top as int;
                let nv = num@ as int;
                assert(nv * base() < lim) by (nonlinear_arith)
                    requires
                        nv < pow64(7),
                        lim == base() * pow64(7),
                        base() > 0,
                ;
                assert(tp == 0) by (nonlinear_arith)
                    requires
                        shifted@ + tp * lim < lim,
                        tp >= 0,
                        lim > 0,
                ;
                assert(tp * lim == 0) by (nonlinear_arith)
                    requires
                        tp == 0,
                ;
                lemma2_to64();
                lemma_pow2_adds(k as nat, 64);
                assert((self@ * scale) * base() == self@ * (scale * base())) by (nonlinear_arith);
                scale = scale * base();
            }
            num = shifted;
            k = k + 64;
        }
        proof {
            lemma_pow2_pos(k as nat);
        }
        while k < 512
            invariant
                k <= 512,
                d@ > 0,
                scale == pow2(k as nat),
                high * limit() + num@ == self@ * scale,
                q@ * d@ + rem@ == high,
                rem@ < d@,
                high < scale,
            decreases 512 - k,
        {
            let (num2, top) = num.add_with_carry(&num, false);
            let (rem2, over) = rem.add_with_carry(&rem, top);
            let (diff, below) = rem2.sub_with_borrow(d);
            let fits = over || !below;
            let (q2, q_over) = q.add_with_carry(&q, fits);
            proof {
                let lim = limit() as int;
                let t: int = if top { 1 } else { 0 };
                let o: int = if over { 1 } else { 0 };
                let b: int = if below { 1 } else { 0 };
                let f: int = if fits { 1 } else { 0 };
                let qo: int = if q_over { 1 } else { 0 };
                let dv = d@ as int;
                let hi = high as int;
                let sc = scale as int;
                let new_high = 2 * hi + t;
                d.lemma_bounded();
                rem2.lemma_bounded();
                diff.lemma_bounded();
                q2.lemma_bounded();
                num2.lemma_bounded();
                vstd::arithmetic::power2::lemma_pow2_unfold((k + 1) as nat);
                assert(pow2((k + 1) as nat) == 2 * sc);
                // the numerator register
                assert(new_high * lim + num2@ == (self@ as int) * (2 * sc)) by (nonlinear_arith)
                    requires
                        new_high == 2 * hi + t,
                        num2@ + t * lim == 2 * num@,
                        hi * lim + num@ == (self@ as int) * sc,
                ;
                // the remainder register: its true value is rem2 + over * lim
                let true_rem = rem2@ as int + o * lim;
                assert(true_rem == 2 * rem@ + t);
                assert(true_rem < 2 * dv);
                let new_rem: int = if fits { diff@ as int } else { rem2@ as int };
                assert(new_rem == true_rem - f * dv && 0 <= new_rem < dv) by {
                    if over {
                        assert(rem2@ < dv);
                        assert(below);
                    }
                }
                // the quotient register
                assert((q@ as int) * dv <= hi) by (nonlinear_arith)
                    requires
                        (q@ as int) * dv + rem@ == hi,
                        rem@ >= 0,
                ;
                assert(q@ as int <= hi) by (nonlinear_arith)
                    requires
                        (q@ as int) * dv <= hi,
                        dv >= 1,
                        q@ >= 0,
                ;
                if k + 1 < 512 {
                    vstd::arithmetic::power2::lemma_pow2_strictly_increases((k + 1) as nat, 512);
                }
                lemma_pow64_is_pow2(8);
                assert(lim == pow2(512));
                assert(2 * sc <= lim);
                assert(2 * (q@ as int) + f < lim);
                assert(qo == 0) by (nonlinear_arith)
                    requires
                        q2@ + qo * lim == 2 * (q@ as int) + f,
                        2 * (q@ as int) + f < lim,
                        q2@ >= 0,
                        qo >= 0,
                        lim > 0,
                ;
                assert((q2@ as int) * dv + new_rem == new_high) by (nonlinear_arith)
                    requires
                        q2@ == 2 * (q@ as int) + f,
                        new_rem == true_rem - f * dv,
                        true_rem == 2 * rem@ + t,
                        (q@ as int) * dv + rem@ == hi,
                        new_high == 2 * hi + t,
                ;
                high = new_high as nat;
                scale = (2 * sc) as nat;
            }
            num = num2;
            rem = if fits { diff } else { rem2 };
            q = q2;
            k = k + 1;
        }
        proof {
            lemma_pow64_is_pow2(8);
            num.lemma_bounded();
            let lim = limit() as int;
            let hi = high as int;
            let n = self@ as int;
            assert(hi == n && num@ == 0) by (nonlinear_arith)
                requires
                    hi * lim + num@ == n * lim,
                    0 <= num@ < lim,
            ;
            assert(q@ * d@ == d@ * q@) by (nonlinear_arith);
            lemma_fundamental_div_mod_converse(self@ as int, d@ as int, q@ as int, rem@ as int);
        }
        (q, rem)
    }
}

} // verus!
