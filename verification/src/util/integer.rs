//! Powers of two and binary logarithms.

use vstd::arithmetic::power2;
use vstd::arithmetic::power2::pow2;
use vstd::prelude::*;

verus! {

/// `n` is a power of two.
pub open spec fn is_pow2(n: int) -> bool {
    exists|k: nat| #[trigger] pow2(k) == n
}

/// The exponent of the largest power of two that is at most `n`, and zero for zero.
pub open spec fn floor_log2(n: nat) -> nat
    decreases n,
{
    if n <= 1 {
        0
    } else {
        1 + floor_log2(n / 2)
    }
}

/// The exponent of the smallest power of two that is at least `n`.
pub open spec fn ceil_log2(n: nat) -> nat {
    if n <= 1 {
        0
    } else {
        1 + floor_log2((n - 1) as nat)
    }
}

/// `n` lies between the power of two of its logarithm and the next one.
pub proof fn lemma_floor_log2(n: nat)
    requires
        n > 0,
    ensures
        pow2(floor_log2(n)) <= n < pow2(floor_log2(n) + 1),
    decreases n,
{
    power2::lemma2_to64();
    if n > 1 {
        lemma_floor_log2(n / 2);
        let k = floor_log2(n / 2);
        power2::lemma_pow2_unfold(k + 1);
        power2::lemma_pow2_unfold(k + 2);
    }
}

/// Nothing below the next power of two is a larger power of two.
pub proof fn lemma_ceil_log2(n: nat)
    ensures
        n <= pow2(ceil_log2(n)),
        n >= 1 ==> pow2(ceil_log2(n)) < 2 * n,
{
    power2::lemma2_to64();
    if n > 1 {
        lemma_floor_log2((n - 1) as nat);
        power2::lemma_pow2_unfold(floor_log2((n - 1) as nat) + 1);
    }
}

/// Powers of two grow with the exponent.
pub proof fn lemma_pow2_monotone(a: nat, b: nat)
    requires
        a <= b,
    ensures
        pow2(a) <= pow2(b),
{
    if a < b {
        power2::lemma_pow2_strictly_increases(a, b);
    }
}

/// Logarithms grow with their argument.
pub proof fn lemma_ceil_log2_monotone(a: nat, b: nat)
    requires
        a <= b,
    ensures
        ceil_log2(a) <= ceil_log2(b),
{
    if 1 < a < b {
        lemma_floor_log2_monotone((a - 1) as nat, (b - 1) as nat);
    }
}

proof fn lemma_floor_log2_monotone(a: nat, b: nat)
    requires
        a <= b,
    ensures
        floor_log2(a) <= floor_log2(b),
    decreases b,
{
    if a > 1 {
        lemma_floor_log2_monotone(a / 2, b / 2);
    }
}

/// The logarithm of a power of two is its exponent.
pub proof fn lemma_log2_of_pow2(k: nat)
    ensures
        floor_log2(pow2(k)) == k,
        ceil_log2(pow2(k)) == k,
{
    power2::lemma_pow2_pos(k);
    let n = pow2(k);
    lemma_floor_log2(n);
    let l = floor_log2(n);
    if l < k {
        lemma_pow2_monotone(l + 1, k);
    }
    if l > k {
        lemma_pow2_monotone(k + 1, l);
        power2::lemma_pow2_unfold(k + 1);
    }
    lemma_ceil_log2(n);
    let c = ceil_log2(n);
    if c < k {
        lemma_pow2_monotone(c, k);
        power2::lemma_pow2_strictly_increases(c, k);
    }
    if c > k {
        lemma_pow2_monotone(k + 1, c);
        power2::lemma_pow2_unfold(k + 1);
    }
}

/// `2^k`.
pub fn pow2_usize(k: usize) -> (r: usize)
    requires
        pow2(k as nat) <= usize::MAX,
    ensures
        r == pow2(k as nat),
{
    let mut r: usize = 1;
    let mut i: usize = 0;
    proof {
        power2::lemma2_to64();
    }
    while i < k
        invariant
            i <= k,
            r == pow2(i as nat),
            pow2(k as nat) <= usize::MAX,
        decreases k - i,
    {
        proof {
            power2::lemma_pow2_unfold((i + 1) as nat);
            lemma_pow2_monotone((i + 1) as nat, k as nat);
        }
        r = 2 * r;
        i = i + 1;
    }
    r
}

/// The exponent of the largest power of two that is at most `n`, and zero for zero.
pub fn floor_log2_usize(n: usize) -> (r: usize)
    ensures
        r == floor_log2(n as nat),
        r < n || r == 0,
{
    let mut rest = n;
    let mut r: usize = 0;
    while rest > 1
        invariant
            r + floor_log2(rest as nat) == floor_log2(n as nat),
            r + rest <= n,
            n > 0 ==> rest > 0,
        decreases rest,
    {
        rest = rest / 2;
        r = r + 1;
    }
    r
}

/// The exponent of the smallest power of two that is at least `n`.
pub fn ceil_log2_usize(n: usize) -> (r: usize)
    ensures
        r == ceil_log2(n as nat),
{
    if n <= 1 {
        0
    } else {
        1 + floor_log2_usize(n - 1)
    }
}

/// `r` is the integer part of the square root of `n`.
pub open spec fn is_isqrt(r: nat, n: nat) -> bool {
    r * r <= n < (r + 1) * (r + 1)
}

/// The integer part of the square root of `n`.
pub fn isqrt_usize(n: usize) -> (r: usize)
    ensures
        is_isqrt(r as nat, n as nat),
        r <= n,
{
    let mut lo: usize = 0;
    let mut hi: usize = n;
    assert(n < (n + 1) * (n + 1)) by (nonlinear_arith)
        requires
            n >= 0,
    ;
    while lo < hi
        invariant
            lo <= hi <= n,
            lo * lo <= n,
            n < (hi + 1) * (hi + 1),
        decreases hi - lo,
    {
        let mid = lo + (hi - lo) / 2 + (hi - lo) % 2;
        assert(mid * mid <= u128::MAX) by (nonlinear_arith)
            requires
                0 <= mid <= 0xffff_ffff_ffff_ffff,
        ;
        if (mid as u128) * (mid as u128) <= n as u128 {
            lo = mid;
        } else {
            hi = mid - 1;
        }
    }
    lo
}

/// A counter that starts at 2^256 and counts down.
pub struct Countdown {
    top: u8,
    high: u128,
    low: u128,
}

impl Countdown {
    /// What is left to count.
    pub closed spec fn value(&self) -> int {
        self.low
            + 0x1_0000_0000_0000_0000_0000_0000_0000_0000int * (self.high
            + 0x1_0000_0000_0000_0000_0000_0000_0000_0000int * self.top)
    }

    pub fn new() -> (r: Self)
        ensures
            r.value()
                == 0x1_0000000000000000_0000000000000000_0000000000000000_0000000000000000int,
    {
        Countdown { top: 1, high: 0, low: 0 }
    }

    pub fn is_over(&self) -> (r: bool)
        ensures
            self.value() >= 0,
            r == (self.value() == 0),
    {
        self.top == 0 && self.high == 0 && self.low == 0
    }

    /// Counts one.
    pub fn step(&mut self)
        requires
            old(self).value() > 0,
        ensures
            final(self).value() == old(self).value() - 1,
    {
        if self.low > 0 {
            self.low = self.low - 1;
        } else if self.high > 0 {
            self.high = self.high - 1;
            self.low = u128::MAX;
        } else {
            self.top = self.top - 1;
            self.high = u128::MAX;
            self.low = u128::MAX;
        }
    }
}

} // verus!
