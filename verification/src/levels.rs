//! Block and level arithmetic: powers of two, the two logarithms, and the
//! rounding of a byte count to blocks.

use vstd::prelude::*;

verus! {

/// Size in bytes of one leaf block.
pub const BLOCK_SIZE: u32 = 8192;

/// No heap built from a `u32` byte count is deeper than this.
pub const MAX_LEVELS: u32 = 18;

/// Two to the power `k`.
pub open spec fn two_pow(k: nat) -> nat
    decreases k,
{
    if k == 0 {
        1
    } else {
        2 * two_pow((k - 1) as nat)
    }
}

/// The largest `k` with `two_pow(k) <= n`, and zero for `n == 0`.
pub open spec fn floor_log2(n: nat) -> nat
    decreases n,
{
    if n <= 1 {
        0
    } else {
        1 + floor_log2(n / 2)
    }
}

/// The smallest `k` with `two_pow(k) >= n`.
pub open spec fn level_of(n: nat) -> nat
    decreases n,
{
    if n <= 1 {
        0
    } else {
        1 + level_of((n + 1) / 2)
    }
}

/// The number of blocks that `size` bytes take, rounded up.
pub open spec fn blocks_for(size: nat) -> nat {
    ((size + BLOCK_SIZE - 1) / (BLOCK_SIZE as int)) as nat
}

/// The tree level that a request of `size` bytes is served at.
pub open spec fn level_for_size(size: nat) -> nat {
    level_of(blocks_for(size))
}

pub proof fn lemma_two_pow_positive(k: nat)
    ensures
        two_pow(k) >= 1,
    decreases k,
{
    if k > 0 {
        lemma_two_pow_positive((k - 1) as nat);
    }
}

pub proof fn lemma_two_pow_monotonic(a: nat, b: nat)
    requires
        a <= b,
    ensures
        two_pow(a) <= two_pow(b),
    decreases b,
{
    lemma_two_pow_positive(a);
    if a < b {
        lemma_two_pow_monotonic(a, (b - 1) as nat);
    }
}

pub proof fn lemma_two_pow_strict(a: nat, b: nat)
    requires
        two_pow(a) < two_pow(b),
    ensures
        a < b,
{
    if a >= b {
        lemma_two_pow_monotonic(b, a);
    }
}

pub proof fn lemma_two_pow_adds(a: nat, b: nat)
    ensures
        two_pow(a + b) == two_pow(a) * two_pow(b),
    decreases b,
{
    if b > 0 {
        lemma_two_pow_adds(a, (b - 1) as nat);
        assert(two_pow(a + b) == 2 * two_pow((a + b - 1) as nat));
        assert(2 * (two_pow(a) * two_pow((b - 1) as nat)) == two_pow(a) * (2 * two_pow(
            (b - 1) as nat,
        ))) by (nonlinear_arith);
    } else {
        assert(two_pow(a) * 1 == two_pow(a)) by (nonlinear_arith);
    }
}

pub proof fn lemma_two_pow_values()
    ensures
        two_pow(0) == 1,
        two_pow(1) == 2,
        two_pow(2) == 4,
        two_pow(13) == 8192,
        two_pow(18) == 262144,
        two_pow(19) == 524288,
        two_pow(31) == 0x8000_0000,
        two_pow(32) == 0x1_0000_0000,
{
    reveal_with_fuel(two_pow, 33);
}

/// `floor_log2(n)` is the one `k` with `two_pow(k) <= n < two_pow(k + 1)`.
pub proof fn lemma_floor_log2_bounds(n: nat)
    requires
        n >= 1,
    ensures
        two_pow(floor_log2(n)) <= n < two_pow(floor_log2(n) + 1),
    decreases n,
{
    if n > 1 {
        lemma_floor_log2_bounds(n / 2);
    }
}

/// `level_of(n)` is the least `k` with `two_pow(k) >= n`.
pub proof fn lemma_level_of_bounds(n: nat)
    ensures
        two_pow(level_of(n)) >= n,
        level_of(n) > 0 ==> two_pow((level_of(n) - 1) as nat) < n,
    decreases n,
{
    if n > 1 {
        lemma_level_of_bounds((n + 1) / 2);
    }
}

pub proof fn lemma_level_of_unique(n: nat, k: nat)
    requires
        two_pow(k) >= n,
        k > 0 ==> two_pow((k - 1) as nat) < n,
    ensures
        k == level_of(n),
{
    lemma_level_of_bounds(n);
    let l = level_of(n);
    if k < l {
        lemma_two_pow_monotonic(k, (l - 1) as nat);
    }
    if l < k {
        lemma_two_pow_monotonic(l, (k - 1) as nat);
    }
}

pub proof fn lemma_level_of_monotonic(a: nat, b: nat)
    requires
        a <= b,
    ensures
        level_of(a) <= level_of(b),
{
    lemma_level_of_bounds(a);
    lemma_level_of_bounds(b);
    if level_of(a) > level_of(b) {
        lemma_two_pow_monotonic(level_of(b), (level_of(a) - 1) as nat);
    }
}

/// Two to the power `k`, computed.
pub fn pow2(k: u32) -> (r: usize)
    requires
        k <= 31,
    ensures
        r == two_pow(k as nat),
{
    let mut r: usize = 1;
    let mut i: u32 = 0;
    while i < k
        invariant
            i <= k <= 31,
            r == two_pow(i as nat),
        decreases k - i,
    {
        proof {
            lemma_two_pow_monotonic((i + 1) as nat, 31);
            lemma_two_pow_values();
        }
        r = r * 2;
        i = i + 1;
    }
    r
}

/// The level of the smallest power-of-two run of blocks that holds `count_blocks`.
pub fn ceil_level(count_blocks: u32) -> (level: u32)
    ensures
        level == level_of(count_blocks as nat),
        level <= 32,
{
    let mut run: u64 = 1;
    let mut level: u32 = 0;
    proof {
        lemma_two_pow_values();
    }
    while run < count_blocks as u64
        invariant
            run == two_pow(level as nat),
            run >= 1,
            level <= 32,
            level > 0 ==> two_pow((level - 1) as nat) < count_blocks,
            two_pow(32) == 0x1_0000_0000,
        decreases 32 - level,
    {
        proof {
            if level == 32 {
                assert(false);
            }
            lemma_two_pow_monotonic((level + 1) as nat, 32);
        }
        run = run * 2;
        level = level + 1;
    }
    proof {
        lemma_level_of_unique(count_blocks as nat, level as nat);
    }
    level
}

/// The number of blocks that `size` bytes take, rounded up, without overflow.
pub fn block_count(size: u32) -> (blocks: u32)
    ensures
        blocks == blocks_for(size as nat),
        blocks <= 524288,
{
    let whole: u32 = size / BLOCK_SIZE;
    if size % BLOCK_SIZE == 0 {
        whole
    } else {
        whole + 1
    }
}

} // verus!
