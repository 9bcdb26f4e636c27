//! Slot-assignment (hash) policies shared by both table kinds.
//!
//! A policy maps a key and a table capacity to a slot index in
//! `[0, capacity)`.  Both policies are pure functions of their arguments:
//! the executable code is proved to return exactly what the spec-level
//! `hash_index` function denotes.

use vstd::arithmetic::power2::{
    lemma2_to64, lemma_pow2_adds, lemma_pow2_pos, lemma_pow2_strictly_increases, lemma_pow2_unfold,
    pow2,
};
use vstd::prelude::*;

verus! {

/// Slot-assignment policy, chosen when a table is built and fixed thereafter.
pub enum HashType {
    /// `slot = key % capacity`.
    KeyModTableSize,
    /// Mid-square style: square the key, discard low-order information by an
    /// integer division, then reduce modulo the capacity.
    MidSquare,
}

/// Number of binary digits needed to write `x` (0 for `x == 0`).
pub open spec fn bits_spec(x: nat) -> nat
    decreases x,
{
    if x == 0 {
        0
    } else {
        (1 + bits_spec(x / 2)) as nat
    }
}

/// Smallest `b` with `pow2(b) >= n` (0 whenever `n <= 1`).
pub open spec fn ceil_log2_spec(n: nat) -> nat
    decreases n,
{
    if n <= 1 {
        0
    } else {
        (1 + ceil_log2_spec((n + 1) / 2)) as nat
    }
}

/// `bits_spec` never exceeds the exponent of a power of two above its argument.
proof fn lemma_bits_spec_bound(x: nat, k: nat)
    requires
        x < pow2(k),
    ensures
        bits_spec(x) <= k,
    decreases x,
{
    if x == 0 {
    } else {
        if k == 0 {
            lemma2_to64();
            assert(false);
        }
        lemma_pow2_unfold(k);
        lemma_bits_spec_bound(x / 2, (k - 1) as nat);
    }
}

/// `ceil_log2_spec(n)` really is an exponent whose power of two reaches `n`,
/// and the previous exponent falls short of `n`.
pub proof fn lemma_ceil_log2_bounds(n: nat)
    requires
        n >= 1,
    ensures
        pow2(ceil_log2_spec(n)) >= n,
        ceil_log2_spec(n) > 0 ==> pow2((ceil_log2_spec(n) - 1) as nat) < n,
    decreases n,
{
    if n <= 1 {
        lemma2_to64();
    } else {
        let m = ((n + 1) / 2) as nat;
        lemma_ceil_log2_bounds(m);
        let c = ceil_log2_spec(m);
        lemma_pow2_unfold((c + 1) as nat);
        // pow2(c + 1) == 2 * pow2(c) >= 2 * m >= n
        if c > 0 {
            lemma_pow2_unfold(c);
            // pow2(c) == 2 * pow2(c - 1) <= 2 * (m - 1) <= n - 1
        } else {
            lemma2_to64();
        }
    }
}

/// No exponent below `ceil_log2_spec(n)` reaches `n`.
pub proof fn lemma_ceil_log2_le(n: nat, b: nat)
    requires
        n >= 1,
        pow2(b) >= n,
    ensures
        ceil_log2_spec(n) <= b,
{
    let c = ceil_log2_spec(n);
    if c > b {
        lemma_ceil_log2_bounds(n);
        if b < c - 1 {
            lemma_pow2_strictly_increases(b, (c - 1) as nat);
        }
        assert(false);
    }
}

/// An exponent that reaches `n` while its predecessor does not is exactly
/// `ceil_log2_spec(n)`.
proof fn lemma_ceil_log2_unique(n: nat, b: nat)
    requires
        n >= 1,
        pow2(b) >= n,
        b > 0 ==> pow2((b - 1) as nat) < n,
    ensures
        b == ceil_log2_spec(n),
{
    lemma_ceil_log2_le(n, b);
    let c = ceil_log2_spec(n);
    lemma_ceil_log2_bounds(n);
    if c < b {
        if c < b - 1 {
            lemma_pow2_strictly_increases(c, (b - 1) as nat);
        }
        assert(false);
    }
}

/// Counts how many binary digits `input` takes, by repeated halving.
pub fn num_of_bits(input: &u32) -> (bits: u32)
    ensures
        bits == bits_spec(*input as nat),
{
    let mut copy: u32 = *input;
    let mut bits: u32 = 0;
    proof {
        lemma2_to64();
        assert(pow2(32) == 0x1_0000_0000) by {
            lemma_pow2_adds(16, 16);
        }
        lemma_bits_spec_bound(*input as nat, 32);
    }
    while copy != 0
        invariant
            bits as nat + bits_spec(copy as nat) == bits_spec(*input as nat),
            bits_spec(*input as nat) <= 32,
        decreases copy,
    {
        assert(copy >> 1 == copy / 2) by (bit_vector);
        copy = copy >> 1;
        bits = bits + 1;
    }
    bits
}

/// Divisor used by the mid-square policy: the square of half the spread
/// between the bit width of `9 * capacity^2` and the bit width of `capacity`.
pub open spec fn mid_square_divisor(capacity: nat) -> nat {
    let max_bits = ceil_log2_spec(9 * capacity * capacity);
    let table_bits = ceil_log2_spec(capacity);
    let shift = (max_bits - table_bits) / 2;
    (shift * shift) as nat
}

/// Mid-square slot: square the key, drop low-order information by dividing
/// by `mid_square_divisor`, reduce modulo the capacity.
pub open spec fn mid_square_hash(key: nat, capacity: nat) -> nat {
    ((key * key) / mid_square_divisor(capacity)) % capacity
}

/// The slot that `hash_type` assigns to `key` in a table of `capacity` slots.
pub open spec fn hash_index(hash_type: HashType, key: u32, capacity: u32) -> nat
    recommends
        capacity >= 1,
{
    match hash_type {
        HashType::KeyModTableSize => (key as nat) % (capacity as nat),
        HashType::MidSquare => mid_square_hash(key as nat, capacity as nat),
    }
}

/// The bit-width spread of the mid-square policy is at least 2, so the
/// divisor derived from it is at least 1.
pub proof fn lemma_mid_square_divisor_pos(capacity: nat)
    requires
        capacity >= 1,
    ensures
        ceil_log2_spec(9 * capacity * capacity) >= ceil_log2_spec(capacity) + 2,
        mid_square_divisor(capacity) >= 1,
{
    let t = ceil_log2_spec(capacity);
    let sq = 9 * capacity * capacity;
    assert(sq >= 9 * capacity >= 9) by (nonlinear_arith)
        requires
            capacity >= 1,
            sq == 9 * capacity * capacity,
    ;
    lemma_ceil_log2_bounds(capacity);
    // pow2(t + 1) < 9 * capacity * capacity
    if t == 0 {
        lemma2_to64();
    } else {
        lemma_pow2_unfold((t + 1) as nat);
        lemma_pow2_unfold(t);
        // pow2(t + 1) == 4 * pow2(t - 1) <= 4 * (capacity - 1) < 4 * capacity
        assert(4 * capacity <= sq) by (nonlinear_arith)
            requires
                capacity >= 1,
                sq == 9 * capacity * capacity,
        ;
    }
    assert(pow2((t + 1) as nat) < sq);
    let m = ceil_log2_spec(sq);
    lemma_ceil_log2_bounds(sq);
    if m <= t + 1 {
        if m < t + 1 {
            lemma_pow2_strictly_increases(m, (t + 1) as nat);
        }
        assert(false);
    }
    let shift = (m - t) / 2;
    assert(shift >= 1);
    assert(shift * shift >= 1) by (nonlinear_arith)
        requires
            shift >= 1,
    ;
}

/// Both policies are pure functions — `hash_index` is deterministic in the
/// key, the capacity and the policy — and always assign a slot strictly
/// below the capacity.
pub proof fn law_hash_in_range(hash_type: HashType, key: u32, capacity: u32)
    requires
        capacity >= 1,
    ensures
        hash_index(hash_type, key, capacity) < capacity as nat,
{
}

/// Computes the slot for `key` exactly as `hash_index` denotes it.
pub fn compute_hash(hash_type: &HashType, key: u32, capacity: u32) -> (h: u32)
    requires
        capacity >= 1,
    ensures
        h as nat == hash_index(*hash_type, key, capacity),
        h < capacity,
{
    match hash_type {
        HashType::KeyModTableSize => key % capacity,
        HashType::MidSquare => {
            let c: u128 = capacity as u128;
            proof {
                assert((key as int) * (key as int) <= 0xffff_ffff * 0xffff_ffff)
                    by (nonlinear_arith)
                    requires
                        0 <= key <= 0xffff_ffff,
                ;
                assert((c as int) * (c as int) <= 0xffff_ffff * 0xffff_ffff) by (nonlinear_arith)
                    requires
                        0 <= c <= 0xffff_ffff,
                ;
            }
            let sq: u128 = (key as u128) * (key as u128);
            proof {
                assert((9 * (c as int)) * (c as int) <= 9 * 0xffff_ffff * 0xffff_ffff)
                    by (nonlinear_arith)
                    requires
                        0 <= c <= 0xffff_ffff,
                ;
                assert((9 * (c as int)) * (c as int) >= 9) by (nonlinear_arith)
                    requires
                        1 <= c,
                ;
            }
            let nine: u128 = 9 * c * c;
            let max_bits = ceil_log2_u128(nine);
            let table_bits = ceil_log2_u128(c);
            proof {
                lemma_mid_square_divisor_pos(capacity as nat);
            }
            let diff: u32 = max_bits - table_bits;
            let shift: u32 = diff / 2;
            proof {
                assert((shift as int) * (shift as int) <= 34 * 34) by (nonlinear_arith)
                    requires
                        0 <= shift <= 34,
                ;
            }
            let divisor: u128 = (shift as u128) * (shift as u128);
            let h: u128 = (sq / divisor) % c;
            h as u32
        },
    }
}

/// Smallest `b` with `2^b >= n`, found by doubling.
fn ceil_log2_u128(n: u128) -> (b: u32)
    requires
        1 <= n,
        n <= 0x10_0000_0000_0000_0000,
    ensures
        b == ceil_log2_spec(n as nat),
        b <= 68,
{
    proof {
        lemma2_to64();
        assert(pow2(68) == 0x10_0000_0000_0000_0000) by {
            lemma_pow2_adds(64, 4);
        }
    }
    let mut b: u32 = 0;
    let mut p: u128 = 1;
    while p < n
        invariant
            1 <= n,
            n as nat <= pow2(68),
            pow2(68) == 0x10_0000_0000_0000_0000,
            p == pow2(b as nat),
            b <= 68,
            b > 0 ==> pow2((b - 1) as nat) < n as nat,
        decreases 68 - b,
    {
        proof {
            if b >= 68 {
                if b > 68 {
                    lemma_pow2_strictly_increases(68, b as nat);
                }
                assert(false);
            }
            lemma_pow2_unfold((b + 1) as nat);
            if b + 1 < 68 {
                lemma_pow2_strictly_increases((b + 1) as nat, 68);
            }
            lemma_pow2_pos(b as nat);
        }
        p = p * 2;
        b = b + 1;
    }
    proof {
        lemma_ceil_log2_unique(n as nat, b as nat);
    }
    b
}

} // verus!
