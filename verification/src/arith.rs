//! Powers of two, low-bit masks and the bit-folding step that the
//! addressing function of the table is built on.

use vstd::prelude::*;
use vstd::arithmetic::div_mod::{lemma_mod_bound, lemma_mod_breakdown, lemma_small_mod};
use vstd::arithmetic::power2::{lemma2_to64, lemma_pow2_adds, lemma_pow2_pos, pow2};
use vstd::bits::{
    lemma_u64_low_bits_mask_is_mod, lemma_u64_pow2_no_overflow, lemma_u64_shl_is_mul,
    low_bits_mask,
};

verus! {

/// The mask selecting the low `bits` bits of a 64-bit word.
pub open spec fn mask64(bits: nat) -> u64
    recommends
        bits <= 64,
{
    (pow2(bits) - 1) as u64
}

/// `pow2(bits)` does not exceed `u64::MAX + 1` for `bits <= 64`.
pub proof fn lemma_pow2_le_u64_bound(bits: nat)
    requires
        bits <= 64,
    ensures
        pow2(bits) <= 0x10000000000000000,
        bits < 64 ==> pow2(bits) <= u64::MAX,
{
    lemma2_to64();
    if bits < 64 {
        lemma_u64_pow2_no_overflow(bits);
    }
}

/// Computes `mask64(bits)` in executable code.
pub fn compute_mask64(bits: usize) -> (r: u64)
    requires
        1 <= bits <= 64,
    ensures
        r == mask64(bits as nat),
{
    proof {
        lemma2_to64();
    }
    if bits == 64 {
        u64::MAX
    } else {
        proof {
            lemma_u64_pow2_no_overflow(bits as nat);
            lemma_u64_shl_is_mul(1u64, bits as u64);
        }
        (1u64 << (bits as u64)) - 1
    }
}

/// Computes `pow2(e)` as a 64-bit word.
pub fn compute_pow2_u64(e: usize) -> (r: u64)
    requires
        e < 64,
    ensures
        r as nat == pow2(e as nat),
{
    proof {
        lemma_u64_pow2_no_overflow(e as nat);
        lemma_u64_shl_is_mul(1u64, e as u64);
    }
    1u64 << (e as u64)
}

/// Masking a word keeps its low `bits` bits: bitwise `and` with the mask
/// is reduction modulo `pow2(bits)`.
pub proof fn lemma_mask64_is_mod(h: u64, bits: nat)
    requires
        1 <= bits <= 64,
    ensures
        (h & mask64(bits)) as nat == (h as nat) % pow2(bits),
{
    if bits < 64 {
        lemma_u64_pow2_no_overflow(bits);
        lemma_u64_low_bits_mask_is_mod(h, bits);
        assert(mask64(bits) == low_bits_mask(bits) as u64);
    } else {
        lemma2_to64();
        assert(h & 0xffffffffffffffffu64 == h) by (bit_vector);
        lemma_small_mod(h as nat, pow2(64));
    }
}

/// Clearing the top addressing bit by xor is subtraction of `pow2(b)`
/// for a word whose value lies in `[pow2(b), pow2(b + 1))`.
pub proof fn lemma_xor_clears_top_bit(m: u64, b: nat)
    requires
        b < 64,
        pow2(b) <= m,
        m < pow2(b + 1),
    ensures
        (m ^ (pow2(b) as u64)) as nat == m as nat - pow2(b),
{
    lemma_u64_pow2_no_overflow(b);
    lemma_u64_shl_is_mul(1u64, b as u64);
    let bb = b as u64;
    if b < 63 {
        lemma_u64_pow2_no_overflow(b + 1);
        lemma_u64_shl_is_mul(1u64, (bb + 1) as u64);
    } else {
        lemma2_to64();
    }
    assert(((1u64 << bb) <= m && (bb == 63 || m < (1u64 << (bb + 1))) && bb < 64) ==> (m ^ (1u64
        << bb)) == m - (1u64 << bb)) by (bit_vector);
}

/// A residue modulo `pow2(b + 1)` is the residue modulo `pow2(b)`,
/// with `pow2(b)` possibly added on top.
pub proof fn lemma_mod_pow2_split(h: nat, b: nat)
    ensures
        h % pow2(b + 1) == h % pow2(b) || h % pow2(b + 1) == h % pow2(b) + pow2(b),
{
    lemma_pow2_pos(b);
    lemma_pow2_adds(b, 1);
    lemma2_to64();
    assert(pow2(b + 1) == pow2(b) * 2);
    let hi = h as int;
    let pi = pow2(b) as int;
    lemma_mod_breakdown(hi, pi, 2);
    assert(hi % (pi * 2) == pi * ((hi / pi) % 2) + hi % pi);
    lemma_mod_bound(hi / pi, 2);
}

/// A value in `[p, 2p)` reduces modulo `p` to its distance from `p`.
pub proof fn lemma_mod_in_second_half(x: nat, p: nat)
    requires
        0 < p,
        p <= x < 2 * p,
    ensures
        x % p == x - p,
{
    assert((x as int - p as int) % (p as int) == (x as int) % (p as int)) by {
        vstd::arithmetic::div_mod::lemma_mod_sub_multiples_vanish(x as int, p as int);
    }
    lemma_small_mod((x - p) as nat, p);
}

} // verus!
