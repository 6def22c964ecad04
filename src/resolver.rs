//! The minimum-selector resolver: the narrowest selector whose slots hold a value.
use vstd::arithmetic::power2::{lemma2_to64, lemma2_to64_rest, lemma_pow2_pos, lemma_pow2_unfold, pow2};
use vstd::prelude::*;
use vstd::std_specs::bits::{axiom_u64_leading_zeros, u64_leading_zeros};

use crate::table::bit_width;

verus! {

/// Values that a word can carry: those below 2^60.
pub open spec fn in_domain(v: u64) -> bool {
    v < 0x1000_0000_0000_0000
}

/// Number of significant bits of `v` (zero for zero).
pub open spec fn significant_bits(v: nat) -> nat
    decreases v,
{
    if v == 0 {
        0
    } else {
        1 + significant_bits(v / 2)
    }
}

/// The selector that the fixed thresholds assign to a value with `bits` significant bits.
pub open spec fn selector_for_bits(bits: nat) -> int {
    if bits == 0 {
        0
    } else if bits <= 8 {
        bits + 1int
    } else if bits <= 10 {
        10
    } else if bits <= 12 {
        11
    } else if bits <= 15 {
        12
    } else if bits <= 20 {
        13
    } else if bits <= 30 {
        14
    } else {
        15
    }
}

/// The smallest selector able to represent `v`, for `v` in the domain.
pub open spec fn min_selector(v: u64) -> int {
    selector_for_bits(significant_bits(v as nat))
}

/// A value is below 2^b exactly when it has at most b significant bits.
pub proof fn lemma_significant_bits_bound(v: nat, b: nat)
    ensures
        v < pow2(b) <==> significant_bits(v) <= b,
    decreases v,
{
    if v == 0 {
        lemma_pow2_pos(b);
    } else if b == 0 {
        lemma2_to64();
    } else {
        lemma_pow2_unfold(b);
        lemma_significant_bits_bound(v / 2, (b - 1) as nat);
    }
}

proof fn lemma_leading_zeros(v: u64)
    ensures
        u64_leading_zeros(v) == 64 - significant_bits(v as nat),
    decreases v,
{
    reveal(u64_leading_zeros);
    if v != 0 {
        lemma_leading_zeros(v / 2);
    }
}

/// The domain is exactly the values with at most sixty significant bits.
pub proof fn lemma_in_domain(v: u64)
    ensures
        in_domain(v) <==> significant_bits(v as nat) <= 60,
        in_domain(v) <==> v < pow2(60),
{
    lemma2_to64_rest();
    lemma_significant_bits_bound(v as nat, 60);
}

/// The resolver's selector is the smallest one whose width holds `v`.
pub proof fn lemma_min_selector(v: u64)
    requires
        in_domain(v),
    ensures
        0 <= min_selector(v) < 16,
        v < pow2(bit_width(min_selector(v))),
        forall|t: int| 0 <= t < min_selector(v) ==> v >= pow2(#[trigger] bit_width(t)),
{
    lemma_in_domain(v);
    let b = significant_bits(v as nat);
    lemma_significant_bits_bound(v as nat, bit_width(min_selector(v)));
    assert forall|t: int| 0 <= t < min_selector(v) implies v >= pow2(#[trigger] bit_width(t)) by {
        lemma_significant_bits_bound(v as nat, bit_width(t));
    }
}

/// Smallest selector able to represent `i`, or an error when `i` needs more than
/// sixty bits.
pub fn get_min_selector(i: u64) -> (r: Result<usize, &'static str>)
    ensures
        r is Ok <==> in_domain(i),
        r matches Ok(s) ==> s == min_selector(i),
{
    proof {
        axiom_u64_leading_zeros(i);
        lemma_leading_zeros(i);
        lemma_in_domain(i);
    }
    let bits: u32 = 64 - i.leading_zeros();
    if bits == 0 {
        Ok(0)
    } else if bits <= 8 {
        Ok((bits + 1) as usize)
    } else if bits <= 10 {
        Ok(10)
    } else if bits <= 12 {
        Ok(11)
    } else if bits <= 15 {
        Ok(12)
    } else if bits <= 20 {
        Ok(13)
    } else if bits <= 30 {
        Ok(14)
    } else if bits <= 60 {
        Ok(15)
    } else {
        Err("value too large")
    }
}

} // verus!
