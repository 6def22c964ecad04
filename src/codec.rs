//! Packing a run of values into one word, and reading the values back out.
use vstd::arithmetic::div_mod::lemma_div_denominator;
use vstd::arithmetic::mul::lemma_mul_is_distributive_add;
use vstd::arithmetic::power2::{
    lemma2_to64, lemma2_to64_rest, lemma_pow2_adds, lemma_pow2_pos, lemma_pow2_strictly_increases,
    pow2,
};
use vstd::bits::{
    lemma_u64_low_bits_mask_is_mod, lemma_u64_pow2_no_overflow, lemma_u64_shl_is_mul,
    lemma_u64_shr_is_div, low_bits_mask,
};
use vstd::prelude::*;

use crate::resolver::{get_min_selector, in_domain, lemma_min_selector, min_selector};
use crate::table::{bit_width, lemma_table_shape, max_count, selector_bit_width, selector_max_count};

verus! {

/// The selector held in the top four bits of `word`.
pub open spec fn word_selector(word: u64) -> int {
    word as int / pow2(60) as int
}

/// The value in slot `i` of `word`: the `i`-th group of `bit_width` bits, counted from
/// the lowest bits. Slots of zero width read as zero.
pub open spec fn packed_field(word: u64, i: int) -> int {
    let w = bit_width(word_selector(word));
    (word as int / pow2((i * w) as nat) as int) % pow2(w) as int
}

/// Number of values that `unpack` writes for `word` into a buffer of `capacity` slots.
pub open spec fn unpacked_count(word: u64, capacity: int) -> int {
    let m = max_count(word_selector(word)) as int;
    if m <= capacity {
        m
    } else {
        capacity
    }
}

/// The narrowest selector that holds every one of the first `k` values.
pub open spec fn selector_of_prefix(data: Seq<u64>, k: int) -> int
    decreases k,
{
    if k <= 0 {
        0
    } else {
        let s = selector_of_prefix(data, k - 1);
        let m = min_selector(data[k - 1]);
        if m > s {
            m
        } else {
            s
        }
    }
}

/// The first `k` values can share one word: each is in the domain, and the narrowest
/// selector that holds them all has at least `k` slots.
pub open spec fn prefix_fits(data: Seq<u64>, k: int) -> bool {
    &&& 0 <= k <= data.len()
    &&& forall|i: int| 0 <= i < k ==> in_domain(#[trigger] data[i])
    &&& k <= max_count(selector_of_prefix(data, k))
}

/// The longest prefix of length at most `k` that fits in one word.
pub open spec fn longest_fitting_prefix(data: Seq<u64>, k: int) -> nat
    decreases k,
{
    if k <= 0 {
        0
    } else if prefix_fits(data, k) {
        k as nat
    } else {
        longest_fitting_prefix(data, k - 1)
    }
}

/// How many values the scan of `pack` takes into the batch before it closes.
pub open spec fn batch_len(data: Seq<u64>) -> nat {
    longest_fitting_prefix(data, data.len() as int)
}

/// The first selector from `s` upward whose capacity is at most `k`.
pub open spec fn widened(s: int, k: int) -> int
    decreases 15 - s,
{
    if s >= 15 || max_count(s) <= k {
        s
    } else {
        widened(s + 1, k)
    }
}

/// The selector of the word that `pack` writes for `data`. Where the batch ends before
/// the input does, the selector is widened until its capacity no longer exceeds the
/// batch.
pub open spec fn batch_selector(data: Seq<u64>) -> int {
    let k = batch_len(data);
    let s = selector_of_prefix(data, k as int);
    if k == data.len() {
        s
    } else {
        widened(s, k as int)
    }
}

/// How many leading values of `data` the word written by `pack` holds, and the count
/// that `pack` returns: the batch, cut to the capacity of the batch's selector.
pub open spec fn stored_count(data: Seq<u64>) -> nat {
    let k = batch_len(data);
    let m = max_count(batch_selector(data));
    if k <= m {
        k
    } else {
        m
    }
}

/// `vals` laid out in slots of `w` bits, the first value in the lowest slot.
pub open spec fn packed_value(vals: Seq<u64>, w: nat) -> nat
    decreases vals.len(),
{
    if vals.len() == 0 {
        0
    } else {
        vals[0] as nat + pow2(w) * packed_value(vals.drop_first(), w)
    }
}

/// The word that `pack` writes for `data`: the selector in the top four bits, the
/// stored values below.
pub open spec fn pack_word(data: Seq<u64>) -> int {
    let s = batch_selector(data);
    s * pow2(60) + packed_value(data.take(stored_count(data) as int), bit_width(s))
}

/// `pack` fails on `data`: the value that ends the batch is outside the domain.
pub open spec fn pack_rejects(data: Seq<u64>) -> bool {
    batch_len(data) < data.len() && !in_domain(data[batch_len(data) as int])
}

pub proof fn lemma_selector_of_prefix(data: Seq<u64>, k: int)
    requires
        0 <= k <= data.len(),
    ensures
        0 <= selector_of_prefix(data, k) < 16,
        forall|i: int| 0 <= i < k ==> min_selector(#[trigger] data[i]) <= selector_of_prefix(data, k),
    decreases k,
{
    if k > 0 {
        lemma_selector_of_prefix(data, k - 1);
    }
}

/// A prefix of a prefix that fits also fits.
proof fn lemma_prefix_fits_shorter(data: Seq<u64>, j: int, k: int)
    requires
        0 <= j <= k,
        prefix_fits(data, k),
    ensures
        prefix_fits(data, j),
    decreases k - j,
{
    if j < k {
        lemma_selector_of_prefix(data, k - 1);
        lemma_selector_of_prefix(data, k);
        lemma_table_shape(selector_of_prefix(data, k - 1), selector_of_prefix(data, k));
        lemma_prefix_fits_shorter(data, j, k - 1);
    }
}

/// The batch is the prefix at which fitting stops.
pub proof fn lemma_batch_len(data: Seq<u64>, j: int, k: int)
    requires
        j <= k <= data.len(),
        prefix_fits(data, j),
        j == data.len() || !prefix_fits(data, j + 1),
    ensures
        longest_fitting_prefix(data, k) == j,
    decreases k - j,
{
    if j < k {
        if prefix_fits(data, k) {
            lemma_prefix_fits_shorter(data, j + 1, k);
        }
        lemma_batch_len(data, j, k - 1);
    }
}

pub proof fn lemma_widened(s: int, k: int)
    requires
        0 <= s < 16,
    ensures
        s <= widened(s, k) < 16,
        k >= 1 ==> max_count(widened(s, k)) <= k,
    decreases 15 - s,
{
    if !(s >= 15 || max_count(s) <= k) {
        lemma_widened(s + 1, k);
    }
}

pub proof fn lemma_pow2_le(a: nat, b: nat)
    requires
        a <= b,
    ensures
        pow2(a) <= pow2(b),
{
    if a < b {
        lemma_pow2_strictly_increases(a, b);
    }
}

proof fn lemma_or_disjoint(p: u64, d: u64, b: u64, e: u64)
    by (bit_vector)
    requires
        b + e <= 64,
        d < (1u64 << b),
        p < (1u64 << e),
    ensures
        (p << b) | d == (p << b) + d,
        d | (p << b) == (p << b) + d,
{
}

/// `1 << e` is 2^e.
proof fn lemma_one_shl(e: u64)
    requires
        e < 64,
    ensures
        (1u64 << e) == pow2(e as nat),
{
    lemma_u64_pow2_no_overflow(e as nat);
    lemma_u64_shl_is_mul(1, e);
}

/// The selector of `v`, read from its top four bits.
fn selector_of_word(v: u64) -> (r: usize)
    ensures
        r == word_selector(v),
        r < 16,
{
    proof {
        lemma_u64_shr_is_div(v, 60);
        lemma2_to64_rest();
    }
    (v >> 60) as usize
}

/// Number of values that the selector of `v` provides room for. This is the table's
/// capacity, not a count of the values that were packed: a word may hold fewer real
/// values, its remaining slots reading as zeros.
pub fn count_packed(v: u64) -> (r: usize)
    ensures
        r == max_count(word_selector(v)),
{
    selector_max_count(selector_of_word(v))
}

/// Decodes the values of `v` into `output`, first value first, and returns how many
/// were written: the word's capacity, or the length of `output` where that is smaller.
/// Slots past that count are left as they were.
pub fn unpack(v: u64, output: &mut [u64]) -> (r: usize)
    ensures
        r == unpacked_count(v, old(output)@.len() as int),
        final(output)@.len() == old(output)@.len(),
        forall|i: int| 0 <= i < r ==> #[trigger] final(output)@[i] as int == packed_field(v, i),
        forall|i: int|
            r <= i < old(output)@.len() ==> #[trigger] final(output)@[i] == old(output)@[i],
{
    let ghost before = output@;
    let selector = selector_of_word(v);
    let capacity = count_packed(v);
    let count = if capacity <= output.len() {
        capacity
    } else {
        output.len()
    };
    let bits = selector_bit_width(selector);
    proof {
        lemma_table_shape(selector as int, selector as int);
        lemma_one_shl(bits as u64);
        lemma_pow2_pos(bits as nat);
    }
    let mask: u64 = (1u64 << bits as u64) - 1;
    let mut rest = v;
    let mut i: usize = 0;
    proof {
        lemma2_to64();
        lemma2_to64_rest();
        assert(((0 * bits) as nat) == 0nat);
        assert(v as int / 1 == v as int);
    }
    while i < count
        invariant
            count == unpacked_count(v, before.len() as int),
            count <= output@.len() == before.len(),
            count <= max_count(selector as int),
            selector == word_selector(v),
            selector < 16,
            bits == bit_width(selector as int),
            bits <= 60,
            mask as int == low_bits_mask(bits as nat),
            i <= count,
            rest as int == v as int / pow2((i * bits) as nat) as int,
            forall|j: int| 0 <= j < i ==> #[trigger] output@[j] as int == packed_field(v, j),
            forall|j: int| i <= j < before.len() ==> #[trigger] output@[j] == before[j],
        decreases count - i,
    {
        proof {
            lemma_u64_low_bits_mask_is_mod(rest, bits as nat);
            lemma_u64_pow2_no_overflow(bits as nat);
            lemma_u64_shr_is_div(rest, bits as u64);
            lemma_pow2_pos((i * bits) as nat);
            lemma_pow2_pos(bits as nat);
            lemma_div_denominator(v as int, pow2((i * bits) as nat) as int, pow2(bits as nat) as int);
            lemma_pow2_adds((i * bits) as nat, bits as nat);
            lemma_mul_is_distributive_add(bits as int, i as int, 1);
            assert((i + 1) * bits == i * bits + bits) by (nonlinear_arith);
        }
        output[i] = rest & mask;
        rest = rest >> bits as u64;
        i += 1;
    }
    count
}

} // verus!

verus! {

/// Packs as many leading values of `data` as fit into one word and writes the word to
/// `result`. Returns the number of values the word holds, which is how far a caller
/// advances in `data`, or an error, with `result` left untouched, when the scan meets a
/// value of 2^60 or more before the batch closes.
pub fn pack(data: &[u64], result: &mut u64) -> (r: Result<usize, &'static str>)
    ensures
        r is Err <==> pack_rejects(data@),
        r is Err ==> *final(result) == *old(result),
        r matches Ok(c) ==> c == stored_count(data@) && *final(result) as int == pack_word(data@),
        r matches Ok(c) ==> (data@.len() > 0 ==> c >= 1),
{
    let mut selector: usize = 0;
    let mut count: usize = 0;
    // take values while the narrowest selector for all of them still has room
    while count < data.len()
        invariant
            count <= data@.len(),
            prefix_fits(data@, count as int),
            selector == selector_of_prefix(data@, count as int),
            selector < 16,
        ensures
            batch_len(data@) == count,
            !pack_rejects(data@),
            data@.len() > 0 ==> count >= 1,
        decreases data.len() - count,
    {
        let v = data[count];
        let min_sel = match get_min_selector(v) {
            Ok(s) => s,
            Err(e) => {
                proof {
                    lemma_batch_len(data@, count as int, data@.len() as int);
                }
                return Err(e);
            },
        };
        proof {
            lemma_min_selector(v);
        }
        let next = if min_sel > selector {
            min_sel
        } else {
            selector
        };
        if count >= selector_max_count(next) {
            proof {
                lemma_batch_len(data@, count as int, data@.len() as int);
            }
            break;
        }
        selector = next;
        count += 1;
    }
    proof {
        lemma_selector_of_prefix(data@, count as int);
    }
    let ghost narrowest = selector;
    // a batch cut short takes the first selector whose capacity it does not exceed
    if count != data.len() {
        while selector_max_count(selector) > count
            invariant
                narrowest <= selector < 16,
                count >= 1,
                widened(selector as int, count as int) == widened(narrowest as int, count as int),
            decreases 16 - selector,
        {
            selector += 1;
        }
    }
    proof {
        lemma_widened(narrowest as int, count as int);
    }
    assert(selector == batch_selector(data@));
    let capacity = selector_max_count(selector);
    let n = if data.len() <= capacity {
        data.len()
    } else {
        capacity
    };
    assert(n == stored_count(data@));
    let bits = selector_bit_width(selector);
    proof {
        lemma_table_shape(selector as int, selector as int);
        assert(n * bits <= capacity * bits && capacity * bits == bits * capacity) by (nonlinear_arith)
            requires
                n <= capacity,
        ;
        lemma2_to64();
        assert((n - n) * bits == 0);
        assert forall|j: int| 0 <= j < n implies data@[j] < pow2(bits as nat) by {
            lemma_min_selector(data@[j]);
            lemma_table_shape(min_selector(data@[j]), selector as int);
            if bit_width(min_selector(data@[j])) < bits {
                lemma_pow2_strictly_increases(
                    bit_width(min_selector(data@[j])),
                    bits as nat,
                );
            }
        }
    }
    let mut packed: u64 = 0;
    let mut i: usize = n;
    while i > 0
        invariant
            i <= n <= data@.len(),
            n * bits <= 60,
            bits <= 60,
            forall|j: int| 0 <= j < n ==> #[trigger] data@[j] < pow2(bits as nat),
            packed as int == packed_value(data@.subrange(i as int, n as int), bits as nat),
            packed < pow2(((n - i) * bits) as nat),
        decreases i,
    {
        i -= 1;
        proof {
            let e = ((n - (i + 1)) * bits) as nat;
            let pb = pow2(bits as nat);
            let pe = pow2(e);
            assert((n - i) * bits == (n - (i + 1)) * bits + bits) by (nonlinear_arith);
            assert((n - i) * bits <= n * bits) by (nonlinear_arith)
                requires
                    i <= n,
            ;
            lemma_pow2_pos(e);
            lemma_pow2_pos(bits as nat);
            lemma_pow2_adds(e, bits as nat);
            lemma_pow2_le(((n - i) * bits) as nat, 60);
            lemma2_to64_rest();
            assert(packed * pb + data@[i as int] < pe * pb) by (nonlinear_arith)
                requires
                    packed < pe,
                    data@[i as int] < pb,
            ;
            lemma_u64_shl_is_mul(packed, bits as u64);
            lemma_one_shl(bits as u64);
            lemma_one_shl(e as u64);
            lemma_or_disjoint(packed, data@[i as int], bits as u64, e as u64);
            let tail = data@.subrange(i as int, n as int);
            assert(tail.drop_first() =~= data@.subrange(i + 1, n as int));
            assert(packed_value(tail, bits as nat) == data@[i as int] + pb * packed_value(
                data@.subrange(i + 1, n as int),
                bits as nat,
            ));
            assert(packed * pb == pb * packed) by (nonlinear_arith);
        }
        packed = (packed << bits as u64) | data[i];
    }
    proof {
        assert(data@.subrange(0, n as int) =~= data@.take(n as int));
        lemma_pow2_le((n * bits) as nat, 60);
        lemma2_to64_rest();
        lemma_u64_shl_is_mul(selector as u64, 60);
        lemma_one_shl(60);
        lemma_one_shl(4);
        lemma2_to64();
        lemma_or_disjoint(selector as u64, packed, 60, 4);
    }
    *result = packed | (selector as u64) << 60;
    Ok(n)
}

} // verus!
