//! What holds across calls: decoding what `pack` wrote, the capacity of its words, and
//! when it rejects its input.
use vstd::arithmetic::div_mod::{
    lemma_div_denominator, lemma_div_multiples_vanish_fancy, lemma_hoist_over_denominator,
    lemma_mod_multiples_vanish, lemma_small_mod,
};
use vstd::arithmetic::power2::{lemma2_to64, lemma_pow2_adds, lemma_pow2_pos, pow2};
use vstd::prelude::*;

use crate::codec::{
    batch_len, batch_selector, lemma_batch_len, lemma_pow2_le,
    lemma_selector_of_prefix, lemma_widened, longest_fitting_prefix, pack_rejects, pack_word,
    packed_field, packed_value, prefix_fits, selector_of_prefix, stored_count, unpacked_count,
    word_selector,
};
use crate::resolver::{in_domain, lemma_min_selector, min_selector};
use crate::table::{bit_width, lemma_table_shape, max_count};

verus! {

proof fn lemma_packed_value_bound(vals: Seq<u64>, w: nat)
    requires
        forall|i: int| 0 <= i < vals.len() ==> (#[trigger] vals[i] as nat) < pow2(w),
    ensures
        packed_value(vals, w) < pow2((vals.len() * w) as nat),
    decreases vals.len(),
{
    if vals.len() == 0 {
        lemma2_to64();
    } else {
        let rest = vals.drop_first();
        lemma_packed_value_bound(rest, w);
        let pw = pow2(w);
        let pr = pow2((rest.len() * w) as nat);
        assert(vals[0] as nat + pw * packed_value(rest, w) < pw * pr) by (nonlinear_arith)
            requires
                (vals[0] as nat) < pw,
                packed_value(rest, w) < pr,
        ;
        assert(vals.len() * w == w + rest.len() * w) by (nonlinear_arith)
            requires
                vals.len() == rest.len() + 1,
        ;
        lemma_pow2_adds(w, (rest.len() * w) as nat);
    }
}

proof fn lemma_packed_value_field(vals: Seq<u64>, w: nat, i: int)
    requires
        0 <= i < vals.len(),
        forall|j: int| 0 <= j < vals.len() ==> (#[trigger] vals[j] as nat) < pow2(w),
    ensures
        (packed_value(vals, w) as int / pow2((i * w) as nat) as int) % pow2(w) as int == vals[i]
            as int,
    decreases i,
{
    let rest = vals.drop_first();
    let pw = pow2(w);
    lemma_pow2_pos(w);
    lemma2_to64();
    assert(packed_value(vals, w) == pw * packed_value(rest, w) + vals[0]);
    if i == 0 {
        assert(((0 * w) as nat) == 0nat);
        lemma_mod_multiples_vanish(packed_value(rest, w) as int, vals[0] as int, pw as int);
        lemma_small_mod(vals[0] as nat, pw);
        assert(packed_value(vals, w) as int / 1 == packed_value(vals, w) as int);
    } else {
        lemma_packed_value_field(rest, w, i - 1);
        let pi = pow2(((i - 1) * w) as nat);
        lemma_pow2_pos(((i - 1) * w) as nat);
        assert(i * w == w + (i - 1) * w) by (nonlinear_arith);
        lemma_pow2_adds(w, ((i - 1) * w) as nat);
        lemma_div_denominator(packed_value(vals, w) as int, pw as int, pi as int);
        lemma_div_multiples_vanish_fancy(packed_value(rest, w) as int, vals[0] as int, pw as int);
        assert(((i * w) as nat) == w + ((i - 1) * w) as nat);
        assert(pow2((i * w) as nat) == pw * pi);
        assert(packed_value(vals, w) as int / pow2((i * w) as nat) as int == packed_value(rest, w)
            as int / pi as int);
        assert(rest[i - 1] == vals[i]);
    }
}

/// Bits of a word at positions below sixty do not see the selector above them.
proof fn lemma_low_fields(q: int, r: int, k: nat, b: nat)
    requires
        q >= 0,
        0 <= r < pow2(60),
        k + b <= 60,
    ensures
        ((q * pow2(60) + r) / pow2(k) as int) % pow2(b) as int == (r / pow2(k) as int) % pow2(
            b,
        ) as int,
{
    let pk = pow2(k);
    let pm = pow2((60 - k - b) as nat);
    let pb = pow2(b);
    lemma_pow2_pos(k);
    lemma_pow2_pos(b);
    lemma_pow2_adds(k, (60 - k) as nat);
    lemma_pow2_adds((60 - k - b) as nat, b);
    let a = q * pm * pb;
    assert(q * pow2(60) == a * pk) by (nonlinear_arith)
        requires
            pow2(60) == pk * pow2((60 - k) as nat),
            pow2((60 - k) as nat) == pm * pb,
            a == q * pm * pb,
    ;
    lemma_hoist_over_denominator(r, a, pk);
    assert(a == pb * (q * pm)) by (nonlinear_arith)
        requires
            a == q * pm * pb,
    ;
    lemma_mod_multiples_vanish(q * pm, r / pk as int, pb as int);
}

/// The word that `pack` writes carries the batch's selector, and its slots hold the
/// stored values in order.
pub proof fn lemma_word_holds_batch(data: Seq<u64>, word: u64)
    requires
        !pack_rejects(data),
        word as int == pack_word(data),
    ensures
        word_selector(word) == batch_selector(data),
        stored_count(data) <= max_count(word_selector(word)),
        forall|i: int| 0 <= i < stored_count(data) ==> #[trigger] packed_field(word, i) == data[i],
{
    let k = batch_len(data);
    let s = batch_selector(data);
    let n = stored_count(data);
    let b = bit_width(s);
    let vals = data.take(n as int);
    lemma_batch_fits(data);
    lemma_selector_of_prefix(data, k as int);
    lemma_widened(selector_of_prefix(data, k as int), k as int);
    lemma_table_shape(s, s);
    assert(n * b <= 60) by (nonlinear_arith)
        requires
            n <= max_count(s),
            b * max_count(s) <= 60,
    ;
    assert forall|j: int| 0 <= j < vals.len() implies (#[trigger] vals[j] as nat) < pow2(b) by {
        lemma_min_selector(data[j]);
        lemma_table_shape(min_selector(data[j]), s);
        lemma_pow2_le(bit_width(min_selector(data[j])), b);
    }
    lemma_packed_value_bound(vals, b);
    lemma_pow2_le((n * b) as nat, 60);
    let p = packed_value(vals, b);
    lemma_pow2_pos(60);
    lemma_div_multiples_vanish_fancy(s, p as int, pow2(60) as int);
    assert(pow2(60) * s == s * pow2(60)) by (nonlinear_arith);
    assert forall|i: int| 0 <= i < n implies #[trigger] packed_field(word, i) == data[i] by {
        assert((i + 1) * b <= n * b) by (nonlinear_arith)
            requires
                i < n,
        ;
        assert(i * b + b == (i + 1) * b) by (nonlinear_arith);
        lemma_low_fields(s, p as int, (i * b) as nat, b);
        lemma_packed_value_field(vals, b, i);
    }
}

/// The batch that `pack` consumes fits in one word.
pub proof fn lemma_batch_fits(data: Seq<u64>)
    ensures
        prefix_fits(data, batch_len(data) as int),
        batch_len(data) <= data.len(),
{
    lemma_longest_fits(data, data.len() as int);
}

proof fn lemma_longest_fits(data: Seq<u64>, k: int)
    requires
        0 <= k <= data.len(),
    ensures
        prefix_fits(data, longest_fitting_prefix(data, k) as int),
        longest_fitting_prefix(data, k) <= k,
    decreases k,
{
    if k > 0 && !prefix_fits(data, k) {
        lemma_longest_fits(data, k - 1);
    }
}

/// The word that `pack` writes has a slot for every value it reports, and those slots
/// fit in its sixty low bits.
pub proof fn lemma_count_within_capacity(data: Seq<u64>, word: u64)
    requires
        !pack_rejects(data),
        word as int == pack_word(data),
    ensures
        stored_count(data) <= max_count(word_selector(word)),
        stored_count(data) * bit_width(word_selector(word)) <= 60,
{
    let s = batch_selector(data);
    lemma_word_holds_batch(data, word);
    lemma_batch_fits(data);
    lemma_selector_of_prefix(data, batch_len(data) as int);
    lemma_widened(selector_of_prefix(data, batch_len(data) as int), batch_len(data) as int);
    lemma_table_shape(s, s);
    assert(stored_count(data) * bit_width(s) <= 60) by (nonlinear_arith)
        requires
            stored_count(data) <= max_count(s),
            bit_width(s) * max_count(s) <= 60,
    ;
}

/// Packing and then unpacking into a buffer of at least as many slots as `pack`
/// reported gives back those values, in order.
pub proof fn lemma_round_trip(data: Seq<u64>, word: u64, capacity: int)
    requires
        forall|i: int| 0 <= i < data.len() ==> in_domain(#[trigger] data[i]),
        word as int == pack_word(data),
        capacity >= stored_count(data),
    ensures
        !pack_rejects(data),
        unpacked_count(word, capacity) >= stored_count(data),
        forall|i: int| 0 <= i < stored_count(data) ==> #[trigger] packed_field(word, i) == data[i],
{
    lemma_batch_fits(data);
    lemma_word_holds_batch(data, word);
}

/// `pack` rejects any input that holds a value of 2^60 or more which its scan reaches,
/// that is, one preceded by values that fit together in one word.
pub proof fn lemma_rejects_out_of_domain(data: Seq<u64>, j: int)
    requires
        0 <= j < data.len(),
        !in_domain(data[j]),
        prefix_fits(data, j),
    ensures
        pack_rejects(data),
{
    lemma_batch_len(data, j, data.len() as int);
}

} // verus!
