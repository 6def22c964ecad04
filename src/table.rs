//! The selector table: for each of the sixteen selectors, the width in bits of one
//! value and the number of values that a word with that selector holds.
use vstd::prelude::*;

verus! {

/// Number of bits that one value occupies in a word with selector `s`.
pub open spec fn bit_width(s: int) -> nat {
    if s <= 1 {
        0
    } else if s <= 9 {
        (s - 1) as nat
    } else if s == 10 {
        10
    } else if s == 11 {
        12
    } else if s == 12 {
        15
    } else if s == 13 {
        20
    } else if s == 14 {
        30
    } else {
        60
    }
}

/// Number of values that a word with selector `s` holds.
pub open spec fn max_count(s: int) -> nat {
    if s == 0 {
        240
    } else if s == 1 {
        120
    } else if s == 2 {
        60
    } else if s == 3 {
        30
    } else if s == 4 {
        20
    } else if s == 5 {
        15
    } else if s == 6 {
        12
    } else if s == 7 {
        10
    } else if s == 8 {
        8
    } else if s == 9 {
        7
    } else if s == 10 {
        6
    } else if s == 11 {
        5
    } else if s == 12 {
        4
    } else if s == 13 {
        3
    } else if s == 14 {
        2
    } else {
        1
    }
}

/// The slots of a word never take more than its sixty low bits, and a higher selector
/// never has narrower slots nor more of them.
pub proof fn lemma_table_shape(s: int, t: int)
    requires
        0 <= s <= t < 16,
    ensures
        bit_width(s) * max_count(s) <= 60,
        bit_width(s) <= bit_width(t),
        max_count(t) <= max_count(s),
        s < t ==> max_count(t) < max_count(s),
{
}

/// Width in bits of one value under `selector`.
pub fn selector_bit_width(selector: usize) -> (r: usize)
    requires
        selector < 16,
    ensures
        r == bit_width(selector as int),
{
    match selector {
        0 | 1 => 0,
        2 => 1,
        3 => 2,
        4 => 3,
        5 => 4,
        6 => 5,
        7 => 6,
        8 => 7,
        9 => 8,
        10 => 10,
        11 => 12,
        12 => 15,
        13 => 20,
        14 => 30,
        _ => 60,
    }
}

/// Number of values that a word with `selector` holds.
pub fn selector_max_count(selector: usize) -> (r: usize)
    requires
        selector < 16,
    ensures
        r == max_count(selector as int),
{
    match selector {
        0 => 240,
        1 => 120,
        2 => 60,
        3 => 30,
        4 => 20,
        5 => 15,
        6 => 12,
        7 => 10,
        8 => 8,
        9 => 7,
        10 => 6,
        11 => 5,
        12 => 4,
        13 => 3,
        14 => 2,
        _ => 1,
    }
}

} // verus!
