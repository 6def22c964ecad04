use simple8b::table::{selector_bit_width, selector_max_count};
use simple8b::{count_packed, pack, unpack};

fn encode_array(values: &[u64], result: &mut [u64]) -> usize {
    let mut count = 0;
    let mut i = 0;
    while count < values.len() {
        count += pack(&values[count..], &mut result[i]).unwrap();
        i += 1;
    }
    i
}

fn decode_array(input: &[u64], output: &mut [u64]) -> usize {
    let mut count = 0;
    for &v in input {
        count += unpack(v, &mut output[count..]);
        if count == output.len() {
            break;
        }
    }
    count
}

#[test]
fn test_too_large() {
    let values = [2, 76, 3, (u64::max_value() >> 4) + 1, 7, 2];
    let mut r = 0;
    let res = pack(&values, &mut r);
    match res {
        Ok(_) => panic!("no error"),
        Err(_) => (),
    }
}

#[test]
fn too_large_leaves_word_untouched() {
    let values = [2, 76, 3, 1u64 << 60, 7, 2];
    let mut r = 0xdead_beef_u64;
    assert!(pack(&values, &mut r).is_err());
    assert_eq!(r, 0xdead_beef);
}

#[test]
fn too_large_first_value() {
    let mut r = 42u64;
    assert!(pack(&[u64::MAX], &mut r).is_err());
    assert!(pack(&[1u64 << 60], &mut r).is_err());
    assert_eq!(r, 42);
}

#[test]
fn too_large_after_closed_batch_is_not_seen() {
    // the 241st zero closes the batch before the scan reaches the large value
    let mut values = vec![0u64; 241];
    values.push(1u64 << 60);
    let mut r = 0u64;
    assert_eq!(pack(&values, &mut r), Ok(240));
    assert_eq!(r, 0);
}

#[test]
fn largest_domain_value_is_accepted() {
    let mut r = 0u64;
    assert_eq!(pack(&[(1u64 << 60) - 1], &mut r), Ok(1));
    assert_eq!(r >> 60, 15);
    let mut out = [0u64; 1];
    assert_eq!(unpack(r, &mut out), 1);
    assert_eq!(out[0], (1u64 << 60) - 1);
}

#[test]
fn zero_run_capacity() {
    let zeros = [0u64; 240];
    let mut r = 99u64;
    assert_eq!(pack(&zeros, &mut r), Ok(240));
    assert_eq!(r >> 60, 0);
    assert_eq!(r, 0);
    let more = [0u64; 241];
    assert_eq!(pack(&more, &mut r), Ok(240));
    assert_eq!(r >> 60, 0);
}

#[test]
fn maximal_single_value() {
    let v = (1u64 << 59) - 1;
    let mut r = 0u64;
    assert_eq!(pack(&[v], &mut r), Ok(1));
    assert_eq!(r >> 60, 15);
    assert_eq!(count_packed(r), 1);
    let mut out = [0u64; 4];
    assert_eq!(unpack(r, &mut out), 1);
    assert_eq!(out, [v, 0, 0, 0]);
}

#[test]
fn empty_input_packs_nothing() {
    let mut r = 5u64;
    assert_eq!(pack(&[], &mut r), Ok(0));
    assert_eq!(r, 0);
}

#[test]
fn exact_word_layout() {
    // two significant bits: selector 3, two bits per slot, first value lowest
    let mut r = 0u64;
    assert_eq!(pack(&[1, 2], &mut r), Ok(2));
    assert_eq!(r, (3u64 << 60) | (2 << 2) | 1);
}

#[test]
fn round_trip_mixed_widths() {
    let values: Vec<u64> = (0..100u64).map(|i| (i * 37) % 1000).collect();
    let mut words = [0u64; 64];
    let used = encode_array(&values, &mut words);
    let mut decoded = vec![0u64; values.len()];
    assert_eq!(decode_array(&words[..used], &mut decoded), values.len());
    assert_eq!(decoded, values);
}

#[test]
fn round_trip_single_word() {
    let values = [7u64, 0, 3, 6, 1, 5];
    let mut r = 0u64;
    let c = pack(&values, &mut r).unwrap();
    assert_eq!(c, 6);
    let mut out = [0u64; 6];
    assert_eq!(unpack(r, &mut out), 6);
    assert_eq!(out, values);
}

#[test]
fn capacity_matches_selector() {
    let inputs: [&[u64]; 4] = [&[1, 2, 3], &[0; 300], &[255; 20], &[1 << 40, 3]];
    for data in inputs.iter() {
        let mut r = 0u64;
        let c = pack(data, &mut r).unwrap();
        let sel = (r >> 60) as usize;
        assert_eq!(count_packed(r), selector_max_count(sel));
        assert!(c <= count_packed(r));
    }
}

#[test]
fn batch_cut_short_widens_selector() {
    // nine ones, then a value of 2^59: the batch closes at nine values and the
    // selector widens to the first capacity not above nine, which holds eight; the
    // count returned is what the word holds
    let mut values = vec![1u64; 9];
    values.push(1 << 59);
    let mut r = 0u64;
    assert_eq!(pack(&values, &mut r), Ok(8));
    assert_eq!(r >> 60, 8);
    assert_eq!(count_packed(r), 8);
    let mut out = [0u64; 9];
    assert_eq!(unpack(r, &mut out), 8);
    assert_eq!(out, [1, 1, 1, 1, 1, 1, 1, 1, 0]);
}

#[test]
fn zero_run_before_wider_value() {
    let mut values = vec![0u64; 100];
    values.push(1);
    let mut r = 0u64;
    assert_eq!(pack(&values, &mut r), Ok(60));
    assert_eq!(r >> 60, 2);
    assert_eq!(count_packed(r), 60);
}

#[test]
fn cut_short_batches_round_trip() {
    let mut values = vec![0u64; 100];
    values.push(1);
    values.extend_from_slice(&[1u64; 9]);
    values.push(1 << 59);
    values.extend_from_slice(&[3u64; 13]);
    values.push(1000);
    let mut words = [0u64; 64];
    let used = encode_array(&values, &mut words);
    let mut decoded = vec![0u64; values.len()];
    assert_eq!(decode_array(&words[..used], &mut decoded), values.len());
    assert_eq!(decoded, values);
}

#[test]
fn batch_at_capacity_round_trips() {
    // ten values of three bits, then one of seven bits: the batch of ten is exactly
    // the capacity of the seven-bit selector
    let mut values = vec![5u64; 10];
    values.push(100);
    let mut r = 0u64;
    assert_eq!(pack(&values, &mut r), Ok(10));
    assert_eq!(r >> 60, 7);
    let mut out = [0u64; 10];
    assert_eq!(unpack(r, &mut out), 10);
    assert_eq!(out, [5u64; 10]);
}

#[test]
fn truncated_decode() {
    let values: Vec<u64> = (1..=15u64).collect();
    let mut r = 0u64;
    assert_eq!(pack(&values, &mut r), Ok(15));
    assert_eq!(count_packed(r), 15);
    let mut out = [u64::MAX; 7];
    assert_eq!(unpack(r, &mut out[..5]), 5);
    assert_eq!(out, [1, 2, 3, 4, 5, u64::MAX, u64::MAX]);
}

#[test]
fn loose_fit_decodes_zero_padding() {
    let mut r = 0u64;
    assert_eq!(pack(&[1, 2], &mut r), Ok(2));
    assert_eq!(count_packed(r), 30);
    let mut out = [9u64; 32];
    assert_eq!(unpack(r, &mut out), 30);
    assert_eq!(out[0], 1);
    assert_eq!(out[1], 2);
    assert!(out[2..30].iter().all(|&x| x == 0));
    assert_eq!(out[30], 9);
    assert_eq!(out[31], 9);
}

#[test]
fn zero_width_selectors_decode_zeros() {
    let mut out = [7u64; 130];
    assert_eq!(unpack(1u64 << 60, &mut out), 120);
    assert!(out[..120].iter().all(|&x| x == 0));
    assert_eq!(out[120], 7);
    let mut out = [7u64; 240];
    assert_eq!(unpack(0, &mut out), 240);
    assert!(out.iter().all(|&x| x == 0));
}

#[test]
fn end_to_end_zeros() {
    let values = [0u64; 1024];
    let mut encoded = [0u64; 128];
    let used = encode_array(&values, &mut encoded);
    assert_eq!(used, 5);
    let mut decoded = [1u64; 1024];
    assert_eq!(decode_array(&encoded, &mut decoded), 1024);
    assert_eq!(&values[..], &decoded[..]);
}

#[test]
fn selector_table_values() {
    let bits = [0, 0, 1, 2, 3, 4, 5, 6, 7, 8, 10, 12, 15, 20, 30, 60];
    let counts = [240, 120, 60, 30, 20, 15, 12, 10, 8, 7, 6, 5, 4, 3, 2, 1];
    for s in 0..16 {
        assert_eq!(selector_bit_width(s), bits[s]);
        assert_eq!(selector_max_count(s), counts[s]);
        assert!(bits[s] * counts[s] <= 60);
    }
}

#[test]
fn min_selector_thresholds() {
    // one value per word-width boundary: the selector is the narrowest that holds it
    let cases: [(u64, u64); 12] = [
        (0, 0),
        (1, 2),
        (255, 9),
        (256, 10),
        (1023, 10),
        (1024, 11),
        (4096, 12),
        (1 << 15, 13),
        (1 << 20, 14),
        (1 << 30, 15),
        ((1 << 30) - 1, 14),
        ((1 << 60) - 1, 15),
    ];
    for &(v, sel) in cases.iter() {
        let mut r = 0u64;
        assert_eq!(pack(&[v], &mut r), Ok(1));
        assert_eq!(r >> 60, sel, "value {}", v);
    }
}
