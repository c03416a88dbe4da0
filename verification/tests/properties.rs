use voracious_sort::algo::k_way_merge::k_way_merge;
use voracious_sort::algo::verge_sort_heuristic::{
    find_runs, reverse_range, sort_range, sort_run, verge_sort_preprocessing, RunSort,
};
use voracious_sort::radixable::{Float32, Float64, InvalidInput, Radixable, SortError};
use voracious_sort::buckets::Bucketer;
use voracious_sort::sorts::american_flag_sort::{
    american_flag_sort, partition_in_place, serial_radixsort_rec, DigitOf,
};
use voracious_sort::sorts::boolean_sort::boolean_sort;
use voracious_sort::sorts::comparative_sort::{insertion_sort, swap};
use voracious_sort::sorts::counting_sort::{counting_sort, counting_sort_body};
use voracious_sort::sorts::dlsd_sort::{choose_partial, dlsd_radixsort, finish_stretches};
use voracious_sort::sorts::lsd_sort::{
    lsd_radixsort, lsd_radixsort_aux, lsd_radixsort_body, lsd_radixsort_heu,
};
use voracious_sort::sorts::msd_sort::{copy_by_histogram, msd_radixsort, scratch_partition};
use voracious_sort::sorts::msd_string_sort::{
    bytes_le_upto, longest, msd_string_radixsort, string_insertion_sort, ByteAt,
};
use voracious_sort::sorts::parallel::{
    get_histogram_mt, get_histogram_of_range, perform_swaps_mt, swap_pair, swap_range_mt,
};
use voracious_sort::sorts::ska_sort::ska_sort;
use voracious_sort::sorts::thiel_sort::thiel_radixsort;
use voracious_sort::sorts::utils::{
    aggregate_histograms, compute_max_level, compute_offset, copy_nonoverlapping, default_mask,
    extract, extract_key, find_max_key, get_empty_histograms,
    get_full_histogram_except_for_last_level, histogram_by,
    get_full_histograms_fast, get_histogram, get_mask_and_shift, get_mask_and_shift_from_left,
    get_next_two_histograms, get_partial_histograms_fast, key_prefix, offset_from_bits,
    only_one_bucket_filled, perform_swaps, prefix_sums, split_into_chunks, swap_range, Params,
};
use voracious_sort::sorts::voracious_sort::{choose_run_sort, voracious_sort, RadixSort};

struct Rng(u64);

impl Rng {
    fn new(seed: u64) -> Rng {
        Rng(seed | 1)
    }

    fn next(&mut self) -> u64 {
        let mut x = self.0;
        x ^= x >> 12;
        x ^= x << 25;
        x ^= x >> 27;
        self.0 = x;
        x.wrapping_mul(0x2545_F491_4F6C_DD1D)
    }
}

fn random_u32(size: usize, seed: u64) -> Vec<u32> {
    let mut rng = Rng::new(seed);
    (0..size).map(|_| rng.next() as u32).collect()
}

fn random_u64(size: usize, seed: u64) -> Vec<u64> {
    let mut rng = Rng::new(seed);
    (0..size).map(|_| rng.next()).collect()
}

fn reference<T: Copy + Ord>(input: &[T]) -> Vec<T> {
    let mut check = input.to_vec();
    check.sort();
    check
}

fn floats32(values: &[f32]) -> Vec<Float32> {
    values.iter().map(|x| Float32::from_bits(x.to_bits())).collect()
}

fn back32(values: &[Float32]) -> Vec<f32> {
    values.iter().map(|x| f32::from_bits(x.to_bits())).collect()
}

// The literal scenarios.

#[test]
fn scenario_default_sort_of_u32() {
    let mut a: Vec<u32> = vec![3, 1, 4, 1, 5, 9, 2, 6, 5, 3, 5];
    assert_eq!(a.voracious_sort(), Ok(()));
    assert_eq!(a, vec![1, 1, 2, 3, 3, 4, 5, 5, 5, 6, 9]);
}

#[test]
fn scenario_american_flag_sort_of_i32() {
    let mut a: Vec<i32> = vec![-1, 0, 1, -2, 2];
    assert_eq!(american_flag_sort(&mut a, 8), Ok(()));
    assert_eq!(a, vec![-2, -1, 0, 1, 2]);
}

#[test]
fn scenario_lsd_sort_of_f32() {
    let mut a = floats32(&[0.0, 12.3, 37.122, -27.872, -18.001]);
    assert_eq!(lsd_radixsort(&mut a, 8), Ok(()));
    assert_eq!(back32(&a), vec![-27.872, -18.001, 0.0, 12.3, 37.122]);
}

#[test]
fn scenario_default_sort_of_strings() {
    let mut a: Vec<&str> = vec!["pear", "apple", "banana"];
    assert_eq!(a.voracious_sort(), Ok(()));
    assert_eq!(a, vec!["apple", "banana", "pear"]);
}

#[test]
fn scenario_default_sort_rejects_nan() {
    let input = floats32(&[0.0, 1.0, f32::NAN, -1.0]);
    let mut a = input.clone();
    assert_eq!(a.voracious_sort(), Err(SortError::InvalidInput(InvalidInput::NaN)));
    assert_eq!(a, input);
}

#[test]
fn scenario_default_sort_of_pairs() {
    let mut a: Vec<(bool, u8)> = vec![(true, 1), (false, 255), (true, 0)];
    assert_eq!(a.voracious_sort(), Ok(()));
    assert_eq!(a, vec![(false, 255), (true, 0), (true, 1)]);
}

// The errors, and that a rejected input is left alone.

#[test]
fn every_sort_rejects_a_radix_out_of_range() {
    for radix in [0usize, 1, 3, 9, 16, 64, 1000] {
        let input = random_u32(300, 5);
        let mut a = input.clone();
        assert_eq!(american_flag_sort(&mut a, radix), Err(SortError::UnsupportedRadix));
        assert_eq!(lsd_radixsort(&mut a, radix), Err(SortError::UnsupportedRadix));
        assert_eq!(lsd_radixsort_aux(&mut a, radix, true, 0), Err(SortError::UnsupportedRadix));
        assert_eq!(lsd_radixsort_heu(&mut a, radix, 0), Err(SortError::UnsupportedRadix));
        assert_eq!(msd_radixsort(&mut a, radix), Err(SortError::UnsupportedRadix));
        assert_eq!(ska_sort(&mut a, radix), Err(SortError::UnsupportedRadix));
        assert_eq!(thiel_radixsort(&mut a, radix), Err(SortError::UnsupportedRadix));
        assert_eq!(dlsd_radixsort(&mut a, radix), Err(SortError::UnsupportedRadix));
        assert_eq!(voracious_sort(&mut a, radix), Err(SortError::UnsupportedRadix));
        assert_eq!(a, input);
    }
    let mut a = random_u32(300, 5);
    assert_eq!(counting_sort(&mut a, 3), Err(SortError::UnsupportedRadix));
    assert_eq!(counting_sort(&mut a, 17), Err(SortError::UnsupportedRadix));
}

#[test]
fn every_sort_rejects_a_key_that_is_too_wide() {
    let input: Vec<(u128, u8)> = vec![(3, 1), (1, 2), (2, 3)];
    let mut a = input.clone();
    assert_eq!(<(u128, u8)>::type_size(), 136);
    assert_eq!(american_flag_sort(&mut a, 8), Err(SortError::UnsupportedWidth));
    assert_eq!(lsd_radixsort(&mut a, 8), Err(SortError::UnsupportedWidth));
    assert_eq!(msd_radixsort(&mut a, 8), Err(SortError::UnsupportedWidth));
    assert_eq!(ska_sort(&mut a, 8), Err(SortError::UnsupportedWidth));
    assert_eq!(thiel_radixsort(&mut a, 8), Err(SortError::UnsupportedWidth));
    assert_eq!(dlsd_radixsort(&mut a, 8), Err(SortError::UnsupportedWidth));
    assert_eq!(voracious_sort(&mut a, 8), Err(SortError::UnsupportedWidth));
    assert_eq!(counting_sort(&mut a, 8), Err(SortError::UnsupportedWidth));
    assert_eq!(a.voracious_sort(), Err(SortError::UnsupportedWidth));
    assert_eq!(a.dlsd_sort(), Err(SortError::UnsupportedWidth));
    assert_eq!(a, input);
}

#[test]
fn every_sort_rejects_nan() {
    let mut values: Vec<f64> = (0..500).map(|i| (i as f64) * 0.5 - 100.0).collect();
    values[321] = f64::NAN;
    let input: Vec<Float64> = values.iter().map(|x| Float64::from_bits(x.to_bits())).collect();
    let mut a = input.clone();
    let nan = Err(SortError::InvalidInput(InvalidInput::NaN));
    assert_eq!(american_flag_sort(&mut a, 8), nan);
    assert_eq!(lsd_radixsort(&mut a, 8), nan);
    assert_eq!(lsd_radixsort_aux(&mut a, 8, false, 0), nan);
    assert_eq!(lsd_radixsort_heu(&mut a, 8, 10), nan);
    assert_eq!(msd_radixsort(&mut a, 8), nan);
    assert_eq!(ska_sort(&mut a, 8), nan);
    assert_eq!(thiel_radixsort(&mut a, 8), nan);
    assert_eq!(dlsd_radixsort(&mut a, 8), nan);
    assert_eq!(voracious_sort(&mut a, 8), nan);
    assert_eq!(counting_sort(&mut a, 8), nan);
    assert_eq!(a.dlsd_sort(), nan);
    assert_eq!(a, input);
    let not_a_number = Float32::from_bits(f32::NAN.to_bits());
    let mut pairs: Vec<(u8, Float32)> = vec![(1, not_a_number), (0, not_a_number)];
    assert_eq!(pairs.voracious_sort(), nan);
}

#[test]
fn nothing_is_wrong_with_a_slice_that_needs_no_sorting() {
    let not_a_number = Float32::from_bits(f32::NAN.to_bits());
    for radix in [0usize, 3, 8, 9, 1000] {
        let mut none: Vec<Float32> = vec![];
        let mut one: Vec<Float32> = vec![not_a_number];
        let mut wide: Vec<(u128, u8)> = vec![(1, 1)];
        assert_eq!(american_flag_sort(&mut none, radix), Ok(()));
        assert_eq!(american_flag_sort(&mut one, radix), Ok(()));
        assert_eq!(lsd_radixsort(&mut one, radix), Ok(()));
        assert_eq!(lsd_radixsort_aux(&mut one, radix, true, 0), Ok(()));
        assert_eq!(lsd_radixsort_heu(&mut one, radix, 0), Ok(()));
        assert_eq!(msd_radixsort(&mut one, radix), Ok(()));
        assert_eq!(ska_sort(&mut one, radix), Ok(()));
        assert_eq!(thiel_radixsort(&mut one, radix), Ok(()));
        assert_eq!(dlsd_radixsort(&mut one, radix), Ok(()));
        assert_eq!(voracious_sort(&mut one, radix), Ok(()));
        assert_eq!(counting_sort(&mut one, radix), Ok(()));
        assert_eq!(voracious_sort(&mut wide, radix), Ok(()));
        assert_eq!(counting_sort(&mut wide, radix), Ok(()));
        assert!(none.is_empty());
        assert_eq!(one, vec![not_a_number]);
        assert_eq!(wide, vec![(1, 1)]);
    }
}

#[test]
fn counting_sort_rejects_keys_wider_than_its_digit() {
    let input: Vec<u16> = vec![5, 256, 3];
    let mut a = input.clone();
    assert_eq!(counting_sort(&mut a, 8), Err(SortError::UnsupportedWidth));
    assert_eq!(a, input);
    assert_eq!(counting_sort(&mut a, 9), Ok(()));
    assert_eq!(a, vec![3, 5, 256]);
    let mut b: Vec<u16> = vec![65535, 0, 255, 256, 1];
    assert_eq!(counting_sort(&mut b, 16), Ok(()));
    assert_eq!(b, vec![0, 1, 255, 256, 65535]);
}

#[test]
fn partial_histograms_are_limited_to_five() {
    let arr: Vec<u64> = random_u64(100, 3);
    let p = Params::new(0, 8, 0, 8);
    assert_eq!(
        get_partial_histograms_fast(&arr, &p, 6),
        Err(SortError::InvalidInput(InvalidInput::PartialHistograms))
    );
    assert_eq!(get_partial_histograms_fast(&arr, &p, 5).unwrap().len(), 5);
    assert_eq!(get_partial_histograms_fast(&arr, &p, 0).unwrap().len(), 0);
}

#[test]
fn infinities_and_zeros_are_sorted_like_numbers() {
    let values = [f32::INFINITY, -0.0, 0.0, f32::NEG_INFINITY, f32::MAX, f32::MIN, 1e-40, -1e-40];
    let mut a = floats32(&values);
    assert_eq!(a.voracious_sort(), Ok(()));
    let got = back32(&a);
    assert_eq!(got[0], f32::NEG_INFINITY);
    assert_eq!(got[1], f32::MIN);
    assert_eq!(got[2], -1e-40);
    assert_eq!(got[3].to_bits(), (-0.0f32).to_bits());
    assert_eq!(got[4].to_bits(), 0.0f32.to_bits());
    assert_eq!(got[5], 1e-40);
    assert_eq!(got[6], f32::MAX);
    assert_eq!(got[7], f32::INFINITY);
}

// The keys.

#[test]
fn keys_of_the_primitive_types() {
    assert_eq!(7u8.into_key(), 7);
    assert_eq!(u64::MAX.into_key(), u64::MAX as u128);
    assert_eq!(u128::MAX.into_key(), u128::MAX);
    assert_eq!(i8::MIN.into_key(), 0);
    assert_eq!((-1i8).into_key(), 127);
    assert_eq!(0i8.into_key(), 128);
    assert_eq!(i8::MAX.into_key(), 255);
    assert_eq!((-1i16).into_key(), 0x7FFF);
    assert_eq!((-1i32).into_key(), 0x7FFF_FFFF);
    assert_eq!(0i32.into_key(), 0x8000_0000);
    assert_eq!(i32::MIN.into_key(), 0);
    assert_eq!(i64::MAX.into_key(), u64::MAX as u128);
    assert_eq!(i64::MIN.into_key(), 0);
    assert_eq!(false.into_key(), 0);
    assert_eq!(true.into_key(), 1);
    assert_eq!('a'.into_key(), 97);
    assert_eq!(char::MAX.into_key(), 0x10FFFF);
    assert_eq!(u8::type_size(), 8);
    assert_eq!(u16::type_size(), 16);
    assert_eq!(i32::type_size(), 32);
    assert_eq!(i64::type_size(), 64);
    assert_eq!(u128::type_size(), 128);
    assert_eq!(bool::type_size(), 1);
    assert_eq!(char::type_size(), 32);
    assert!(5u32.is_valid());
    assert_eq!(i128::MIN.into_key(), 0);
    assert_eq!((-1i128).into_key(), (1u128 << 127) - 1);
    assert_eq!(0i128.into_key(), 1u128 << 127);
    assert_eq!(i128::MAX.into_key(), u128::MAX);
    assert_eq!(i128::type_size(), 128);
    assert_eq!(usize::MAX.into_key(), usize::MAX as u128);
    assert_eq!(usize::type_size(), usize::BITS as usize);
    assert_eq!(isize::MIN.into_key(), 0);
    assert_eq!(0isize.into_key(), (usize::MAX as u128 + 1) / 2);
    assert_eq!(isize::MAX.into_key(), usize::MAX as u128);
    assert_eq!(isize::type_size(), usize::BITS as usize);
}

#[test]
fn wide_and_pointer_sized_integers_are_sorted() {
    let mut a: Vec<i128> =
        random_u64(3_000, 21).iter().map(|x| (*x as i128 - (1 << 62)) << 60).collect();
    let want = reference(&a);
    assert_eq!(a.voracious_sort(), Ok(()));
    assert_eq!(a, want);
    let mut b: Vec<isize> = random_u64(3_000, 22).iter().map(|x| *x as isize).collect();
    let want = reference(&b);
    assert_eq!(lsd_radixsort(&mut b, 8), Ok(()));
    assert_eq!(b, want);
    let mut c: Vec<usize> = random_u64(3_000, 23).iter().map(|x| *x as usize).collect();
    let want = reference(&c);
    assert_eq!(american_flag_sort(&mut c, 5), Ok(()));
    assert_eq!(c, want);
}

#[test]
fn keys_of_floats() {
    assert_eq!(Float32::from_bits(0.0f32.to_bits()).into_key(), 0x8000_0000);
    assert_eq!(Float32::from_bits((-0.0f32).to_bits()).into_key(), 0x7FFF_FFFF);
    assert_eq!(Float32::from_bits(1.0f32.to_bits()).into_key(), 0xBF80_0000);
    assert_eq!(Float32::from_bits((-1.0f32).to_bits()).into_key(), 0x407F_FFFF);
    assert_eq!(Float32::from_bits(f32::NEG_INFINITY.to_bits()).into_key(), 0x007F_FFFF);
    assert_eq!(Float64::from_bits(0.0f64.to_bits()).into_key(), 0x8000_0000_0000_0000);
    assert_eq!(Float64::from_bits((-2.0f64).to_bits()).into_key(), 0x3FFF_FFFF_FFFF_FFFF);
    assert_eq!(Float32::type_size(), 32);
    assert_eq!(Float64::type_size(), 64);
    assert!(Float32::from_bits(f32::INFINITY.to_bits()).is_valid());
    assert!(Float32::from_bits(f32::NEG_INFINITY.to_bits()).is_valid());
    assert!(!Float32::from_bits(f32::NAN.to_bits()).is_valid());
    assert!(!Float32::from_bits(0xFFC0_0001).is_valid());
    assert!(!Float64::from_bits(f64::NAN.to_bits()).is_valid());
    assert!(Float64::from_bits(f64::MAX.to_bits()).is_valid());
    assert_eq!(Float64::from_bits(17).to_bits(), 17);
}

#[test]
fn keys_of_pairs() {
    assert_eq!((true, 1u8).into_key(), 257);
    assert_eq!((false, 255u8).into_key(), 255);
    assert_eq!((1u8, true).into_key(), 3);
    assert_eq!((2u32, 5u32).into_key(), (2u128 << 32) + 5);
    assert_eq!((u64::MAX, u64::MAX).into_key(), u128::MAX);
    assert_eq!((-1i64, 0i64).into_key(), (0x7FFF_FFFF_FFFF_FFFFu128 << 64) + (1u128 << 63));
    assert_eq!(((1u8, 2u8), 3u8).into_key(), 0x010203);
    assert_eq!(<(bool, u8)>::type_size(), 9);
    assert_eq!(<(u64, u64)>::type_size(), 128);
    assert_eq!(<((u8, u8), u8)>::type_size(), 24);
    assert_eq!((u128::MAX, 1u8).into_key(), 0);
    assert!((1u8, Float32::from_bits(0)).is_valid());
}

// The formulas.

#[test]
fn params_hold_the_range_of_a_digit() {
    let p = Params::new(1, 8, 16, 2);
    assert_eq!((p.level, p.radix, p.offset, p.max_level, p.radix_range), (1, 8, 16, 2, 256));
    assert_eq!(Params::new(0, 4, 0, 8).radix_range, 16);
    assert_eq!(Params::new(0, 0, 0, 0).radix_range, 1);
    assert_eq!(Params::new(0, 16, 0, 1).radix_range, 65536);
    let q = p.new_level(0);
    assert_eq!((q.level, q.radix, q.offset, q.max_level, q.radix_range), (0, 8, 16, 2, 256));
    let d = Params::default();
    assert_eq!((d.level, d.radix, d.offset, d.max_level, d.radix_range), (0, 0, 0, 0, 0));
}

#[test]
fn masks_shifts_and_digits() {
    assert_eq!(default_mask(8), 255);
    assert_eq!(default_mask(4), 15);
    assert_eq!(default_mask(0), 0);
    assert_eq!(extract_key(0x1234_5678, 0xFF, 8), 0x56);
    assert_eq!(extract_key(0x1234_5678, 0xF, 28), 0x1);
    assert_eq!(extract_key(u128::MAX, 0xFF, 120), 0xFF);
    assert_eq!(extract_key(u128::MAX, 0xFF, 127), 1);
    assert_eq!(extract(&0xABCDu16, 0xFF, 4), 0xBC);
    assert_eq!(extract(&-1i8, 0xF, 4), 7);
    assert_eq!(key_prefix(0x1234, 8), 0x12);
    assert_eq!(key_prefix(0x1234, 0), 0x1234);
    // four digits of 8 bits: level 0 is the highest
    let p = Params::new(0, 8, 0, 4);
    assert_eq!(get_mask_and_shift(&p), (255, 24));
    assert_eq!(get_mask_and_shift(&p.new_level(3)), (255, 0));
    assert_eq!(get_mask_and_shift_from_left::<u32>(&p), (255, 24));
    assert_eq!(get_mask_and_shift_from_left::<u32>(&p.new_level(3)), (255, 0));
    // 12 bits left by the offset: the second digit would hang over, and is moved up
    let q = Params::new(0, 8, 20, 2);
    assert_eq!(get_mask_and_shift_from_left::<u32>(&q), (255, 4));
    assert_eq!(get_mask_and_shift_from_left::<u32>(&q.new_level(1)), (255, 0));
}

#[test]
fn offsets_and_levels() {
    assert_eq!(offset_from_bits(255, 8, 32), (24, 24));
    assert_eq!(offset_from_bits(256, 8, 32), (16, 23));
    assert_eq!(offset_from_bits(1000, 8, 32), (16, 22));
    assert_eq!(offset_from_bits(0, 8, 32), (32, 32));
    assert_eq!(offset_from_bits(1, 8, 32), (24, 31));
    assert_eq!(offset_from_bits(u32::MAX as u128, 8, 32), (0, 0));
    assert_eq!(offset_from_bits((1 << 30) - 1, 7, 32), (0, 2));
    assert_eq!(offset_from_bits(u128::MAX, 5, 128), (0, 0));
    assert_eq!(compute_max_level(32, 16, 8), 2);
    assert_eq!(compute_max_level(32, 0, 8), 4);
    assert_eq!(compute_max_level(32, 0, 7), 5);
    assert_eq!(compute_max_level(32, 32, 8), 0);
    assert_eq!(compute_max_level(128, 0, 5), 26);
    let arr: Vec<u32> = vec![7, 1000, 3];
    assert_eq!(find_max_key(&arr), 1000);
    assert_eq!(compute_offset(&arr, 8), (16, 22));
    let signed: Vec<i16> = vec![-5, 3];
    assert_eq!(find_max_key(&signed), 0x8003);
    assert_eq!(compute_offset(&signed, 4), (0, 0));
    let empty: Vec<u64> = vec![];
    assert_eq!(find_max_key(&empty), 0);
    assert_eq!(compute_offset(&empty, 8), (64, 64));
}

#[test]
fn histograms_count_the_digits() {
    let arr: Vec<u8> = vec![0x12, 0x13, 0x22, 0x2F, 0xF0, 0x12, 0x00];
    let p = Params::new(0, 4, 0, 2);
    let high = get_histogram(&arr, &p, 15, 4);
    let low = get_histogram(&arr, &p, 15, 0);
    let mut want_high = vec![0usize; 16];
    want_high[0] = 1;
    want_high[1] = 3;
    want_high[2] = 2;
    want_high[15] = 1;
    let mut want_low = vec![0usize; 16];
    want_low[0] = 2;
    want_low[2] = 3;
    want_low[3] = 1;
    want_low[15] = 1;
    assert_eq!(high, want_high);
    assert_eq!(low, want_low);
    assert_eq!(get_full_histograms_fast(&arr, &p), vec![want_high.clone(), want_low.clone()]);
    assert_eq!(get_full_histogram_except_for_last_level(&arr, &p), vec![want_high.clone()]);
    assert_eq!(get_next_two_histograms(&arr, &p), vec![want_high.clone(), want_low.clone()]);
    assert_eq!(
        get_partial_histograms_fast(&arr, &p, 2),
        Ok(vec![want_high.clone(), want_low.clone()])
    );
    assert_eq!(get_partial_histograms_fast(&arr, &p, 1), Ok(vec![want_high.clone()]));
    // three digits do not fit in 8 bits: the window starts at bit 0
    let three = get_partial_histograms_fast(&arr, &p, 3).unwrap();
    assert_eq!(three[2], want_low);
    assert_eq!(three[1], want_high);
    assert_eq!(three[0][0], 7);
    assert_eq!(get_histogram_of_range(&arr, 1, 4, &p, 15, 4)[2], 2);
    assert_eq!(get_empty_histograms(&p, 3), vec![vec![0usize; 16]; 3]);
    assert_eq!(get_empty_histograms(&p, 0).len(), 0);
    let none: Vec<u8> = vec![];
    assert_eq!(get_histogram(&none, &p, 15, 0), vec![0usize; 16]);
}

#[test]
fn prefix_sums_give_the_bounds_of_the_buckets() {
    let (p_sums, heads, tails) = prefix_sums(&[2, 0, 3]);
    assert_eq!(p_sums, vec![0, 2, 2, 5]);
    assert_eq!(heads, vec![0, 2, 2]);
    assert_eq!(tails, vec![2, 2, 5]);
    let (p_sums, heads, tails) = prefix_sums(&[]);
    assert_eq!(p_sums, vec![0]);
    assert!(heads.is_empty() && tails.is_empty());
}

#[test]
fn one_filled_bucket_is_told_from_two() {
    assert!(only_one_bucket_filled(&[0, 5, 0]));
    assert!(only_one_bucket_filled(&[0, 0]));
    assert!(only_one_bucket_filled(&[]));
    assert!(only_one_bucket_filled(&[9]));
    assert!(!only_one_bucket_filled(&[1, 0, 2]));
    assert!(!only_one_bucket_filled(&[1, 1]));
    assert!(!only_one_bucket_filled(&[0, 0, 3, 0, 0, 0, 1]));
}

#[test]
fn chunks_cover_the_slice() {
    let arr: Vec<u8> = vec![0; 10];
    assert_eq!(split_into_chunks(&arr, 3), vec![(0, 3), (3, 6), (6, 10)]);
    assert_eq!(split_into_chunks(&arr, 1), vec![(0, 10)]);
    assert_eq!(split_into_chunks(&arr, 5), vec![(0, 2), (2, 4), (4, 6), (6, 8), (8, 10)]);
    assert_eq!(split_into_chunks(&arr[..4], 4), vec![(0, 1), (1, 2), (2, 3), (3, 4)]);
    assert_eq!(split_into_chunks(&arr[..3], 5), vec![(0, 0), (0, 0), (0, 0), (0, 0), (0, 3)]);
    assert_eq!(split_into_chunks(&arr[..0], 1), vec![]);
    assert_eq!(split_into_chunks(&arr[..0], 3), vec![(0, 0), (0, 0)]);
}

#[test]
fn histograms_add_up() {
    let hs = vec![vec![1usize, 2, 3], vec![10, 20, 30], vec![0, 0, 7]];
    assert_eq!(aggregate_histograms(&hs), vec![11, 22, 40]);
    assert_eq!(aggregate_histograms(&vec![vec![4usize, 5]]), vec![4, 5]);
}

#[test]
fn block_swaps_and_copies() {
    let mut a: Vec<u32> = (0..10).collect();
    swap_range(&mut a, 3, 0, 7);
    assert_eq!(a, vec![7, 8, 9, 3, 4, 5, 6, 0, 1, 2]);
    swap_range(&mut a, 0, 2, 2);
    assert_eq!(a, vec![7, 8, 9, 3, 4, 5, 6, 0, 1, 2]);
    swap_range(&mut a, 2, 5, 3);
    assert_eq!(a, vec![7, 8, 9, 5, 6, 3, 4, 0, 1, 2]);
    swap(&mut a, 0, 9);
    assert_eq!(a, vec![2, 8, 9, 5, 6, 3, 4, 0, 1, 7]);
    swap(&mut a, 4, 4);
    assert_eq!(a, vec![2, 8, 9, 5, 6, 3, 4, 0, 1, 7]);
    let mut b: Vec<u32> = (0..10).collect();
    perform_swaps(&mut b, vec![(2, 100, 108), (1, 104, 105), (2, 100, 102)], 100);
    assert_eq!(b, vec![2, 3, 8, 9, 5, 4, 6, 7, 0, 1]);
    let mut c: Vec<u32> = vec![0; 5];
    copy_nonoverlapping(&[1, 2, 3, 4], &mut c, 3);
    assert_eq!(c, vec![1, 2, 3, 0, 0]);
    copy_nonoverlapping(&[9], &mut c, 0);
    assert_eq!(c, vec![1, 2, 3, 0, 0]);
    let (mut x, mut y) = (1u8, 2u8);
    swap_pair(&mut x, &mut y);
    assert_eq!((x, y), (2, 1));
}

#[test]
fn stable_pass_keeps_the_order_within_a_bucket() {
    let source: Vec<u16> = vec![0x21, 0x10, 0x22, 0x11, 0x00, 0x23];
    let mut destination: Vec<u16> = vec![0; 6];
    let p = Params::new(0, 4, 8, 2);
    let histogram = get_histogram(&source, &p, 15, 4);
    let (_, mut heads, _) = prefix_sums(&histogram);
    copy_by_histogram(6, &source, &mut destination, &mut heads, 15, 4, 4);
    assert_eq!(destination, vec![0x00, 0x10, 0x11, 0x21, 0x22, 0x23]);
    let (_, _, tails) = prefix_sums(&histogram);
    assert_eq!(heads, tails);
}

// The threads.

#[test]
fn histogram_on_a_pool_is_the_histogram() {
    let pool = rayon::ThreadPoolBuilder::new().num_threads(4).build().unwrap();
    let arr = random_u32(100_003, 99);
    let p = Params::new(0, 8, 0, 4);
    for shift in [0usize, 8, 16, 24] {
        let want = get_histogram(&arr, &p, 255, shift);
        assert_eq!(want.iter().sum::<usize>(), arr.len());
        for chunk_n in [1usize, 2, 3, 7, 64, 100_003, 200_000] {
            assert_eq!(get_histogram_mt(&arr, &p, 255, shift, &pool, chunk_n), want);
        }
    }
    let none: Vec<u32> = vec![];
    assert_eq!(get_histogram_mt(&none, &p, 255, 0, &pool, 1), vec![0usize; 256]);
    assert_eq!(get_histogram_mt(&none, &p, 255, 0, &pool, 4), vec![0usize; 256]);
}

#[test]
fn block_swaps_on_threads_are_the_block_swaps() {
    let input = random_u64(50_000, 17);
    let blocks = [(20_000usize, 0usize, 30_000usize), (1, 49_999, 0), (0, 5, 5), (25_000, 25_000, 0)];
    for (len, i, j) in blocks {
        let mut a = input.clone();
        let mut b = input.clone();
        swap_range(&mut a, len, i, j);
        swap_range_mt(&mut b, len, i, j);
        assert_eq!(a, b);
        if len > 0 {
            assert_ne!(b, input);
            assert_eq!(b[i], input[j]);
        }
    }
    let swaps = vec![(100usize, 1_000usize, 2_000usize), (5, 1_500, 1_000), (300, 40_000, 41_000)];
    let mut a = input.clone();
    let mut b = input.clone();
    perform_swaps(&mut a, swaps.clone(), 1_000);
    perform_swaps_mt(&mut b, swaps, 1_000);
    assert_eq!(a, b);
    assert_ne!(a, input);
}

// The runs and the merge.

#[test]
fn merge_joins_sorted_runs() {
    let mut a: Vec<u32> = vec![1, 4, 7, 2, 5, 8, 3, 6, 9];
    k_way_merge(&mut a, &vec![(0, 3), (3, 6), (6, 9)]);
    assert_eq!(a, vec![1, 2, 3, 4, 5, 6, 7, 8, 9]);
    let mut b: Vec<u32> = vec![5, 5, 1, 5, 9];
    k_way_merge(&mut b, &vec![(0, 2), (2, 2), (2, 5)]);
    assert_eq!(b, vec![1, 5, 5, 5, 9]);
    let mut c: Vec<u32> = vec![3, 4];
    k_way_merge(&mut c, &vec![(0, 2)]);
    assert_eq!(c, vec![3, 4]);
    let mut d: Vec<u32> = vec![];
    k_way_merge(&mut d, &vec![]);
    assert!(d.is_empty());
    let mut rng = Rng::new(71);
    let mut big: Vec<u64> = Vec::new();
    let mut runs: Vec<(usize, usize)> = Vec::new();
    for _ in 0..50 {
        let len = (rng.next() % 400) as usize;
        let mut run: Vec<u64> = (0..len).map(|_| rng.next() % 1000).collect();
        run.sort();
        runs.push((big.len(), big.len() + len));
        big.extend(run);
    }
    let want = reference(&big);
    k_way_merge(&mut big, &runs);
    assert_eq!(big, want);
}

fn check_runs<T: Copy + Ord>(arr: &[T], runs: &[(usize, usize)]) {
    let mut end = 0;
    for (start, stop) in runs {
        assert_eq!(*start, end);
        assert!(start <= stop);
        assert!(arr[*start..*stop].windows(2).all(|w| w[0] <= w[1]));
        end = *stop;
    }
    assert_eq!(end, arr.len());
}

#[test]
fn preprocessing_finds_the_runs() {
    let mut arr: Vec<u32> = (0..3000).collect();
    arr.extend((0..2000).rev());
    arr.extend(random_u32(500, 4));
    arr.extend(5..5000);
    let want = reference(&arr);
    let mut found = arr.clone();
    let (runs, marks) = find_runs(&mut found);
    assert_eq!(runs, vec![(0, 3000), (3000, 5000), (5000, 5500), (5500, 10495)]);
    assert_eq!(marks, vec![true, true, false, true]);
    assert_eq!(found[3000..5000], (0..2000).collect::<Vec<u32>>()[..]);
    assert_eq!(reference(&found), want);
    let runs = verge_sort_preprocessing(&mut arr, 8, RunSort::Lsd);
    assert_eq!(runs, vec![(0, 3000), (3000, 5000), (5000, 5500), (5500, 10495)]);
    check_runs(&arr, &runs);
    assert_eq!(reference(&arr), want);
    k_way_merge(&mut arr, &runs);
    assert_eq!(arr, want);
}

#[test]
fn preprocessing_sorts_what_has_no_runs() {
    for alg in [RunSort::Lsd, RunSort::LsdHeuristic(0), RunSort::Ska, RunSort::Msd] {
        let mut arr = random_u32(20_000, 8);
        let want = reference(&arr);
        let runs = verge_sort_preprocessing(&mut arr, 8, alg);
        assert_eq!(runs, vec![(0, 20_000)]);
        assert_eq!(arr, want);
    }
    // too many pieces to merge: sorted as a whole
    let mut saw: Vec<u32> = Vec::new();
    for _ in 0..80 {
        saw.extend(0..1500);
        saw.extend(random_u32(10, 3));
    }
    let want = reference(&saw);
    let runs = verge_sort_preprocessing(&mut saw, 8, RunSort::Lsd);
    assert_eq!(runs, vec![(0, saw.len())]);
    assert_eq!(saw, want);
    let mut none: Vec<u32> = vec![];
    assert_eq!(verge_sort_preprocessing(&mut none, 8, RunSort::Lsd), vec![]);
    let (runs, marks) = find_runs(&mut none);
    assert!(runs.is_empty() && marks.is_empty());
}

#[test]
fn ranges_are_reversed_and_sorted_in_place() {
    let mut a: Vec<u32> = (0..10).collect();
    reverse_range(&mut a, 2, 7);
    assert_eq!(a, vec![0, 1, 6, 5, 4, 3, 2, 7, 8, 9]);
    reverse_range(&mut a, 3, 3);
    reverse_range(&mut a, 9, 10);
    assert_eq!(a, vec![0, 1, 6, 5, 4, 3, 2, 7, 8, 9]);
    reverse_range(&mut a, 0, 10);
    assert_eq!(a, vec![9, 8, 7, 2, 3, 4, 5, 6, 1, 0]);
    sort_range(RunSort::Lsd, &mut a, 1, 9, 8);
    assert_eq!(a, vec![9, 1, 2, 3, 4, 5, 6, 7, 8, 0]);
    let mut b = random_u32(1000, 2);
    let want = reference(&b);
    sort_run(RunSort::Ska, &mut b, 6);
    assert_eq!(b, want);
}

// The sorts: every digit width, the lengths at which they change their
// ways, and the laws.

fn all_sorts() -> Vec<(&'static str, fn(&mut [u64], usize) -> Result<(), SortError>)> {
    vec![
        ("american flag", american_flag_sort::<u64>),
        ("lsd", lsd_radixsort::<u64>),
        ("msd", msd_radixsort::<u64>),
        ("ska", ska_sort::<u64>),
        ("thiel", thiel_radixsort::<u64>),
        ("dlsd", dlsd_radixsort::<u64>),
        ("voracious", voracious_sort::<u64>),
    ]
}

#[test]
fn every_sort_with_every_digit_width() {
    for (name, sort) in all_sorts() {
        for radix in 4..=8 {
            for (seed, modulus) in [(1u64, u64::MAX), (2, 1 << 40), (3, 70_000), (4, 300), (5, 1)] {
                let mut a: Vec<u64> =
                    random_u64(30_000, seed).iter().map(|x| x % modulus).collect();
                let want = reference(&a);
                assert_eq!(sort(&mut a, radix), Ok(()));
                assert!(a == want, "{} with radix {} and keys below {}", name, radix, modulus);
            }
        }
    }
}

#[test]
fn every_sort_at_the_lengths_where_it_changes() {
    for (name, sort) in all_sorts() {
        for len in [0usize, 1, 2, 3, 31, 32, 33, 63, 64, 65, 127, 128, 129, 1023, 1024, 1025] {
            let mut a = random_u64(len, 42 + len as u64);
            let want = reference(&a);
            assert_eq!(sort(&mut a, 8), Ok(()));
            assert!(a == want, "{} at length {}", name, len);
        }
    }
}

#[test]
fn short_slices_come_back_as_they_are() {
    for (_, sort) in all_sorts() {
        let mut none: Vec<u64> = vec![];
        assert_eq!(sort(&mut none, 8), Ok(()));
        assert!(none.is_empty());
        let mut one: Vec<u64> = vec![77];
        assert_eq!(sort(&mut one, 8), Ok(()));
        assert_eq!(one, vec![77]);
    }
    let mut none: Vec<bool> = vec![];
    boolean_sort(&mut none);
    assert!(none.is_empty());
    let mut one = vec![true];
    boolean_sort(&mut one);
    assert_eq!(one, vec![true]);
    let mut words: Vec<&str> = vec!["only"];
    msd_string_radixsort(&mut words, 4);
    assert_eq!(words, vec!["only"]);
}

#[test]
fn sorting_twice_is_sorting_once() {
    for (name, sort) in all_sorts() {
        let mut a = random_u64(40_000, 6);
        assert_eq!(sort(&mut a, 8), Ok(()));
        let once = a.clone();
        assert_eq!(sort(&mut a, 8), Ok(()));
        assert!(a == once, "{}", name);
    }
}

#[test]
fn all_sorts_agree() {
    let input = random_u64(60_000, 12);
    let want = reference(&input);
    for (name, sort) in all_sorts() {
        let mut a = input.clone();
        assert_eq!(sort(&mut a, 7), Ok(()));
        assert_eq!(a.len(), input.len());
        assert!(a == want, "{}", name);
    }
}

#[test]
fn lsd_sort_with_and_without_counting() {
    let inputs = [(200u32, 5_000usize), (60_000, 5_000), (60_000, 129), (u32::MAX, 5_000)];
    for (modulus, len) in inputs {
        for (heuristic, min_cs2) in [(false, 0usize), (true, 0), (true, 1_000_000)] {
            let mut a: Vec<u32> = random_u32(len, 31).iter().map(|x| x % modulus).collect();
            let want = reference(&a);
            assert_eq!(lsd_radixsort_aux(&mut a, 8, heuristic, min_cs2), Ok(()));
            assert_eq!(a, want);
        }
        let mut a: Vec<u32> = random_u32(len, 32).iter().map(|x| x % modulus).collect();
        let want = reference(&a);
        assert_eq!(lsd_radixsort_heu(&mut a, 8, 2_000), Ok(()));
        assert_eq!(a, want);
    }
    // a last length at which the comparison sort of std does the work
    let mut short: Vec<u32> = (0..100).rev().collect();
    assert_eq!(lsd_radixsort(&mut short, 8), Ok(()));
    assert_eq!(short, (0..100).collect::<Vec<u32>>());
}

#[test]
fn the_bodies_of_the_sorts_sort_what_their_context_covers() {
    let mut a: Vec<u32> = random_u32(10_000, 14).iter().map(|x| x % (1 << 20)).collect();
    let want = reference(&a);
    let mut b = a.clone();
    let mut c = a.clone();
    // 20 bits in use: offset 12, three digits of 8 bits from the left
    serial_radixsort_rec(&mut a, Params::new(0, 8, 12, 3));
    assert_eq!(a, want);
    // three digits of 8 bits from the right
    lsd_radixsort_body(&mut b, Params::new(0, 8, 8, 3));
    assert_eq!(b, want);
    // the stretches that agree above bit 8, each sorted below it
    c.sort_by_key(|x| x >> 8);
    finish_stretches(&mut c, 8, 8);
    assert_eq!(c, want);
    let mut narrow: Vec<u16> = vec![300, 2, 299, 2, 0];
    counting_sort_body(&mut narrow, 9);
    assert_eq!(narrow, vec![0, 2, 2, 299, 300]);
}

#[test]
fn the_dispatcher_picks_by_width_and_length() {
    assert!(matches!(choose_run_sort(8), RunSort::Ska));
    assert!(matches!(choose_run_sort(16), RunSort::Ska));
    assert!(matches!(choose_run_sort(17), RunSort::Lsd));
    assert!(matches!(choose_run_sort(64), RunSort::Lsd));
    assert!(matches!(choose_run_sort(65), RunSort::Msd));
    assert!(matches!(choose_run_sort(128), RunSort::Msd));
    assert_eq!(choose_partial(100, 8, 8), 1);
    assert_eq!(choose_partial(256, 8, 8), 2);
    assert_eq!(choose_partial(500_000, 8, 8), 3);
    assert_eq!(choose_partial(500_000, 4, 16), 5);
    assert_eq!(choose_partial(500_000, 8, 2), 2);
    assert_eq!(choose_partial(usize::MAX, 8, 8), 5);
    // narrow keys in a long slice, wide keys, and keys of 128 bits
    let mut narrow: Vec<u32> = random_u32(40_000, 9).iter().map(|x| x % 50_000).collect();
    let want = reference(&narrow);
    assert_eq!(narrow.voracious_sort(), Ok(()));
    assert_eq!(narrow, want);
    let mut wide: Vec<u128> =
        random_u64(5_000, 10).iter().map(|x| (*x as u128) << 64 | (*x as u128 >> 3)).collect();
    let want = reference(&wide);
    assert_eq!(wide.voracious_sort(), Ok(()));
    assert_eq!(wide, want);
    let mut wide: Vec<u128> = random_u64(5_000, 11).iter().map(|x| (*x as u128) << 60).collect();
    let want = reference(&wide);
    assert_eq!(wide.dlsd_sort(), Ok(()));
    assert_eq!(wide, want);
}

#[test]
fn insertion_sort_sorts_by_key() {
    let mut a: Vec<i16> = vec![3, -1, 2, -32768, 32767, 0, 2];
    insertion_sort(&mut a);
    assert_eq!(a, vec![-32768, -1, 0, 2, 2, 3, 32767]);
    let mut b: Vec<bool> = vec![true, false, true, false, false];
    boolean_sort(&mut b);
    assert_eq!(b, vec![false, false, false, true, true]);
}

// The strings.

#[test]
fn strings_are_ordered_by_their_bytes() {
    assert!(bytes_le_upto("apple", "banana", 10));
    assert!(!bytes_le_upto("banana", "apple", 10));
    assert!(bytes_le_upto("app", "apple", 10));
    assert!(!bytes_le_upto("apple", "app", 10));
    assert!(bytes_le_upto("apple", "app", 3));
    assert!(bytes_le_upto("same", "same", 10));
    assert!(bytes_le_upto("", "", 0));
    assert!(bytes_le_upto("", "a", 5));
    assert!(!bytes_le_upto("a", "", 5));
    assert!(bytes_le_upto("b", "a", 0));
    assert!(bytes_le_upto("z", "é", 5));
    assert_eq!(longest(&["a", "abc", "é"]), 3);
    assert_eq!(longest(&[]), 0);
    assert_eq!(longest(&["", ""]), 0);
}

#[test]
fn strings_are_sorted_as_far_as_the_limit_says() {
    let mut words: Vec<&str> = vec!["bb", "ab", "c", "aa", "", "b", "ba", "a"];
    let mut by_insertion = words.clone();
    msd_string_radixsort(&mut words, 2);
    assert_eq!(words, vec!["", "a", "aa", "ab", "b", "ba", "bb", "c"]);
    string_insertion_sort(&mut by_insertion, 2);
    assert_eq!(by_insertion, words);
    let mut rng = Rng::new(3);
    let texts: Vec<String> = (0..2000)
        .map(|_| (0..6).map(|_| (b'a' + (rng.next() % 3) as u8) as char).collect())
        .collect();
    let mut first_two: Vec<&str> = texts.iter().map(|t| t.as_str()).collect();
    let mut want: Vec<&str> = first_two.clone();
    msd_string_radixsort(&mut first_two, 2);
    assert!(first_two.windows(2).all(|w| w[0][..2] <= w[1][..2]));
    let mut got = first_two.clone();
    got.sort();
    want.sort();
    assert_eq!(got, want);
    msd_string_radixsort(&mut first_two, 6);
    assert_eq!(first_two, want);
    let mut same: Vec<&str> = vec!["same"; 100];
    assert_eq!(same.dlsd_sort(), Ok(()));
    assert_eq!(same, vec!["same"; 100]);
}

#[test]
fn distribution_passes_in_place_and_through_a_buffer() {
    let input: Vec<u8> = vec![0x31, 0x10, 0x22, 0x11, 0x00, 0x23, 0x30, 0x12];
    let p = Params::new(0, 4, 0, 2);
    let histogram = get_histogram(&input, &p, 15, 4);
    let (_, heads, tails) = prefix_sums(&histogram);
    let mut in_place = input.clone();
    let mut cursors = heads.clone();
    let by_digit = DigitOf { mask: 15, shift: 4, radix: 4 };
    partition_in_place(&mut in_place, &mut cursors, &tails, &by_digit);
    assert_eq!(
        in_place.iter().map(|x| x >> 4).collect::<Vec<u8>>(),
        vec![0, 1, 1, 1, 2, 2, 3, 3]
    );
    assert_eq!(reference(&in_place), reference(&input));
    assert_eq!(cursors[..15], tails[..15]);
    let mut stable = input.clone();
    let mut buffer: Vec<u8> = vec![0; 10];
    let mut cursors = heads.clone();
    scratch_partition(&mut stable, &mut buffer, &mut cursors, 15, 4, 4);
    assert_eq!(stable, vec![0x00, 0x10, 0x11, 0x12, 0x22, 0x23, 0x31, 0x30]);
    assert_eq!(buffer.len(), 10);
    let by_byte = ByteAt { level: 1 };
    let words: Vec<&str> = vec!["ab", "a", "aa", "", "ac", "aa"];
    let counts = histogram_by(&words, &by_byte);
    assert_eq!(counts.len(), 257);
    assert_eq!((counts[0], counts[98], counts[99], counts[100]), (2, 2, 1, 1));
    assert_eq!(by_byte.bucket(&"ab"), 99);
    assert_eq!(by_byte.bucket(&"a"), 0);
    assert_eq!(by_byte.size(), 257);
}
