use voracious_sort::radixable::{Float32, Float64};
use voracious_sort::sorts::american_flag_sort::american_flag_sort;
use voracious_sort::sorts::boolean_sort::boolean_sort;
use voracious_sort::sorts::comparative_sort::insertion_sort;
use voracious_sort::sorts::counting_sort::counting_sort;
use voracious_sort::sorts::dlsd_sort::dlsd_radixsort;
use voracious_sort::sorts::lsd_sort::lsd_radixsort;
use voracious_sort::sorts::msd_sort::msd_radixsort;
use voracious_sort::sorts::msd_string_sort::msd_string_radixsort;
use voracious_sort::sorts::ska_sort::ska_sort;
use voracious_sort::sorts::thiel_sort::thiel_radixsort;
use voracious_sort::sorts::voracious_sort::{voracious_sort, RadixSort};

struct Rng(u64);

impl Rng {
    fn new(seed: u64) -> Rng {
        Rng(seed | 1)
    }

    fn next(&mut self) -> u64 {
        let mut x = self.0;
        x ^= x >> 12;
        x ^= x << 25;
        x ^= x >> 27;
        self.0 = x;
        x.wrapping_mul(0x2545_F491_4F6C_DD1D)
    }
}

fn uniform<T>(size: usize, seed: u64, map: &dyn Fn(u64) -> T) -> Vec<T> {
    let mut rng = Rng::new(seed);
    (0..size).map(|_| map(rng.next())).collect()
}

/// The inputs of every test: uniform values, values in order and in
/// reverse order, values of a small range, equal values, a sawtooth, and
/// values in order but for a few.
fn generators<T: Copy + PartialOrd>(
    size: usize,
    run: u64,
    map: &dyn Fn(u64) -> T,
) -> Vec<(&'static str, Vec<T>)> {
    let base = uniform(size, 0x9E37_79B9_7F4A_7C15 ^ run, map);
    let mut asc = base.clone();
    asc.sort_unstable_by(|a, b| a.partial_cmp(b).unwrap());
    let mut desc = asc.clone();
    desc.reverse();
    let small = uniform(size, 0xD1B5_4A32_D192_ED03 ^ run, &|x| map(x % 1000));
    let equal: Vec<T> = (0..size).map(|_| map(42)).collect();
    let mut sawtooth = uniform(size, 0x94D0_49BB_1331_11EB ^ run, map);
    for chunk in sawtooth.chunks_mut(5000) {
        chunk.sort_unstable_by(|a, b| a.partial_cmp(b).unwrap());
    }
    let mut almost = asc.clone();
    let mut rng = Rng::new(7 + run);
    if size > 1 {
        for _ in 0..(size / 100) {
            let i = (rng.next() % size as u64) as usize;
            let j = (rng.next() % size as u64) as usize;
            almost.swap(i, j);
        }
    }
    vec![
        ("uniform", base),
        ("ascending", asc),
        ("descending", desc),
        ("small range", small),
        ("all equal", equal),
        ("sawtooth", sawtooth),
        ("almost sorted", almost),
    ]
}

fn helper_sort<T>(
    sort: &dyn Fn(&mut Vec<T>),
    map: &dyn Fn(u64) -> T,
    runs: usize,
    array_size: usize,
) where
    T: Copy + PartialOrd + std::fmt::Debug,
{
    for run in 0..runs {
        for (name, mut array) in generators(array_size, run as u64, map) {
            let mut check = array.to_vec();
            sort(&mut array);
            check.sort_unstable_by(|a, b| a.partial_cmp(b).unwrap());
            assert!(check == array, "generator: {}", name);
        }
    }
}

/// Sorts values of `E` by a sort of the values of `K` that stand for them.
fn sort_as<E, K>(
    array: &mut Vec<E>,
    to: &dyn Fn(&E) -> K,
    from: &dyn Fn(&K) -> E,
    sort: &dyn Fn(&mut Vec<K>),
) {
    let mut keyed: Vec<K> = array.iter().map(|x| to(x)).collect();
    sort(&mut keyed);
    for (slot, k) in array.iter_mut().zip(keyed.iter()) {
        *slot = from(k);
    }
}

fn as_u8(x: u64) -> u8 {
    x as u8
}

fn as_u16(x: u64) -> u16 {
    x as u16
}

fn as_u32(x: u64) -> u32 {
    x as u32
}

fn as_u64(x: u64) -> u64 {
    x
}

fn as_i8(x: u64) -> i8 {
    x as i8
}

fn as_i16(x: u64) -> i16 {
    x as i16
}

fn as_i32(x: u64) -> i32 {
    x as i32
}

fn as_i64(x: u64) -> i64 {
    x as i64
}

fn as_bool(x: u64) -> bool {
    (x >> 17) & 1 == 1
}

fn as_char(x: u64) -> char {
    let v = (x % (0x11_0000 - 0x800)) as u32;
    let code = if v >= 0xD800 { v + 0x800 } else { v };
    char::from_u32(code).unwrap()
}

fn as_f32(x: u64) -> f32 {
    let v = f32::from_bits(x as u32);
    if v.is_nan() {
        0.0
    } else {
        v
    }
}

fn as_f64(x: u64) -> f64 {
    let v = f64::from_bits(x);
    if v.is_nan() {
        0.0
    } else {
        v
    }
}

fn as_boolbool(x: u64) -> (bool, bool) {
    (x & 1 == 1, x & 2 == 2)
}

fn as_boolu8(x: u64) -> (bool, u8) {
    (x & 256 == 256, x as u8)
}

fn as_u8bool(x: u64) -> (u8, bool) {
    (x as u8, x & 256 == 256)
}

fn as_boolu16(x: u64) -> (bool, u16) {
    (x & 0x1_0000 == 0x1_0000, x as u16)
}

fn as_u8u8(x: u64) -> (u8, u8) {
    (x as u8, (x >> 8) as u8)
}

fn as_u32u32(x: u64) -> (u32, u32) {
    ((x >> 32) as u32 % 50, x as u32)
}

fn as_u64u64(x: u64) -> (u64, u64) {
    (x % 1000, x.rotate_left(29))
}

fn as_i64i64(x: u64) -> (i64, i64) {
    ((x % 1000) as i64 - 500, x.rotate_left(29) as i64)
}

#[derive(Copy, Clone, Debug, PartialEq, PartialOrd)]
struct Custom {
    a: u32,
    b: u16,
}

fn as_custom(x: u64) -> Custom {
    Custom { a: (x >> 16) as u32 % 10_000, b: x as u16 }
}

fn custom_key(c: &Custom) -> (u32, u16) {
    (c.a, c.b)
}

fn custom_back(k: &(u32, u16)) -> Custom {
    Custom { a: k.0, b: k.1 }
}

#[derive(Copy, Clone, Debug, PartialEq, PartialOrd)]
struct MyStruct {
    value: i32,
    rank: u8,
}

fn as_mystruct(x: u64) -> MyStruct {
    MyStruct { value: (x >> 8) as i32, rank: x as u8 }
}

fn mystruct_key(s: &MyStruct) -> (i32, u8) {
    (s.value, s.rank)
}

fn mystruct_back(k: &(i32, u8)) -> MyStruct {
    MyStruct { value: k.0, rank: k.1 }
}

#[derive(Copy, Clone, Debug, PartialEq, PartialOrd)]
struct StructWithF64 {
    score: f64,
    id: u32,
}

fn as_structwithf64(x: u64) -> StructWithF64 {
    StructWithF64 { score: ((x >> 40) as f64) / 7.0 - 1000.0, id: x as u32 }
}

fn structwithf64_key(s: &StructWithF64) -> (Float64, u32) {
    (Float64::from_bits(s.score.to_bits()), s.id)
}

fn structwithf64_back(k: &(Float64, u32)) -> StructWithF64 {
    StructWithF64 { score: f64::from_bits(k.0.to_bits()), id: k.1 }
}

fn f32_key(x: &f32) -> Float32 {
    Float32::from_bits(x.to_bits())
}

fn f32_back(k: &Float32) -> f32 {
    f32::from_bits(k.to_bits())
}

fn f64_key(x: &f64) -> Float64 {
    Float64::from_bits(x.to_bits())
}

fn f64_back(k: &Float64) -> f64 {
    f64::from_bits(k.to_bits())
}

fn f32_by(a: &mut Vec<f32>, sort: &dyn Fn(&mut Vec<Float32>)) {
    sort_as(a, &f32_key, &f32_back, sort)
}

fn f64_by(a: &mut Vec<f64>, sort: &dyn Fn(&mut Vec<Float64>)) {
    sort_as(a, &f64_key, &f64_back, sort)
}

fn custom_by(a: &mut Vec<Custom>, sort: &dyn Fn(&mut Vec<(u32, u16)>)) {
    sort_as(a, &custom_key, &custom_back, sort)
}

fn mystruct_by(a: &mut Vec<MyStruct>, sort: &dyn Fn(&mut Vec<(i32, u8)>)) {
    sort_as(a, &mystruct_key, &mystruct_back, sort)
}

fn structwithf64_by(a: &mut Vec<StructWithF64>, sort: &dyn Fn(&mut Vec<(Float64, u32)>)) {
    sort_as(a, &structwithf64_key, &structwithf64_back, sort)
}

#[test]
fn test_sort_insertion_sort_u32() {
    helper_sort(&|a| insertion_sort(a), &as_u32, 1, 0);
    helper_sort(&|a| insertion_sort(a), &as_u32, 1, 1);
    helper_sort(&|a| insertion_sort(a), &as_u32, 2, 5_000);
}

#[test]
fn test_sort_insertion_sort_u64() {
    helper_sort(&|a| insertion_sort(a), &as_u64, 1, 0);
    helper_sort(&|a| insertion_sort(a), &as_u64, 1, 1);
    helper_sort(&|a| insertion_sort(a), &as_u64, 2, 5_000);
}

#[test]
fn test_sort_american_flag_sort_u8() {
    helper_sort(&|a| american_flag_sort(a, 8).unwrap(), &as_u8, 1, 0);
    helper_sort(&|a| american_flag_sort(a, 8).unwrap(), &as_u8, 1, 1);
    helper_sort(&|a| american_flag_sort(a, 8).unwrap(), &as_u8, 2, 500_000);
}

#[test]
fn test_sort_american_flag_sort_u16() {
    helper_sort(&|a| american_flag_sort(a, 8).unwrap(), &as_u16, 1, 0);
    helper_sort(&|a| american_flag_sort(a, 8).unwrap(), &as_u16, 1, 1);
    helper_sort(&|a| american_flag_sort(a, 8).unwrap(), &as_u16, 2, 500_000);
}

#[test]
fn test_sort_american_flag_sort_u32() {
    helper_sort(&|a| american_flag_sort(a, 8).unwrap(), &as_u32, 1, 0);
    helper_sort(&|a| american_flag_sort(a, 8).unwrap(), &as_u32, 1, 1);
    helper_sort(&|a| american_flag_sort(a, 8).unwrap(), &as_u32, 2, 500_000);
}

#[test]
fn test_sort_american_flag_sort_u64() {
    helper_sort(&|a| american_flag_sort(a, 8).unwrap(), &as_u64, 1, 0);
    helper_sort(&|a| american_flag_sort(a, 8).unwrap(), &as_u64, 1, 1);
    helper_sort(&|a| american_flag_sort(a, 8).unwrap(), &as_u64, 2, 500_000);
}

#[test]
fn test_sort_boolean_sort() {
    helper_sort(&|a| boolean_sort(a), &as_bool, 1, 0);
    helper_sort(&|a| boolean_sort(a), &as_bool, 1, 1);
    helper_sort(&|a| boolean_sort(a), &as_bool, 2, 10_000);
}

#[test]
fn test_sort_counting_sort_u8() {
    helper_sort(&|a| counting_sort(a, 8).unwrap(), &as_u8, 1, 0);
    helper_sort(&|a| counting_sort(a, 8).unwrap(), &as_u8, 1, 1);
    helper_sort(&|a| counting_sort(a, 8).unwrap(), &as_u8, 2, 10_000);
}

#[test]
fn test_sort_lsd_sort_u8() {
    helper_sort(&|a| lsd_radixsort(a, 8).unwrap(), &as_u8, 1, 0);
    helper_sort(&|a| lsd_radixsort(a, 8).unwrap(), &as_u8, 1, 1);
    helper_sort(&|a| lsd_radixsort(a, 8).unwrap(), &as_u8, 2, 500_000);
}

#[test]
fn test_sort_lsd_sort_u16() {
    helper_sort(&|a| lsd_radixsort(a, 8).unwrap(), &as_u16, 1, 0);
    helper_sort(&|a| lsd_radixsort(a, 8).unwrap(), &as_u16, 1, 1);
    helper_sort(&|a| lsd_radixsort(a, 8).unwrap(), &as_u16, 2, 500_000);
}

#[test]
fn test_sort_lsd_sort_u32() {
    helper_sort(&|a| lsd_radixsort(a, 8).unwrap(), &as_u32, 1, 0);
    helper_sort(&|a| lsd_radixsort(a, 8).unwrap(), &as_u32, 1, 1);
    helper_sort(&|a| lsd_radixsort(a, 8).unwrap(), &as_u32, 2, 500_000);
}

#[test]
fn test_sort_lsd_sort_u64() {
    helper_sort(&|a| lsd_radixsort(a, 8).unwrap(), &as_u64, 1, 0);
    helper_sort(&|a| lsd_radixsort(a, 8).unwrap(), &as_u64, 1, 1);
    helper_sort(&|a| lsd_radixsort(a, 8).unwrap(), &as_u64, 2, 500_000);
}

#[test]
fn test_sort_msd_sort_u8() {
    helper_sort(&|a| msd_radixsort(a, 8).unwrap(), &as_u8, 1, 0);
    helper_sort(&|a| msd_radixsort(a, 8).unwrap(), &as_u8, 1, 1);
    helper_sort(&|a| msd_radixsort(a, 8).unwrap(), &as_u8, 2, 500_000);
}

#[test]
fn test_sort_msd_sort_u16() {
    helper_sort(&|a| msd_radixsort(a, 8).unwrap(), &as_u16, 1, 0);
    helper_sort(&|a| msd_radixsort(a, 8).unwrap(), &as_u16, 1, 1);
    helper_sort(&|a| msd_radixsort(a, 8).unwrap(), &as_u16, 2, 500_000);
}

#[test]
fn test_sort_msd_sort_u32() {
    helper_sort(&|a| msd_radixsort(a, 8).unwrap(), &as_u32, 1, 0);
    helper_sort(&|a| msd_radixsort(a, 8).unwrap(), &as_u32, 1, 1);
    helper_sort(&|a| msd_radixsort(a, 8).unwrap(), &as_u32, 2, 500_000);
}

#[test]
fn test_sort_msd_sort_u64() {
    helper_sort(&|a| msd_radixsort(a, 8).unwrap(), &as_u64, 1, 0);
    helper_sort(&|a| msd_radixsort(a, 8).unwrap(), &as_u64, 1, 1);
    helper_sort(&|a| msd_radixsort(a, 8).unwrap(), &as_u64, 2, 500_000);
}

#[test]
fn test_sort_ska_sort_u8() {
    helper_sort(&|a| ska_sort(a, 8).unwrap(), &as_u8, 1, 0);
    helper_sort(&|a| ska_sort(a, 8).unwrap(), &as_u8, 1, 1);
    helper_sort(&|a| ska_sort(a, 8).unwrap(), &as_u8, 2, 500_000);
}

#[test]
fn test_sort_ska_sort_u16() {
    helper_sort(&|a| ska_sort(a, 8).unwrap(), &as_u16, 1, 0);
    helper_sort(&|a| ska_sort(a, 8).unwrap(), &as_u16, 1, 1);
    helper_sort(&|a| ska_sort(a, 8).unwrap(), &as_u16, 2, 500_000);
}

#[test]
fn test_sort_ska_sort_u32() {
    helper_sort(&|a| ska_sort(a, 8).unwrap(), &as_u32, 1, 0);
    helper_sort(&|a| ska_sort(a, 8).unwrap(), &as_u32, 1, 1);
    helper_sort(&|a| ska_sort(a, 8).unwrap(), &as_u32, 2, 500_000);
}

#[test]
fn test_sort_ska_sort_u64() {
    helper_sort(&|a| ska_sort(a, 8).unwrap(), &as_u64, 1, 0);
    helper_sort(&|a| ska_sort(a, 8).unwrap(), &as_u64, 1, 1);
    helper_sort(&|a| ska_sort(a, 8).unwrap(), &as_u64, 2, 500_000);
}

#[test]
fn test_sort_thiel_sort_u8() {
    helper_sort(&|a| thiel_radixsort(a, 8).unwrap(), &as_u8, 1, 0);
    helper_sort(&|a| thiel_radixsort(a, 8).unwrap(), &as_u8, 1, 1);
    helper_sort(&|a| thiel_radixsort(a, 8).unwrap(), &as_u8, 2, 500_000);
}

#[test]
fn test_sort_thiel_sort_u16() {
    helper_sort(&|a| thiel_radixsort(a, 8).unwrap(), &as_u16, 1, 0);
    helper_sort(&|a| thiel_radixsort(a, 8).unwrap(), &as_u16, 1, 0);
    helper_sort(&|a| thiel_radixsort(a, 8).unwrap(), &as_u16, 2, 500_000);
}

#[test]
fn test_sort_thiel_sort_u32() {
    helper_sort(&|a| thiel_radixsort(a, 8).unwrap(), &as_u32, 1, 0);
    helper_sort(&|a| thiel_radixsort(a, 8).unwrap(), &as_u32, 1, 1);
    helper_sort(&|a| thiel_radixsort(a, 8).unwrap(), &as_u32, 2, 500_000);
}

#[test]
fn test_sort_thiel_sort_u64() {
    helper_sort(&|a| thiel_radixsort(a, 8).unwrap(), &as_u64, 1, 0);
    helper_sort(&|a| thiel_radixsort(a, 8).unwrap(), &as_u64, 1, 1);
    helper_sort(&|a| thiel_radixsort(a, 8).unwrap(), &as_u64, 2, 500_000);
}

#[test]
fn test_sort_raw_voracious_sort_u8() {
    helper_sort(&|a| voracious_sort(a, 8).unwrap(), &as_u8, 1, 0);
    helper_sort(&|a| voracious_sort(a, 8).unwrap(), &as_u8, 1, 1);
    helper_sort(&|a| voracious_sort(a, 8).unwrap(), &as_u8, 2, 500_000);
}

#[test]
fn test_sort_raw_voracious_sort_u16() {
    helper_sort(&|a| voracious_sort(a, 8).unwrap(), &as_u16, 1, 0);
    helper_sort(&|a| voracious_sort(a, 8).unwrap(), &as_u16, 1, 1);
    helper_sort(&|a| voracious_sort(a, 8).unwrap(), &as_u16, 2, 500_000);
}

#[test]
fn test_sort_raw_voracious_sort_u32() {
    helper_sort(&|a| voracious_sort(a, 8).unwrap(), &as_u32, 1, 0);
    helper_sort(&|a| voracious_sort(a, 8).unwrap(), &as_u32, 1, 1);
    helper_sort(&|a| voracious_sort(a, 8).unwrap(), &as_u32, 2, 500_000);
}

#[test]
fn test_sort_raw_voracious_sort_u64() {
    helper_sort(&|a| voracious_sort(a, 8).unwrap(), &as_u64, 1, 0);
    helper_sort(&|a| voracious_sort(a, 8).unwrap(), &as_u64, 1, 1);
    helper_sort(&|a| voracious_sort(a, 8).unwrap(), &as_u64, 2, 500_000);
}

#[test]
fn test_sort_raw_dlsd_sort_u64() {
    helper_sort(&|a| dlsd_radixsort(a, 8).unwrap(), &as_u64, 1, 0);
    helper_sort(&|a| dlsd_radixsort(a, 8).unwrap(), &as_u64, 1, 1);
    helper_sort(&|a| dlsd_radixsort(a, 8).unwrap(), &as_u64, 2, 500_000);
}

#[test]
fn test_sort_raw_voracious_sort_f32() {
    helper_sort(&|a| f32_by(a, &|v| voracious_sort(v, 8).unwrap()), &as_f32, 1, 0);
    helper_sort(&|a| f32_by(a, &|v| voracious_sort(v, 8).unwrap()), &as_f32, 1, 1);
    helper_sort(&|a| f32_by(a, &|v| voracious_sort(v, 8).unwrap()), &as_f32, 2, 500_000);
}

#[test]
fn test_sort_raw_voracious_sort_f64() {
    helper_sort(&|a| f64_by(a, &|v| voracious_sort(v, 8).unwrap()), &as_f64, 1, 0);
    helper_sort(&|a| f64_by(a, &|v| voracious_sort(v, 8).unwrap()), &as_f64, 1, 1);
    helper_sort(&|a| f64_by(a, &|v| voracious_sort(v, 8).unwrap()), &as_f64, 2, 500_000);
}

#[test]
fn test_sort_msd_sort_f32() {
    helper_sort(&|a| f32_by(a, &|v| msd_radixsort(v, 8).unwrap()), &as_f32, 1, 0);
    helper_sort(&|a| f32_by(a, &|v| msd_radixsort(v, 8).unwrap()), &as_f32, 1, 1);
    helper_sort(&|a| f32_by(a, &|v| msd_radixsort(v, 8).unwrap()), &as_f32, 2, 500_000);
}

#[test]
fn test_sort_msd_sort_f64() {
    helper_sort(&|a| f64_by(a, &|v| msd_radixsort(v, 8).unwrap()), &as_f64, 1, 0);
    helper_sort(&|a| f64_by(a, &|v| msd_radixsort(v, 8).unwrap()), &as_f64, 1, 1);
    helper_sort(&|a| f64_by(a, &|v| msd_radixsort(v, 8).unwrap()), &as_f64, 2, 500_000);
}

#[test]
fn test_sort_lsd_sort_f32() {
    helper_sort(&|a| f32_by(a, &|v| lsd_radixsort(v, 8).unwrap()), &as_f32, 1, 0);
    helper_sort(&|a| f32_by(a, &|v| lsd_radixsort(v, 8).unwrap()), &as_f32, 1, 1);
    helper_sort(&|a| f32_by(a, &|v| lsd_radixsort(v, 8).unwrap()), &as_f32, 2, 500_000);
}

#[test]
fn test_sort_lsd_sort_f64() {
    helper_sort(&|a| f64_by(a, &|v| lsd_radixsort(v, 8).unwrap()), &as_f64, 1, 0);
    helper_sort(&|a| f64_by(a, &|v| lsd_radixsort(v, 8).unwrap()), &as_f64, 1, 1);
    helper_sort(&|a| f64_by(a, &|v| lsd_radixsort(v, 8).unwrap()), &as_f64, 2, 500_000);
}

#[test]
fn test_sort_voracious_sort_bool() {
    helper_sort(&|a| a.voracious_sort().unwrap(), &as_bool, 1, 0);
    helper_sort(&|a| a.voracious_sort().unwrap(), &as_bool, 1, 1);
    helper_sort(&|a| a.voracious_sort().unwrap(), &as_bool, 2, 10_000);
}

#[test]
fn test_sort_voracious_sort_char() {
    helper_sort(&|a| a.voracious_sort().unwrap(), &as_char, 1, 0);
    helper_sort(&|a| a.voracious_sort().unwrap(), &as_char, 1, 1);
    helper_sort(&|a| a.voracious_sort().unwrap(), &as_char, 2, 500_000);
}

#[test]
fn test_sort_voracious_sort_u8() {
    helper_sort(&|a| a.voracious_sort().unwrap(), &as_u8, 1, 0);
    helper_sort(&|a| a.voracious_sort().unwrap(), &as_u8, 1, 1);
    helper_sort(&|a| a.voracious_sort().unwrap(), &as_u8, 2, 500_000);
}

#[test]
fn test_sort_voracious_sort_u16() {
    helper_sort(&|a| a.voracious_sort().unwrap(), &as_u16, 1, 0);
    helper_sort(&|a| a.voracious_sort().unwrap(), &as_u16, 1, 1);
    helper_sort(&|a| a.voracious_sort().unwrap(), &as_u16, 2, 500_000);
}

#[test]
fn test_sort_voracious_sort_u32() {
    helper_sort(&|a| a.voracious_sort().unwrap(), &as_u32, 1, 0);
    helper_sort(&|a| a.voracious_sort().unwrap(), &as_u32, 1, 1);
    helper_sort(&|a| a.voracious_sort().unwrap(), &as_u32, 2, 500_000);
}

#[test]
fn test_sort_voracious_sort_u64() {
    helper_sort(&|a| a.voracious_sort().unwrap(), &as_u64, 1, 0);
    helper_sort(&|a| a.voracious_sort().unwrap(), &as_u64, 1, 1);
    helper_sort(&|a| a.voracious_sort().unwrap(), &as_u64, 2, 500_000);
}

#[test]
fn test_sort_voracious_sort_i8() {
    helper_sort(&|a| a.voracious_sort().unwrap(), &as_i8, 1, 0);
    helper_sort(&|a| a.voracious_sort().unwrap(), &as_i8, 1, 1);
    helper_sort(&|a| a.voracious_sort().unwrap(), &as_i8, 2, 500_000);
}

#[test]
fn test_sort_voracious_sort_i16() {
    helper_sort(&|a| a.voracious_sort().unwrap(), &as_i16, 1, 0);
    helper_sort(&|a| a.voracious_sort().unwrap(), &as_i16, 1, 1);
    helper_sort(&|a| a.voracious_sort().unwrap(), &as_i16, 2, 500_000);
}

#[test]
fn test_sort_voracious_sort_i32() {
    helper_sort(&|a| a.voracious_sort().unwrap(), &as_i32, 1, 0);
    helper_sort(&|a| a.voracious_sort().unwrap(), &as_i32, 1, 1);
    helper_sort(&|a| a.voracious_sort().unwrap(), &as_i32, 2, 500_000);
}

#[test]
fn test_sort_voracious_sort_i64() {
    helper_sort(&|a| a.voracious_sort().unwrap(), &as_i64, 1, 0);
    helper_sort(&|a| a.voracious_sort().unwrap(), &as_i64, 1, 1);
    helper_sort(&|a| a.voracious_sort().unwrap(), &as_i64, 2, 500_000);
}

#[test]
fn test_sort_voracious_sort_tuple_boolbool() {
    helper_sort(&|a| a.voracious_sort().unwrap(), &as_boolbool, 1, 0);
    helper_sort(&|a| a.voracious_sort().unwrap(), &as_boolbool, 1, 1);
    helper_sort(&|a| a.voracious_sort().unwrap(), &as_boolbool, 2, 500_000);
}

#[test]
fn test_sort_voracious_sort_tuple_boolu8() {
    helper_sort(&|a| a.voracious_sort().unwrap(), &as_boolu8, 1, 0);
    helper_sort(&|a| a.voracious_sort().unwrap(), &as_boolu8, 1, 1);
    helper_sort(&|a| a.voracious_sort().unwrap(), &as_boolu8, 2, 500_000);
}

#[test]
fn test_sort_voracious_sort_tuple_u8bool() {
    helper_sort(&|a| a.voracious_sort().unwrap(), &as_u8bool, 1, 0);
    helper_sort(&|a| a.voracious_sort().unwrap(), &as_u8bool, 1, 1);
    helper_sort(&|a| a.voracious_sort().unwrap(), &as_u8bool, 2, 500_000);
}

#[test]
fn test_sort_voracious_sort_tuple_boolu16() {
    helper_sort(&|a| a.voracious_sort().unwrap(), &as_boolu16, 1, 0);
    helper_sort(&|a| a.voracious_sort().unwrap(), &as_boolu16, 1, 1);
    helper_sort(&|a| a.voracious_sort().unwrap(), &as_boolu16, 2, 500_000);
}

#[test]
fn test_sort_voracious_sort_tuple_u8u8() {
    helper_sort(&|a| a.voracious_sort().unwrap(), &as_u8u8, 1, 0);
    helper_sort(&|a| a.voracious_sort().unwrap(), &as_u8u8, 1, 1);
    helper_sort(&|a| a.voracious_sort().unwrap(), &as_u8u8, 2, 500_000);
}

#[test]
fn test_sort_voracious_sort_tuple_u32u32() {
    helper_sort(&|a| a.voracious_sort().unwrap(), &as_u32u32, 1, 0);
    helper_sort(&|a| a.voracious_sort().unwrap(), &as_u32u32, 1, 1);
    helper_sort(&|a| a.voracious_sort().unwrap(), &as_u32u32, 2, 500_000);
}

#[test]
fn test_sort_voracious_sort_tuple_u64u64() {
    helper_sort(&|a| a.voracious_sort().unwrap(), &as_u64u64, 1, 0);
    helper_sort(&|a| a.voracious_sort().unwrap(), &as_u64u64, 1, 1);
    helper_sort(&|a| a.voracious_sort().unwrap(), &as_u64u64, 2, 500_000);
}

#[test]
fn test_sort_voracious_sort_tuple_i64i64() {
    helper_sort(&|a| a.voracious_sort().unwrap(), &as_i64i64, 1, 0);
    helper_sort(&|a| a.voracious_sort().unwrap(), &as_i64i64, 1, 1);
    helper_sort(&|a| a.voracious_sort().unwrap(), &as_i64i64, 2, 500_000);
}

#[test]
fn test_sort_voracious_sort_f32() {
    helper_sort(&|a| f32_by(a, &|v| v.voracious_sort().unwrap()), &as_f32, 1, 0);
    helper_sort(&|a| f32_by(a, &|v| v.voracious_sort().unwrap()), &as_f32, 1, 1);
    helper_sort(&|a| f32_by(a, &|v| v.voracious_sort().unwrap()), &as_f32, 2, 500_000);
}

#[test]
fn test_sort_voracious_sort_f64() {
    helper_sort(&|a| f64_by(a, &|v| v.voracious_sort().unwrap()), &as_f64, 1, 0);
    helper_sort(&|a| f64_by(a, &|v| v.voracious_sort().unwrap()), &as_f64, 1, 1);
    helper_sort(&|a| f64_by(a, &|v| v.voracious_sort().unwrap()), &as_f64, 2, 500_000);
}

#[test]
#[should_panic]
fn test_sort_voracious_sort_f32_panic() {
    let a: Vec<f32> = vec![0.0, 12.3, 37.122, -27.872, std::f32::NAN, -18.001];
    let mut v: Vec<Float32> = a.iter().map(|x| f32_key(x)).collect();
    v.voracious_sort().unwrap();
}

#[test]
#[should_panic]
fn test_sort_voracious_sort_f64_panic() {
    let a: Vec<f64> = vec![0.0, 12.3, 37.122, -27.872, std::f64::NAN, -18.001];
    let mut v: Vec<Float64> = a.iter().map(|x| f64_key(x)).collect();
    v.voracious_sort().unwrap();
}

#[test]
fn test_sort_voracious_sort_custom() {
    helper_sort(&|a| custom_by(a, &|v| v.voracious_sort().unwrap()), &as_custom, 1, 0);
    helper_sort(&|a| custom_by(a, &|v| v.voracious_sort().unwrap()), &as_custom, 1, 1);
    helper_sort(&|a| custom_by(a, &|v| v.voracious_sort().unwrap()), &as_custom, 2, 500_000);
}

#[test]
fn test_sort_voracious_sort_my_struct() {
    helper_sort(&|a| mystruct_by(a, &|v| v.voracious_sort().unwrap()), &as_mystruct, 1, 0);
    helper_sort(&|a| mystruct_by(a, &|v| v.voracious_sort().unwrap()), &as_mystruct, 1, 1);
    helper_sort(&|a| mystruct_by(a, &|v| v.voracious_sort().unwrap()), &as_mystruct, 2, 500_000);
}

#[test]
fn test_sort_voracious_sort_structwithf64() {
    helper_sort(
        &|a| structwithf64_by(a, &|v| v.voracious_sort().unwrap()),
        &as_structwithf64,
        1,
        0,
    );
    helper_sort(
        &|a| structwithf64_by(a, &|v| v.voracious_sort().unwrap()),
        &as_structwithf64,
        1,
        1,
    );
    helper_sort(
        &|a| structwithf64_by(a, &|v| v.voracious_sort().unwrap()),
        &as_structwithf64,
        2,
        90_000,
    );
}

#[test]
fn test_sort_dlsd_sort_bool() {
    helper_sort(&|a| a.dlsd_sort().unwrap(), &as_bool, 1, 0);
    helper_sort(&|a| a.dlsd_sort().unwrap(), &as_bool, 1, 1);
    helper_sort(&|a| a.dlsd_sort().unwrap(), &as_bool, 2, 500_000);
}

#[test]
fn test_sort_dlsd_sort_char() {
    helper_sort(&|a| a.dlsd_sort().unwrap(), &as_char, 1, 0);
    helper_sort(&|a| a.dlsd_sort().unwrap(), &as_char, 1, 1);
    helper_sort(&|a| a.dlsd_sort().unwrap(), &as_char, 2, 500_000);
}

#[test]
fn test_sort_dlsd_sort_u8() {
    helper_sort(&|a| a.dlsd_sort().unwrap(), &as_u8, 1, 0);
    helper_sort(&|a| a.dlsd_sort().unwrap(), &as_u8, 1, 1);
    helper_sort(&|a| a.dlsd_sort().unwrap(), &as_u8, 2, 500_000);
}

#[test]
fn test_sort_dlsd_sort_u16() {
    helper_sort(&|a| a.dlsd_sort().unwrap(), &as_u16, 1, 0);
    helper_sort(&|a| a.dlsd_sort().unwrap(), &as_u16, 1, 1);
    helper_sort(&|a| a.dlsd_sort().unwrap(), &as_u16, 2, 500_000);
}

#[test]
fn test_sort_dlsd_sort_u32() {
    helper_sort(&|a| a.dlsd_sort().unwrap(), &as_u32, 1, 0);
    helper_sort(&|a| a.dlsd_sort().unwrap(), &as_u32, 1, 1);
    helper_sort(&|a| a.dlsd_sort().unwrap(), &as_u32, 2, 500_000);
}

#[test]
fn test_sort_dlsd_sort_u64() {
    helper_sort(&|a| a.dlsd_sort().unwrap(), &as_u64, 1, 0);
    helper_sort(&|a| a.dlsd_sort().unwrap(), &as_u64, 1, 1);
    helper_sort(&|a| a.dlsd_sort().unwrap(), &as_u64, 2, 500_000);
}

#[test]
fn test_sort_dlsd_sort_i8() {
    helper_sort(&|a| a.dlsd_sort().unwrap(), &as_i8, 1, 0);
    helper_sort(&|a| a.dlsd_sort().unwrap(), &as_i8, 1, 1);
    helper_sort(&|a| a.dlsd_sort().unwrap(), &as_i8, 2, 500_000);
}

#[test]
fn test_sort_dlsd_sort_i16() {
    helper_sort(&|a| a.dlsd_sort().unwrap(), &as_i16, 1, 0);
    helper_sort(&|a| a.dlsd_sort().unwrap(), &as_i16, 1, 1);
    helper_sort(&|a| a.dlsd_sort().unwrap(), &as_i16, 2, 500_000);
}

#[test]
fn test_sort_dlsd_sort_i32() {
    helper_sort(&|a| a.dlsd_sort().unwrap(), &as_i32, 1, 0);
    helper_sort(&|a| a.dlsd_sort().unwrap(), &as_i32, 1, 1);
    helper_sort(&|a| a.dlsd_sort().unwrap(), &as_i32, 2, 500_000);
}

#[test]
fn test_sort_dlsd_sort_i64() {
    helper_sort(&|a| a.dlsd_sort().unwrap(), &as_i64, 1, 0);
    helper_sort(&|a| a.dlsd_sort().unwrap(), &as_i64, 1, 1);
    helper_sort(&|a| a.dlsd_sort().unwrap(), &as_i64, 2, 500_000);
}

#[test]
fn test_sort_dlsd_sort_tuple_boolbool() {
    helper_sort(&|a| a.dlsd_sort().unwrap(), &as_boolbool, 1, 0);
    helper_sort(&|a| a.dlsd_sort().unwrap(), &as_boolbool, 1, 1);
    helper_sort(&|a| a.dlsd_sort().unwrap(), &as_boolbool, 2, 500_000);
}

#[test]
fn test_sort_dlsd_sort_tuple_boolu16() {
    helper_sort(&|a| a.dlsd_sort().unwrap(), &as_boolu16, 1, 0);
    helper_sort(&|a| a.dlsd_sort().unwrap(), &as_boolu16, 1, 1);
    helper_sort(&|a| a.dlsd_sort().unwrap(), &as_boolu16, 2, 500_000);
}

#[test]
fn test_sort_dlsd_sort_tuple_u8u8() {
    helper_sort(&|a| a.dlsd_sort().unwrap(), &as_u8u8, 1, 0);
    helper_sort(&|a| a.dlsd_sort().unwrap(), &as_u8u8, 1, 1);
    helper_sort(&|a| a.dlsd_sort().unwrap(), &as_u8u8, 2, 500_000);
}

#[test]
fn test_sort_dlsd_sort_tuple_boolu8() {
    helper_sort(&|a| a.dlsd_sort().unwrap(), &as_boolu8, 1, 0);
    helper_sort(&|a| a.dlsd_sort().unwrap(), &as_boolu8, 1, 1);
    helper_sort(&|a| a.dlsd_sort().unwrap(), &as_boolu8, 2, 500_000);
}

#[test]
fn test_sort_dlsd_sort_tuple_u8bool() {
    helper_sort(&|a| a.dlsd_sort().unwrap(), &as_u8bool, 1, 0);
    helper_sort(&|a| a.dlsd_sort().unwrap(), &as_u8bool, 1, 1);
    helper_sort(&|a| a.dlsd_sort().unwrap(), &as_u8bool, 2, 500_000);
}

#[test]
fn test_sort_dlsd_sort_tuple_u32u32() {
    helper_sort(&|a| a.dlsd_sort().unwrap(), &as_u32u32, 1, 0);
    helper_sort(&|a| a.dlsd_sort().unwrap(), &as_u32u32, 1, 1);
    helper_sort(&|a| a.dlsd_sort().unwrap(), &as_u32u32, 2, 500_000);
}

#[test]
fn test_sort_dlsd_sort_tuple_u64u64() {
    helper_sort(&|a| a.dlsd_sort().unwrap(), &as_u64u64, 1, 0);
    helper_sort(&|a| a.dlsd_sort().unwrap(), &as_u64u64, 1, 1);
    helper_sort(&|a| a.dlsd_sort().unwrap(), &as_u64u64, 2, 500_000);
}

#[test]
fn test_sort_dlsd_sort_tuple_i64i64() {
    helper_sort(&|a| a.dlsd_sort().unwrap(), &as_i64i64, 1, 0);
    helper_sort(&|a| a.dlsd_sort().unwrap(), &as_i64i64, 1, 1);
    helper_sort(&|a| a.dlsd_sort().unwrap(), &as_i64i64, 2, 500_000);
}

#[test]
fn test_sort_dlsd_sort_f32() {
    helper_sort(&|a| f32_by(a, &|v| v.dlsd_sort().unwrap()), &as_f32, 1, 0);
    helper_sort(&|a| f32_by(a, &|v| v.dlsd_sort().unwrap()), &as_f32, 1, 1);
    helper_sort(&|a| f32_by(a, &|v| v.dlsd_sort().unwrap()), &as_f32, 2, 500_000);
}

#[test]
fn test_sort_dlsd_sort_f64() {
    helper_sort(&|a| f64_by(a, &|v| v.dlsd_sort().unwrap()), &as_f64, 1, 0);
    helper_sort(&|a| f64_by(a, &|v| v.dlsd_sort().unwrap()), &as_f64, 1, 1);
    helper_sort(&|a| f64_by(a, &|v| v.dlsd_sort().unwrap()), &as_f64, 2, 500_000);
}

#[test]
#[should_panic]
fn test_sort_dlsd_sort_f32_panic() {
    let a: Vec<f32> = vec![0.0, 12.3, 37.122, -27.872, std::f32::NAN, -18.001];
    let mut v: Vec<Float32> = a.iter().map(|x| f32_key(x)).collect();
    v.dlsd_sort().unwrap();
}

#[test]
#[should_panic]
fn test_sort_dlsd_sort_f64_panic() {
    let a: Vec<f64> = vec![0.0, 12.3, 37.122, -27.872, std::f64::NAN, -18.001];
    let mut v: Vec<Float64> = a.iter().map(|x| f64_key(x)).collect();
    v.dlsd_sort().unwrap();
}

#[test]
fn test_sort_dlsd_sort_custom() {
    helper_sort(&|a| custom_by(a, &|v| v.dlsd_sort().unwrap()), &as_custom, 1, 0);
    helper_sort(&|a| custom_by(a, &|v| v.dlsd_sort().unwrap()), &as_custom, 1, 1);
    helper_sort(&|a| custom_by(a, &|v| v.dlsd_sort().unwrap()), &as_custom, 2, 500_000);
}

#[test]
fn test_sort_dlsd_sort_mystruct() {
    helper_sort(&|a| mystruct_by(a, &|v| v.dlsd_sort().unwrap()), &as_mystruct, 1, 0);
    helper_sort(&|a| mystruct_by(a, &|v| v.dlsd_sort().unwrap()), &as_mystruct, 1, 1);
    helper_sort(&|a| mystruct_by(a, &|v| v.dlsd_sort().unwrap()), &as_mystruct, 2, 500_000);
}

#[test]
fn test_sort_dlsd_sort_structwithf64() {
    helper_sort(&|a| structwithf64_by(a, &|v| v.dlsd_sort().unwrap()), &as_structwithf64, 1, 0);
    helper_sort(&|a| structwithf64_by(a, &|v| v.dlsd_sort().unwrap()), &as_structwithf64, 1, 1);
    helper_sort(
        &|a| structwithf64_by(a, &|v| v.dlsd_sort().unwrap()),
        &as_structwithf64,
        2,
        500_000,
    );
}

fn helper_random_array_uniform_string(size: usize, max_len: usize, seed: u64) -> Vec<String> {
    let alphabet: Vec<char> = "abcdefghijklmnopqrstuvwxyzABCDEFGHIJKLMNOPQRSTUVWXYZ0123456789 éßλж"
        .chars()
        .collect();
    let mut rng = Rng::new(seed);
    (0..size)
        .map(|_| {
            let len = (rng.next() % (max_len as u64 + 1)) as usize;
            (0..len).map(|_| alphabet[(rng.next() % alphabet.len() as u64) as usize]).collect()
        })
        .collect()
}

#[test]
fn test_sort_msd_string_sort_string() {
    let runs = 2;
    let sizes = vec![0, 1, 10_000];

    for size in sizes.iter() {
        for run in 0..runs {
            let array = helper_random_array_uniform_string(*size, 40, 11 + run);
            let mut array = array.iter().map(|element| element.as_str()).collect::<Vec<&str>>();
            let mut check = array.to_vec();

            if let Some(max_level) = array.iter().map(|item| item.len()).max() {
                msd_string_radixsort(&mut array, max_level);
            }

            check.sort_unstable_by(|a, b| a.partial_cmp(b).unwrap());
            assert_eq!(check, array);
        }
    }
}

#[test]
fn test_sort_voracious_sort_string() {
    let runs = 2;
    let sizes = vec![0, 1, 10_000];

    for size in sizes.iter() {
        for run in 0..runs {
            let arr = helper_random_array_uniform_string(*size, 40, 23 + run);
            let mut arr = arr.iter().map(|element| element.as_str()).collect::<Vec<&str>>();
            let mut check = arr.to_vec();

            arr.voracious_sort().unwrap();

            check.sort_unstable_by(|a, b| a.partial_cmp(b).unwrap());
            assert_eq!(check, arr);
        }
    }
}

#[test]
fn test_sort_dlsd_sort_string() {
    let runs = 2;
    let sizes = vec![0, 1, 10_000];

    for size in sizes.iter() {
        for run in 0..runs {
            let arr = helper_random_array_uniform_string(*size, 40, 37 + run);
            let mut arr = arr.iter().map(|element| element.as_str()).collect::<Vec<&str>>();
            let mut check = arr.to_vec();

            arr.dlsd_sort().unwrap();

            check.sort_unstable_by(|a, b| a.partial_cmp(b).unwrap());
            assert_eq!(check, arr);
        }
    }
}
