use bcl::benchmark::bench_fft::rev;
use bcl::benchmark::bench_sample_sort_array::{gather_buckets, global_pivots, local_pivots, partition_by_pivots};
use bcl::benchmark::tools::{duration_to_nano, nanos_from_parts};
use std::time::Duration;

#[test]
fn rev_reverses_low_bits() {
    assert_eq!(rev(1, 3), 4);
    assert_eq!(rev(3, 3), 6);
    assert_eq!(rev(6, 3), 3);
    assert_eq!(rev(5, 4), 10);
    assert_eq!(rev(0, 0), 0);
    assert_eq!(rev(1, 64), 1usize << 63);
}

#[test]
fn rev_is_an_involution() {
    for x in 0..64usize {
        assert_eq!(rev(rev(x, 6), 6), x);
    }
}

#[test]
fn duration_in_nanos() {
    assert_eq!(duration_to_nano(&Duration::new(2, 5)), 2_000_000_005);
    assert_eq!(duration_to_nano(&Duration::from_millis(1500)), 1_500_000_000);
    assert_eq!(nanos_from_parts(u64::MAX, 999_999_999), u64::MAX as u128 * 1_000_000_000 + 999_999_999);
}

#[test]
fn pivots_are_picked_at_fixed_strides() {
    let data: Vec<u32> = vec![1, 3, 5, 7, 9, 11, 13, 15];
    assert_eq!(local_pivots(&data, 2, 8), vec![5]);
    assert_eq!(local_pivots(&data, 1, 8), Vec::<u32>::new());
    let all: Vec<u32> = vec![2, 4, 6, 8, 10, 12];
    assert_eq!(global_pivots(&all, 3), vec![6, 10]);
}

#[test]
fn partition_writes_buckets_and_lengths() {
    let data: Vec<u32> = vec![1, 2, 5, 6, 9];
    let pivots: Vec<u32> = vec![4, 8];
    let w = partition_by_pivots(&data, &pivots);
    assert_eq!(w, vec![(1, 1), (2, 2), (0, 2), (7, 5), (8, 6), (6, 2), (13, 9), (12, 1)]);
}

#[test]
fn partition_stops_where_data_runs_out() {
    let data: Vec<u32> = vec![1, 2];
    let pivots: Vec<u32> = vec![4, 8];
    let w = partition_by_pivots(&data, &pivots);
    // only the first bucket is written, length included
    assert_eq!(w, vec![(1, 1), (2, 2), (0, 2)]);
}

#[test]
fn gather_joins_buckets() {
    let buf: Vec<u32> = vec![2, 10, 11, 0, 1, 12, 99, 0, 0, 3, 13, 14, 15];
    assert_eq!(gather_buckets(&buf, 4, 3), vec![10, 11, 12]);
    assert_eq!(gather_buckets(&buf, 3, 1), vec![10, 11]);
    let w: Vec<u32> = vec![1, 1, 2, 0, 3, 5, 6, 7];
    assert_eq!(gather_buckets(&w, 4, 2), vec![1, 5, 6, 7]);
}

fn apply(buf: &mut Vec<u32>, writes: &[(usize, u32)]) {
    for (i, v) in writes {
        buf[*i] = *v;
    }
}

#[test]
fn partition_then_gather_gives_the_data_back() {
    let data: Vec<u32> = vec![1, 2, 5, 6, 9];
    let pivots: Vec<u32> = vec![4, 8];
    let mut buf = vec![0u32; 6 * 3];
    apply(&mut buf, &partition_by_pivots(&data, &pivots));
    assert_eq!(gather_buckets(&buf, 6, 3), data);

    let short: Vec<u32> = vec![1, 2];
    let mut buf = vec![0u32; 3 * 3];
    apply(&mut buf, &partition_by_pivots(&short, &pivots));
    assert_eq!(gather_buckets(&buf, 3, 3), short);
}

#[test]
fn each_bucket_holds_its_pivot_range() {
    let data: Vec<u32> = vec![1, 2, 4, 4, 7, 8, 8, 9, 20];
    let pivots: Vec<u32> = vec![4, 8];
    let stride = data.len() + 1;
    let mut buf = vec![0u32; stride * 3];
    apply(&mut buf, &partition_by_pivots(&data, &pivots));
    let b0 = gather_buckets(&buf[0..stride].to_vec(), stride, 1);
    let b1 = gather_buckets(&buf[stride..2 * stride].to_vec(), stride, 1);
    let b2 = gather_buckets(&buf[2 * stride..].to_vec(), stride, 1);
    assert_eq!(b0, vec![1, 2]);
    assert_eq!(b1, vec![4, 4, 7]);
    assert_eq!(b2, vec![8, 8, 9, 20]);
    let mut joined = b0.clone();
    joined.extend(b1);
    joined.extend(b2);
    assert!(joined.windows(2).all(|w| w[0] <= w[1]));
}

#[test]
fn rev_stays_below_the_width() {
    for x in 0..16usize {
        assert!(rev(x, 4) < 16);
    }
    assert_eq!(rev(0, 0), 0);
}
