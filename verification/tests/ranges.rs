use pleat::banding::solution_fnv;
use pleat::banding128::{build_std128, build_std128_parallel, Banding128};
use pleat::filter::{from_keys_parallel_seeded, RibbonFilter};
use pleat::hash::{coeff_row, ribbon_hash, start};
use pleat::parallel::{band_slice, worker_count};
use pleat::parallel128::band_range_128;
use pleat::ranges::{bucket_keys, range_bounds, tail_keys};

fn mix64(mut z: u64) -> u64 {
    z = (z ^ (z >> 30)).wrapping_mul(0xbf58_476d_1ce4_e5b9);
    z = (z ^ (z >> 27)).wrapping_mul(0x94d0_49bb_1331_11eb);
    z ^ (z >> 31)
}

fn keys(n: usize, seed: u64) -> Vec<u64> {
    let mut s: u64 = seed;
    (0..n)
        .map(|_| {
            s = s.wrapping_add(0x9e37_79b9_7f4a_7c15);
            mix64(s)
        })
        .collect()
}

#[test]
fn parallel_build_is_bit_identical_to_sequential() {
    let k = keys(300_000, 0xA11CE);
    let seq = RibbonFilter::from_keys(&k);
    for t in [2usize, 4, 8] {
        let par = from_keys_parallel_seeded::<7>(&k, 0, 16, t);
        assert_eq!(
            solution_fnv(seq.solution_segments()),
            solution_fnv(par.segments()),
            "parallel build (t={t}) diverges from sequential"
        );
        assert!(k.iter().all(|&x| par.contains(x)), "parallel: false negative t={t}");
    }
}

#[test]
fn ranges_of_every_size_give_the_same_filter() {
    let k = keys(40_000, 21);
    let seq = RibbonFilter::from_keys_seeded(&k, 9);
    for (shift, t) in [(0u32, 3usize), (6, 2), (10, 7), (14, 2), (16, 64), (63, 5), (6, 1), (6, 0)] {
        let par = RibbonFilter::from_keys_parallel_seeded(&k, 9, shift, t);
        assert_eq!(seq.solution_segments(), par.solution_segments(), "shift={shift} t={t}");
    }
    let few = [3u64, 5, 8];
    assert_eq!(
        RibbonFilter::from_keys_parallel(&few, 8).to_bytes(),
        RibbonFilter::from_keys(&few).to_bytes()
    );
}

#[test]
fn standard_ranges_give_the_same_filter() {
    let k = keys(60_000, 22);
    let seq = build_std128::<7>(&k).expect("solves");
    for (shift, t) in [(7u32, 2usize), (12, 3), (15, 2), (16, 8), (14, 1)] {
        let par = build_std128_parallel::<7>(&k, shift, t).expect("solves");
        assert_eq!(par.ordinal_seed(), seq.ordinal_seed());
        assert_eq!(par.segments(), seq.segments(), "shift={shift} t={t}");
    }
}

#[test]
fn bounds_are_dealt_in_whole_windows() {
    assert_eq!(range_bounds(1000, 64, 4), vec![0, 256, 512, 768, 1000]);
    assert_eq!(range_bounds(1000, 64, 3), vec![0, 384, 768, 1000]);
    assert_eq!(range_bounds(128, 64, 8), vec![0, 64, 128]);
    assert_eq!(range_bounds(128, 65_536, 8), vec![0, 128]);
    assert_eq!(range_bounds(640, 64, 7), vec![0, 128, 256, 384, 512, 640]);
    assert_eq!(range_bounds(5, usize::MAX, usize::MAX), vec![0, 5]);
}

#[test]
fn one_worker_needs_no_window() {
    let k = keys(1000, 31);
    let seq = RibbonFilter::from_keys_seeded(&k, 2);
    for t in [0usize, 1] {
        let par = RibbonFilter::from_keys_parallel_seeded(&k, 2, 4000, t);
        assert_eq!(par.to_bytes(), seq.to_bytes());
    }
}

#[test]
fn deferred_keys_come_before_spilled_ones() {
    assert_eq!(tail_keys(vec![4, 5], &vec![vec![], vec![9, 8], vec![7]]), vec![4, 5, 9, 8, 7]);
    assert_eq!(tail_keys(vec![], &vec![]), Vec::<u64>::new());
}

#[test]
fn workers_are_at_least_one_and_at_most_the_blocks() {
    assert_eq!(worker_count(640, 0), 1);
    assert_eq!(worker_count(640, 3), 3);
    assert_eq!(worker_count(640, 99), 10);
}

#[test]
fn keys_near_a_boundary_are_deferred() {
    let k = keys(5000, 30);
    let num_starts = 100_000u64;
    let bounds = vec![0usize, 40_000, 90_000, 100_063];
    let (buckets, deferred) = bucket_keys(&k, 4, num_starts, &bounds);
    assert_eq!(buckets.len(), 3);
    let slot = |x: u64| start(ribbon_hash(x, 4), num_starts) as usize;
    let pick = |lo: usize, hi: usize| -> Vec<u64> {
        k.iter().copied().filter(|&x| lo <= slot(x) && slot(x) < hi).collect()
    };
    assert_eq!(buckets[0], pick(0, 40_000 - 16_384));
    assert_eq!(buckets[1], pick(40_000, 90_000 - 16_384));
    assert_eq!(buckets[2], pick(90_000, 100_063));
    let late: Vec<u64> = k
        .iter()
        .copied()
        .filter(|&x| {
            let s = slot(x);
            (23_616..40_000).contains(&s) || (73_616..90_000).contains(&s)
        })
        .collect();
    assert_eq!(deferred, late);
    let placed: usize = buckets.iter().map(|b| b.len()).sum();
    assert_eq!(placed + deferred.len(), k.len());
}

#[test]
fn keys_that_leave_their_slice_are_spilled() {
    let mut slice = [0u64; 10];
    let far = start(ribbon_hash(1, 0), 1000);
    assert_eq!(far, 704);
    let spilled = band_slice(&mut slice, 0, 1000, 0, &[1, 0, 0]);
    assert_eq!(spilled, vec![1]);
    assert_eq!(slice[0], coeff_row(ribbon_hash(0, 0)));
    assert!(slice[1..].iter().all(|&c| c == 0));
}

#[test]
fn contradictions_in_a_range_are_reported() {
    let k = keys(255, 1);
    let mut coeff = vec![0u128; 256];
    let mut result = vec![0u32; 256];
    assert!(band_range_128(&mut coeff, &mut result, 0, 129, 0, &k).is_none());
    let mut coeff = vec![0u128; 100];
    let mut result = vec![0u32; 100];
    let spilled = band_range_128(&mut coeff, &mut result, 0, 129, 0, &k[..90]).unwrap();
    assert!(!spilled.is_empty());
    let mut b = Banding128::<7>::new(256);
    {
        let (c, r) = b.coeff_result_mut();
        c[..100].copy_from_slice(&coeff);
        r[..100].copy_from_slice(&result);
    }
    assert!(b.add_all(&spilled));
    let mut whole = Banding128::<7>::new(256);
    assert!(whole.add_all(&k[..90]));
    assert_eq!(b.into_solution().segments(), whole.into_solution().segments());
}
