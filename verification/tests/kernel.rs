use pleat::banding::{solution_fnv, Banding, Solution};
use pleat::banding128::{
    build_std128, build_std128_pleated, num_slots_for_128, solution_fnv_128, Banding128,
    Solution128,
};
use pleat::bits::{lowest_bit_128, lowest_bit_64, parity_128, parity_64};
use pleat::filter::{num_slots_for, window_size};
use pleat::hash::{coeff_row, ribbon_hash, start};
use pleat::hash128::{coeff_row_128, ordinal_to_raw_seed, result_row};
use pleat::PleatPlan;

fn mix64(mut z: u64) -> u64 {
    z = (z ^ (z >> 30)).wrapping_mul(0xbf58_476d_1ce4_e5b9);
    z = (z ^ (z >> 27)).wrapping_mul(0x94d0_49bb_1331_11eb);
    z ^ (z >> 31)
}

fn keys(n: usize, seed: u64) -> Vec<u64> {
    let mut s: u64 = seed;
    (0..n)
        .map(|_| {
            s = s.wrapping_add(0x9e37_79b9_7f4a_7c15);
            mix64(s)
        })
        .collect()
}

#[test]
fn no_reduction_leaves_low_bit_set() {
    let mut b = Banding::<7>::new(64 * 32, 0);
    assert!(b.add(12345));
    assert!(b.coeff_rows_mut().iter().filter(|&&c| c != 0).all(|&c| c & 1 == 1));
}

#[test]
fn seed_mapping_is_injective_and_zero_fixed() {
    assert_eq!(ordinal_to_raw_seed(0), 0);
    let seeds: std::collections::HashSet<u32> = (0..64).map(ordinal_to_raw_seed).collect();
    assert_eq!(seeds.len(), 64, "ordinal->raw seed must be injective over 0..64");
}

#[test]
fn pleat_is_a_permutation_in_window_order() {
    let n_starts = 1u64 << 22;
    let plan = PleatPlan::new(n_starts, 16);
    let keys: Vec<u64> = (0..100_000u64).map(mix64).collect();
    let start = |k: u64| mix64(k) % n_starts;
    let (out, counts) = plan.pleat(&keys, start);

    let mut a = keys.clone();
    let mut b = out.clone();
    a.sort_unstable();
    b.sort_unstable();
    assert_eq!(a, b);

    for w in 0..plan.num_windows() {
        for &k in &out[counts[w]..counts[w + 1]] {
            assert_eq!((start(k) >> plan.shift) as usize, w);
        }
    }

    let w0: Vec<u64> = keys
        .iter()
        .copied()
        .filter(|&k| (start(k) >> plan.shift) == 3)
        .collect();
    assert_eq!(&out[counts[3]..counts[4]], &w0[..]);
}

#[test]
fn pleat_into_fills_the_given_buffer() {
    let plan = PleatPlan::new(10, 1);
    let keys = [9u64, 0, 5, 1, 4, 8];
    let mut out = [0u64; 6];
    let counts = plan.pleat_into(&keys, |k: u64| k, &mut out);
    assert_eq!(plan.pleat(&[3], |k: u64| k).1, vec![0, 0, 1, 1, 1, 1, 1, 1]);
    assert_eq!(plan.num_windows(), 7);
    assert_eq!(out, [0, 1, 5, 4, 9, 8]);
    assert_eq!(counts, vec![0, 2, 2, 4, 4, 6, 6, 6]);
}

#[test]
fn hashing_is_exact() {
    assert_eq!(ribbon_hash(0, 0), 0);
    assert_eq!(ribbon_hash(1, 0), 0xb456_bcfc_34c2_cb2c);
    assert_eq!(ribbon_hash(1, 7), 0x46ab_cca5_93a3_c687);
    assert_eq!(ribbon_hash(u64::MAX, 8), ribbon_hash(0, 7));
    let h = ribbon_hash(12345, 0);
    assert_eq!(h, 0x17d2_abfb_f90b_aef9);
    assert_eq!(start(h, 1000), 93);
    assert_eq!(start(u64::MAX, 1000), 999);
    assert_eq!(start(h, 0), 0);
    assert_eq!(coeff_row(h), 0x1e8b_906a_eb92_af85);
    assert_eq!(coeff_row_128(h), 0x1e8b_906a_eb92_af85_ddec_1420_85c0_dc99);
    assert_eq!(result_row(h), 0x6a90_8b1e);
    assert_eq!(ordinal_to_raw_seed(1), 0x3de4_d003);
    assert_eq!(ordinal_to_raw_seed(63), 0x7cc0_65b6);
}

#[test]
fn rows_have_their_first_bit_set_and_results_swap_bytes() {
    for k in 0..2000u64 {
        let h = ribbon_hash(k, 3);
        let a = h.wrapping_mul(0xc28f_8282_2b65_0bed);
        assert_eq!(coeff_row(h) & 1, 1);
        assert_eq!(coeff_row_128(h) & 1, 1);
        assert_eq!(coeff_row(h), a | 1);
        assert_eq!(result_row(h), a.swap_bytes() as u32);
    }
}

#[test]
fn bit_counts_agree_with_std() {
    for i in 0..64u32 {
        let x = mix64(i as u64) | 1;
        assert_eq!(lowest_bit_64(x << i), i);
        assert_eq!(parity_64(x), x.count_ones() % 2 == 1);
        let y = ((x as u128) << 64) | mix64(x) as u128;
        assert_eq!(parity_128(y), y.count_ones() % 2 == 1);
        assert_eq!(lowest_bit_128((y | 1) << (i + 64)), i + 64);
    }
    assert!(!parity_64(0) && !parity_128(0));
    assert!(parity_128(1u128 << 127));
}

fn sized(n: usize, r: usize, w: usize) -> usize {
    let overhead = 1.0 + (4.0 + r as f64 * 0.25) / (w as f64);
    let raw = (overhead * n as f64) as usize;
    let s = raw.div_ceil(w) * w;
    s.max(2 * w)
}

#[test]
fn slot_counts_agree_with_double_precision() {
    assert_eq!(num_slots_for(0, 7), 128);
    assert_eq!(num_slots_for(1000, 7), 1152);
    assert_eq!(num_slots_for(200_000, 7), 217_984);
    assert_eq!(num_slots_for_128(200_000, 7), 209_024);
    assert_eq!(num_slots_for((1usize << 53) + 1, 7), 9_816_439_812_784_128);
    assert_eq!(num_slots_for_128((1usize << 60) + 12345, 32), 1_261_007_895_663_752_192);
    assert_eq!(num_slots_for(usize::MAX / 4, 32), sized(usize::MAX / 4, 32, 64));
    for r in 1..=32usize {
        for i in 0..600u64 {
            let n = (mix64(i * 33 + r as u64) >> (2 + i % 62)) as usize;
            assert_eq!(num_slots_for(n, r), sized(n, r, 64), "n={n} r={r}");
            assert_eq!(num_slots_for_128(n, r), sized(n, r, 128), "n={n} r={r}");
        }
    }
}

#[test]
fn window_sizes_are_powers_of_two() {
    assert_eq!(window_size(0), 1);
    assert_eq!(window_size(16), 65_536);
    assert_eq!(window_size(63), 1usize << 63);
}

#[test]
fn homogeneous_solution_has_its_fingerprint() {
    let k = keys(2000, 0xA11CE);
    let mut b = Banding::<7>::new(num_slots_for(k.len(), 7), 0);
    assert_eq!(b.num_slots(), 2240);
    b.add_all(&k);
    let words = b.back_substitute();
    assert_eq!(words.len(), 245);
    assert_eq!(solution_fnv(&words), 0xcc8d_6446_dce4_4fd2);
    let s = b.solve();
    assert_eq!(s.segments(), &words[..]);
    assert!(k.iter().all(|&x| s.contains(x)));

    let mut wide = Banding::<32>::new(num_slots_for(k.len(), 32), 0);
    wide.add_all(&k);
    assert_eq!(solution_fnv(&wide.back_substitute()), 0xfa56_519f_4e99_ed74);
    let mut narrow = Banding::<1>::new(num_slots_for(k.len(), 1), 0);
    narrow.add_all(&k);
    assert_eq!(solution_fnv(&narrow.back_substitute()), 0xc67b_34e1_17aa_c3e3);
}

#[test]
fn empty_homogeneous_solution_is_pseudorandom() {
    let b = Banding::<7>::new(128, 0);
    let words = b.back_substitute();
    assert_eq!(words.len(), 14);
    assert_eq!(solution_fnv(&words), 0xd3d0_d8fa_2801_a885);
}

#[test]
fn standard_solution_has_its_fingerprint() {
    let k = keys(2000, 0xA11CE);
    let s = build_std128::<7>(&k).expect("solves");
    assert_eq!(s.ordinal_seed(), 0);
    assert_eq!(s.segments().len(), 119);
    assert_eq!(solution_fnv_128(s.segments()), 0x2594_43ac_0e23_d2cd);
    assert!(k.iter().all(|&x| s.contains(x)));
    let t = build_std128::<10>(&k).expect("solves");
    assert_eq!(solution_fnv_128(t.segments()), 0x9794_7266_8e34_d715);
}

#[test]
fn a_later_seed_is_taken_where_the_first_fails() {
    let k = keys(255, 1);
    let b = Banding128::<7>::find_seed(256, &k).expect("solves");
    let s = b.into_solution();
    assert_eq!(s.ordinal_seed(), 7);
    assert_eq!(solution_fnv_128(s.segments()), 0x7739_1941_772e_de16);
    assert!(k.iter().all(|&x| s.contains(x)));
    let p = Banding128::<7>::find_seed_pleated(256, &k, 5).expect("solves").into_solution();
    assert_eq!(p.ordinal_seed(), 7);
    assert_eq!(p.segments(), s.segments());

    let mut first = Banding128::<7>::new(256);
    assert!(!first.add_all(&k));
    first.reset(7);
    assert_eq!(first.raw_seed(), ordinal_to_raw_seed(7));
    assert!(first.add_all(&k));
}

#[test]
fn seeds_are_taken_in_turn() {
    let k = keys(255, 1);
    let mut b = Banding128::<7>::new(256);
    let mut tries = 1;
    while !b.add_all(&k) {
        assert!(b.next_seed());
        assert_eq!(b.raw_seed(), ordinal_to_raw_seed(tries));
        tries += 1;
    }
    assert_eq!(tries, 8);
    assert_eq!(b.into_solution().ordinal_seed(), 7);
    let mut last = Banding128::<7>::new(256);
    last.reset(63);
    assert!(!last.next_seed());
    assert_eq!(last.raw_seed(), ordinal_to_raw_seed(63));
}

#[test]
fn no_seed_solves_more_keys_than_slots() {
    let k = keys(300, 5);
    assert!(Banding128::<7>::find_seed(256, &k).is_none());
    assert!(Banding128::<7>::find_seed_pleated(256, &k, 4).is_none());
}

#[test]
fn repeated_keys_add_nothing() {
    let k = keys(500, 9);
    let mut twice = k.clone();
    twice.extend_from_slice(&k);
    let mut a = Banding::<7>::new(640, 0);
    a.add_all(&k);
    let mut b = Banding::<7>::new(640, 0);
    b.add_all(&twice);
    assert_eq!(a.back_substitute(), b.back_substitute());
    let s = Banding128::<7>::find_seed(640, &k).unwrap().into_solution();
    let t = Banding128::<7>::find_seed(640, &twice).unwrap().into_solution();
    assert_eq!(s.segments(), t.segments());
}

#[test]
fn order_does_not_matter() {
    let k = keys(3000, 77);
    let mut reversed = k.clone();
    reversed.reverse();
    let mut a = Banding::<5>::new(num_slots_for(k.len(), 5), 3);
    a.add_all(&k);
    let mut b = Banding::<5>::new(num_slots_for(k.len(), 5), 3);
    b.add_all(&reversed);
    assert_eq!(a.solve().segments(), b.solve().segments());
    let s = build_std128::<5>(&k).unwrap();
    let t = build_std128::<5>(&reversed).unwrap();
    let p = build_std128_pleated::<5>(&k, 6).unwrap();
    assert_eq!(s.segments(), t.segments());
    assert_eq!(s.segments(), p.segments());
    assert_eq!(s.ordinal_seed(), t.ordinal_seed());
}

#[test]
fn batches_answer_as_single_queries_do() {
    let k = keys(700, 4);
    let probes = keys(900, 6);
    let mut b = Banding::<3>::new(num_slots_for(k.len(), 3), 0);
    b.add_all(&k);
    let s = b.solve();
    let mut out = vec![false; probes.len()];
    s.contains_batch(&probes, &mut out);
    assert!(probes.iter().zip(&out).all(|(&p, &o)| s.contains(p) == o));
    assert!(out.iter().any(|&o| o) && out.iter().any(|&o| !o));

    let t = build_std128::<3>(&k).unwrap();
    t.contains_batch(&probes, &mut out);
    assert!(probes.iter().zip(&out).all(|(&p, &o)| t.contains(p) == o));
    let mut members = vec![false; k.len()];
    t.contains_batch(&k, &mut members);
    assert!(members.iter().all(|&o| o));
}

#[test]
fn solutions_are_put_together_from_their_parts() {
    let k = keys(100, 2);
    let mut b = Banding::<7>::new(num_slots_for(k.len(), 7), 11);
    b.add_all(&k);
    let s = b.solve();
    let (num_starts, seed, words) = s.parts();
    assert_eq!((num_starts, seed), (65, 11));
    let again = Solution::<7>::from_parts(num_starts, seed, words.to_vec());
    assert!(k.iter().all(|&x| again.contains(x)));

    let t = build_std128::<7>(&k).unwrap();
    let (num_starts, ordinal, words) = t.parts();
    assert_eq!(num_starts, 129);
    let again = Solution128::<7>::from_parts(num_starts, ordinal, words.to_vec());
    assert!(k.iter().all(|&x| again.contains(x)));
}

#[test]
fn fingerprints_are_exact() {
    assert_eq!(solution_fnv(&[]), 0xcbf2_9ce4_8422_2325);
    assert_eq!(solution_fnv(&[1, 2]), 0x7717_9803_63c8_e066);
    assert_eq!(solution_fnv_128(&[1]), 0x3922_09f1_4dea_4c24);
}
