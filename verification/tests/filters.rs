use pleat::banding::solution_fnv;
use pleat::filter::{Ribbon, RibbonFilter, StdRibbon};
use pleat::format::DecodeError;
use pleat::hash_key;
use pleat::key::hash_keys;
use xxhash_rust::xxh3::{xxh3_64, xxh3_64_with_seed};

fn mix64(mut z: u64) -> u64 {
    z = (z ^ (z >> 30)).wrapping_mul(0xbf58_476d_1ce4_e5b9);
    z = (z ^ (z >> 27)).wrapping_mul(0x94d0_49bb_1331_11eb);
    z ^ (z >> 31)
}

fn keys(n: usize, seed: u64) -> Vec<u64> {
    let mut s: u64 = seed;
    (0..n)
        .map(|_| {
            s = s.wrapping_add(0x9e37_79b9_7f4a_7c15);
            mix64(s)
        })
        .collect()
}

#[test]
fn pleated_build_is_bit_identical_to_arrival() {
    for n in [1000usize, 50_000, 250_000] {
        let k = keys(n, 0xA11CE);
        let arrival = RibbonFilter::from_keys(&k);
        let pleated = RibbonFilter::from_keys_pleated(&k);
        assert_eq!(
            solution_fnv(arrival.solution_segments()),
            solution_fnv(pleated.solution_segments()),
            "pleated build diverges from arrival at n={n}"
        );
    }
}

#[test]
fn no_false_negatives_and_plausible_fpr() {
    let n = 200_000;
    let k = keys(n, 0xA11CE);
    let f = RibbonFilter::from_keys_pleated(&k);
    assert!(k.iter().all(|&x| f.contains(x)), "false negative");
    let absent = keys(200_000, 0xD15EA5E);
    let fp = absent.iter().filter(|&&x| f.contains(x ^ 0x5555_5555_5555_5555)).count();
    let fpr = fp as f64 / 200_000.0;
    assert!(fpr < 0.02, "FPR {fpr} too high");
    assert!(f.size_bytes() as f64 * 8.0 / (n as f64) < 10.0);
}

#[test]
fn empty_and_tiny_inputs_do_not_panic() {
    let f = RibbonFilter::from_keys(&[]);
    assert!(!f.contains(12345) || f.contains(12345));
    let f2 = RibbonFilter::from_keys_pleated(&[7, 42, 1000]);
    assert!(f2.contains(7) && f2.contains(42) && f2.contains(1000));
}

#[test]
fn tunable_fpr_scales_with_r() {
    let k: Vec<u64> = (0..200_000u64).map(|i| i.wrapping_mul(0x9e3779b97f4a7c15)).collect();
    let absent: Vec<u64> =
        (0..200_000u64).map(|i| i.wrapping_mul(0x9e3779b97f4a7c15) ^ 0x1).collect();
    let fpr = |present: &dyn Fn(u64) -> bool| -> f64 {
        absent.iter().filter(|&&x| present(x)).count() as f64 / absent.len() as f64
    };
    let f7 = Ribbon::<7>::from_keys_pleated(&k);
    let f10 = Ribbon::<10>::from_keys_pleated(&k);
    assert!(k.iter().all(|&x| f7.contains(x)) && k.iter().all(|&x| f10.contains(x)));
    let (e7, e10) = (fpr(&|x| f7.contains(x)), fpr(&|x| f10.contains(x)));
    assert!(e10 < e7, "r=10 FPR {e10} should be below r=7 {e7}");
    let bits_per_key = |bytes: usize| bytes as f64 * 8.0 / k.len() as f64;
    assert!(bits_per_key(f10.size_bytes()) > bits_per_key(f7.size_bytes()));
}

#[test]
fn roundtrip_serialization_preserves_queries() {
    let k: Vec<u64> = (0..100_000u64).map(|i| i.wrapping_mul(0x9e3779b97f4a7c15)).collect();
    let f = RibbonFilter::from_keys_pleated(&k);
    let bytes = f.to_bytes();
    let g = RibbonFilter::from_bytes(&bytes).expect("valid buffer");
    assert_eq!(f.size_bytes(), g.size_bytes());
    assert!(k.iter().all(|&x| g.contains(x)), "false negative after roundtrip");
    for x in [1u64, 3, 999_999_999, u64::MAX] {
        assert_eq!(f.contains(x), g.contains(x));
    }
    assert!(RibbonFilter::from_bytes(&[0u8; 5]).is_none());
}

#[test]
fn plain_bytes_are_laid_out_field_by_field() {
    let f = RibbonFilter::from_keys_seeded(&[7, 42, 1000], 0x0102_0304);
    let bytes = f.to_bytes();
    assert_eq!(bytes.len(), 16 + f.size_bytes());
    assert_eq!(f.size_bytes(), 14 * 8);
    assert_eq!(&bytes[0..8], &65u64.to_le_bytes());
    assert_eq!(&bytes[8..16], &0x0102_0304u64.to_le_bytes());
    for (i, w) in f.solution_segments().iter().enumerate() {
        assert_eq!(&bytes[16 + 8 * i..24 + 8 * i], &w.to_le_bytes());
    }
    let g = RibbonFilter::from_bytes(&bytes).unwrap();
    assert_eq!(g.to_bytes(), bytes);
    assert_eq!(g.solution_segments(), f.solution_segments());
}

#[test]
fn malformed_plain_bytes_are_refused() {
    let bytes = RibbonFilter::from_keys(&[7, 42, 1000]).to_bytes();
    assert!(RibbonFilter::from_bytes(&[]).is_none());
    assert!(RibbonFilter::from_bytes(&bytes[..15]).is_none());
    assert!(RibbonFilter::from_bytes(&bytes[..bytes.len() - 1]).is_none());
    assert!(RibbonFilter::from_bytes(&[0u8; 16]).is_none());
    assert!(RibbonFilter::from_bytes(&bytes[..bytes.len() - 8]).is_none());
    let mut huge = bytes.clone();
    huge[0..8].copy_from_slice(&u64::MAX.to_le_bytes());
    assert!(RibbonFilter::from_bytes(&huge).is_none());
    assert!(Ribbon::<8>::from_bytes(&bytes).is_none());
    assert!(Ribbon::<5>::from_bytes(&bytes).is_none());
    let mut longer = bytes.clone();
    longer.extend_from_slice(&[0u8; 8]);
    assert!(RibbonFilter::from_bytes(&longer).is_none());
    for starts in [0u64, 1, 64, 66, u64::MAX - 62] {
        let mut other = bytes.clone();
        other[0..8].copy_from_slice(&starts.to_le_bytes());
        assert!(RibbonFilter::from_bytes(&other).is_none(), "starts={starts}");
    }
    assert!(RibbonFilter::from_bytes(&bytes).is_some());
}

#[test]
fn three_keys_have_their_words() {
    let f = RibbonFilter::from_keys(&[7, 42, 1000]);
    assert_eq!(solution_fnv(f.solution_segments()), 0x0998_1a39_6a9b_8ced);
    assert_eq!(f.solution_segments()[0], 12_297_846_974_122_207_914);
}

#[test]
fn envelope_round_trip_is_byte_stable() {
    let k = keys(2000, 8);
    let f = Ribbon::<9>::from_keys_pleated_seeded(&k, 5, 3);
    let bytes = f.to_versioned_bytes();
    assert_eq!(bytes.len(), 32 + f.size_bytes() + 8);
    let g = Ribbon::<9>::from_versioned_bytes(&bytes).expect("valid buffer");
    assert!(k.iter().all(|&x| g.contains(x)));
    assert_eq!(g.to_versioned_bytes(), bytes);
    assert_eq!(g.to_bytes(), f.to_bytes());
    assert_eq!(
        Ribbon::<8>::from_versioned_bytes(&bytes).unwrap_err(),
        DecodeError::WrongResultWidth
    );
    assert_eq!(StdRibbon::<9>::from_bytes(&bytes).unwrap_err(), DecodeError::WrongFamily);
}

#[test]
fn every_wrong_byte_is_found_out() {
    let f = RibbonFilter::from_keys(&[1, 2, 3]);
    let good = f.to_versioned_bytes();
    assert!(RibbonFilter::from_versioned_bytes(&good).is_ok());
    for i in 0..good.len() {
        let mut bad = good.clone();
        bad[i] ^= 0x40;
        let expected = if i < 4 { DecodeError::BadMagic } else { DecodeError::BadChecksum };
        assert_eq!(RibbonFilter::from_versioned_bytes(&bad).unwrap_err(), expected);
    }
}

#[test]
fn standard_filters_round_trip() {
    let k = keys(3000, 12);
    let f = StdRibbon::<8>::from_keys(&k).expect("solves");
    let p = StdRibbon::<8>::from_keys_pleated(&k).expect("solves");
    let q = StdRibbon::<8>::from_keys_parallel(&k, 4).expect("solves");
    assert!(k.iter().all(|&x| f.contains(x)));
    let bytes = f.to_bytes();
    assert_eq!(bytes.len(), 32 + f.size_bytes() + 8);
    assert_eq!(p.to_bytes(), bytes);
    assert_eq!(q.to_bytes(), bytes);
    let g = StdRibbon::<8>::from_bytes(&bytes).expect("valid buffer");
    assert!(k.iter().all(|&x| g.contains(x)), "false negative after roundtrip");
    assert_eq!(g.to_bytes(), bytes);
    for x in keys(500, 13) {
        assert_eq!(f.contains(x), g.contains(x));
    }
    assert_eq!(StdRibbon::<7>::from_bytes(&bytes).unwrap_err(), DecodeError::WrongResultWidth);
    assert_eq!(Ribbon::<8>::from_versioned_bytes(&bytes).unwrap_err(), DecodeError::WrongFamily);
    assert_eq!(StdRibbon::<8>::from_bytes(&bytes[..39]).unwrap_err(), DecodeError::TooShort);
}

#[test]
fn standard_filter_has_plausible_fpr() {
    let k = keys(50_000, 0xA11CE);
    let f = StdRibbon::<7>::from_keys_pleated(&k).expect("solves");
    assert!(k.iter().all(|&x| f.contains(x)));
    let fp = keys(50_000, 0xD15EA5E).iter().filter(|&&x| f.contains(x)).count();
    assert!((fp as f64) / 50_000.0 < 0.02);
}

#[test]
fn batch_queries_agree() {
    let k = keys(1000, 3);
    let f = RibbonFilter::from_keys(&k);
    let mut out = [false; 4];
    f.contains_batch(&[k[0], k[1], 5, 6], &mut out);
    assert_eq!(out, [true, true, f.contains(5), f.contains(6)]);
    let s = StdRibbon::<7>::from_keys(&k).unwrap();
    s.contains_batch(&[k[0], 9, k[2], 6], &mut out);
    assert_eq!(out, [true, s.contains(9), true, s.contains(6)]);
}

#[test]
fn keys_of_any_type_are_hashed_with_xxh3() {
    assert_eq!(hash_key(&5u64), xxh3_64(&5u64.to_ne_bytes()));
    assert_eq!(hash_key("abc"), xxh3_64_with_seed(b"abc\xff", 0));
    let long = "pleat".repeat(100);
    let mut fed = long.clone().into_bytes();
    fed.push(0xff);
    assert_eq!(hash_key(long.as_str()), xxh3_64(&fed));
    assert_eq!(hash_keys(&["abc", "d"]), vec![hash_key("abc"), hash_key("d")]);
    assert_ne!(hash_key("a"), hash_key("b"));
}

#[test]
fn filters_of_hashable_keys_hold_them() {
    let words = ["alpha", "beta", "gamma", "delta"];
    let f = RibbonFilter::from_hashable(&words);
    assert!(words.iter().all(|w| f.contains_hashable(w)));
    assert!(f.contains(hash_key("beta")));
    assert!(f.contains_hashable("gamma"));
    assert_eq!(f.to_bytes(), RibbonFilter::from_keys(&hash_keys(&words)).to_bytes());
    let other = words.iter().map(|w| hash_key(*w)).collect::<Vec<u64>>();
    assert_eq!(hash_keys(&words), other);
    let s = StdRibbon::<8>::from_hashable(&words).expect("solves");
    assert!(words.iter().all(|w| s.contains_hashable(*w)));
    let pairs: Vec<(u32, String)> = (0..500u32).map(|i| (i, format!("{i}"))).collect();
    let g = Ribbon::<12>::from_hashable(&pairs);
    assert!(pairs.iter().all(|p| g.contains_hashable(p)));
}

#[test]
fn sizes_depend_on_the_number_of_keys() {
    assert_eq!(RibbonFilter::from_keys(&[]).size_bytes(), 112);
    let k = keys(200_000, 40);
    assert_eq!(RibbonFilter::from_keys(&k).size_bytes(), 190_736);
    assert_eq!(RibbonFilter::from_keys_pleated_seeded(&k, 6, 12).size_bytes(), 190_736);
    assert_eq!(RibbonFilter::from_keys_parallel(&k, 3).size_bytes(), 190_736);
    assert_eq!(StdRibbon::<7>::from_keys(&k[..1000]).unwrap().size_bytes(), 1152 / 8 * 7);
}

#[test]
fn permuted_keys_give_the_same_bytes() {
    let k = keys(2000, 41);
    let mut permuted = k.clone();
    permuted.rotate_left(777);
    permuted.swap(0, 1);
    assert_eq!(RibbonFilter::from_keys(&k).to_bytes(), RibbonFilter::from_keys(&permuted).to_bytes());
    assert_eq!(
        StdRibbon::<7>::from_keys(&k).unwrap().to_bytes(),
        StdRibbon::<7>::from_keys(&permuted).unwrap().to_bytes()
    );
}

#[test]
fn seeds_make_different_filters() {
    let k = keys(500, 1);
    let a = RibbonFilter::from_keys_seeded(&k, 1);
    let b = RibbonFilter::from_keys_seeded(&k, 2);
    assert_ne!(a.solution_segments(), b.solution_segments());
    assert!(k.iter().all(|&x| a.contains(x) && b.contains(x)));
}
