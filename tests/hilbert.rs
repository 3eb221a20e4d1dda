use kosmos_tile::hilbert::{from_hilbert, to_hilbert};

#[test]
fn hilbert_2d_level1_order() {
    assert_eq!(to_hilbert::<2>([0, 0], 1), 0);
    assert_eq!(to_hilbert::<2>([0, 1], 1), 1);
    assert_eq!(to_hilbert::<2>([1, 0], 1), 3);
    assert_eq!(to_hilbert::<2>([1, 1], 1), 2);
}

#[test]
fn hilbert_2d_level2_grid() {
    let expected = [[0, 3, 4, 5], [1, 2, 7, 6], [14, 13, 8, 9], [15, 12, 11, 10]];
    for x in 0..4u64 {
        for y in 0..4u64 {
            assert_eq!(to_hilbert::<2>([x, y], 2), expected[x as usize][y as usize]);
        }
    }
}

#[test]
fn hilbert_known_values() {
    assert_eq!(to_hilbert::<2>([5, 3], 3), 52);
    assert_eq!(to_hilbert::<3>([1, 2, 3], 2), 22);
    assert_eq!(to_hilbert::<3>([7, 0, 7], 3), 308);
    assert_eq!(from_hilbert::<2>(37, 3), [4, 7]);
    assert_eq!(from_hilbert::<3>(100, 3), [1, 6, 3]);
}

#[test]
fn hilbert_full_word() {
    assert_eq!(to_hilbert::<2>([u32::MAX as u64, u32::MAX as u64], 32), 12297829382473034410);
    assert_eq!(to_hilbert::<2>([123456789, 987654321], 32), 392343801740616856);
    assert_eq!(from_hilbert::<2>(392343801740616856, 32), [123456789, 987654321]);
}

#[test]
fn hilbert_level_zero() {
    assert_eq!(to_hilbert::<3>([0, 0, 0], 0), 0);
    assert_eq!(from_hilbert::<3>(0, 0), [0, 0, 0]);
}

#[test]
fn hilbert_round_trip_2d_exhaustive() {
    for level in 0..5usize {
        let side = 1u64 << level;
        for x in 0..side {
            for y in 0..side {
                let code = to_hilbert::<2>([x, y], level);
                assert_eq!(from_hilbert::<2>(code, level), [x, y]);
            }
        }
    }
}

#[test]
fn hilbert_round_trip_3d_exhaustive() {
    for level in 0..4usize {
        let side = 1u64 << level;
        for x in 0..side {
            for y in 0..side {
                for z in 0..side {
                    let code = to_hilbert::<3>([x, y, z], level);
                    assert_eq!(from_hilbert::<3>(code, level), [x, y, z]);
                }
            }
        }
    }
}

#[test]
fn hilbert_injective_2d_level3() {
    let mut codes = Vec::new();
    for x in 0..8u64 {
        for y in 0..8u64 {
            codes.push(to_hilbert::<2>([x, y], 3));
        }
    }
    codes.sort();
    codes.dedup();
    assert_eq!(codes.len(), 64);
    assert_eq!(codes, (0..64u64).collect::<Vec<_>>());
}

#[test]
fn hilbert_consecutive_codes_are_neighbours() {
    for code in 0..63u64 {
        let a = from_hilbert::<2>(code, 3);
        let b = from_hilbert::<2>(code + 1, 3);
        let dist = a[0].abs_diff(b[0]) + a[1].abs_diff(b[1]);
        assert_eq!(dist, 1);
    }
}

#[test]
fn hilbert_codes_decode_and_reencode() {
    for code in 0..64u64 {
        assert_eq!(to_hilbert::<2>(from_hilbert::<2>(code, 3), 3), code);
    }
    for code in 0..512u64 {
        let p = from_hilbert::<3>(code, 3);
        assert!(p.iter().all(|&c| c < 8));
        assert_eq!(to_hilbert::<3>(p, 3), code);
    }
    let big = 0x9e37_79b9_7f4a_7c15u64;
    assert_eq!(to_hilbert::<2>(from_hilbert::<2>(big, 32), 32), big);
}
