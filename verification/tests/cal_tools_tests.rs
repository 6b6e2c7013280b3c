use simple_allocator2::cal_tools::{cal_position, decal_position, find_block, power_int, BLOCK_SIZES};

#[test]
fn find_block_picks_smallest_fitting_block() {
    assert_eq!(find_block(0), 0);
    assert_eq!(find_block(1), 0);
    assert_eq!(find_block(16), 0);
    assert_eq!(find_block(17), 1);
    assert_eq!(find_block(32), 1);
    assert_eq!(find_block(33), 2);
    assert_eq!(find_block(64), 2);
    assert_eq!(find_block(65), 3);
    assert_eq!(find_block(128), 3);
    assert_eq!(find_block(129), 4);
    assert_eq!(find_block(256), 4);
    assert_eq!(find_block(257), 5);
    assert_eq!(find_block(512), 5);
    assert_eq!(find_block(1000), 6);
    assert_eq!(find_block(2048), 7);
}

#[test]
fn find_block_large_requests() {
    assert_eq!(find_block(2049), 4);
    assert_eq!(find_block(100_000), 4);
    assert_eq!(find_block(usize::MAX), 4);
}

#[test]
fn find_block_matches_block_sizes() {
    for i in 0..=2048usize {
        let j = find_block(i);
        assert!(BLOCK_SIZES[j] >= i);
        for k in 0..j {
            assert!(BLOCK_SIZES[k] < i);
        }
    }
}

#[test]
fn power_int_of_powers_of_two() {
    assert_eq!(power_int(1), 0);
    assert_eq!(power_int(2), 1);
    assert_eq!(power_int(8), 3);
    assert_eq!(power_int(4294967296), 32);
    assert_eq!(power_int(1u64 << 63), 63);
    for k in 0..64u64 {
        assert_eq!(power_int(1u64 << k), k as usize);
    }
}

#[test]
fn power_int_of_other_values_is_highest_bit() {
    assert_eq!(power_int(3), 1);
    assert_eq!(power_int(12), 3);
    assert_eq!(power_int(u64::MAX), 63);
}

#[test]
fn decal_position_values() {
    assert_eq!(decal_position(0, 16), (0, 1));
    assert_eq!(decal_position(5, 16), (0, 32));
    assert_eq!(decal_position(63, 64), (0, 1u64 << 63));
    assert_eq!(decal_position(64, 16), (1, 1));
    assert_eq!(decal_position(130, 16), (2, 4));
    assert_eq!(decal_position(255, 16), (3, 1u64 << 63));
    assert_eq!(decal_position(4096, 0), (64, 1));
}

#[test]
fn cal_position_empty_page() {
    let empty = [0u64; 4];
    for sc in [16usize, 32, 64, 128, 256, 512, 1024, 2048, 8, 100, 0] {
        assert_eq!(cal_position(&empty, sc), Ok((0, 1)));
    }
}

#[test]
fn cal_position_class_16() {
    assert_eq!(cal_position(&[0b1011, 0, 0, 0], 16), Ok((0, 4)));
    assert_eq!(cal_position(&[u64::MAX, 0, 0, 0], 16), Ok((1, 1)));
    assert_eq!(cal_position(&[u64::MAX, u64::MAX, u64::MAX, 0b111], 16), Ok((3, 8)));
    assert_eq!(cal_position(&[u64::MAX, u64::MAX, u64::MAX, u64::MAX >> 1], 16), Ok((3, 1u64 << 63)));
    assert_eq!(cal_position(&[u64::MAX; 4], 16), Err(()));
}

#[test]
fn cal_position_class_32() {
    assert_eq!(cal_position(&[u64::MAX, 7, 0, 0], 32), Ok((1, 8)));
    assert_eq!(cal_position(&[u64::MAX, u64::MAX, 0, 0], 32), Err(()));
}

#[test]
fn cal_position_class_64() {
    assert_eq!(cal_position(&[u64::MAX >> 1, 0, 0, 0], 64), Ok((0, 1u64 << 63)));
    assert_eq!(cal_position(&[u64::MAX, 0, 0, 0], 64), Err(()));
}

#[test]
fn cal_position_large_classes_limit_first_word() {
    assert_eq!(cal_position(&[0x7FFF_FFFF, 0, 0, 0], 128), Ok((0, 1u64 << 31)));
    assert_eq!(cal_position(&[0xFFFF_FFFF, 0, 0, 0], 128), Err(()));
    assert_eq!(cal_position(&[0x7FFF, 0, 0, 0], 256), Ok((0, 1u64 << 15)));
    assert_eq!(cal_position(&[0xFFFF, 0, 0, 0], 256), Err(()));
    assert_eq!(cal_position(&[0x7F, 0, 0, 0], 512), Ok((0, 128)));
    assert_eq!(cal_position(&[0xFF, 0, 0, 0], 512), Err(()));
    assert_eq!(cal_position(&[0b0111, 0, 0, 0], 1024), Ok((0, 8)));
    assert_eq!(cal_position(&[0b1111, 0, 0, 0], 1024), Err(()));
    assert_eq!(cal_position(&[0b01, 0, 0, 0], 2048), Ok((0, 2)));
    assert_eq!(cal_position(&[0b11, 0, 0, 0], 2048), Err(()));
    assert_eq!(cal_position(&[u64::MAX, 0, 0, 0], 100), Err(()));
    assert_eq!(cal_position(&[u64::MAX >> 1, 0, 0, 0], 100), Ok((0, 1u64 << 63)));
}

#[test]
fn cal_position_irregular_class_with_full_first_word() {
    assert_eq!(cal_position(&[u64::MAX, 0, 0, 0], 8), Ok((0, 0)));
    assert_eq!(cal_position(&[1, 0, 0, 0], 8), Ok((0, 2)));
    assert_eq!(cal_position(&[u64::MAX, 0, 0, 0], 0), Ok((0, 0)));
}

#[test]
fn decal_position_undoes_cal_position() {
    let lists: [[u64; 4]; 4] = [
        [0, 0, 0, 0],
        [0b0111, 0, 0, 0],
        [u64::MAX, u64::MAX, 0b1011, 0],
        [u64::MAX, 0xFFFF_0000_FFFF_FFFF, 0, 0],
    ];
    for arr in lists.iter() {
        for sc in [16usize, 32, 64, 128] {
            if let Ok((pos, t)) = cal_position(arr, sc) {
                let slot = pos * 64 + power_int(t);
                assert_eq!(decal_position(slot, sc), (pos, t));
            }
        }
    }
}
