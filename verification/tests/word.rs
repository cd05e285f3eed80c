use compacts_bits::word::{count_ones, le8, lt8, select0, select1};

fn scan_select1(x: u64, c: u32) -> Option<u32> {
    let mut seen = 0;
    for i in 0..64 {
        if (x >> i) & 1 == 1 {
            if seen == c {
                return Some(i);
            }
            seen += 1;
        }
    }
    None
}

fn samples() -> Vec<u64> {
    let mut v = vec![
        0,
        1,
        2,
        3,
        0x80,
        0xFF,
        0x100,
        0x8000_0000_0000_0000,
        0xFFFF_FFFF_FFFF_FFFF,
        0xAAAA_AAAA_AAAA_AAAA,
        0x5555_5555_5555_5555,
        0x0123_4567_89AB_CDEF,
        0xF0F0_F0F0_0F0F_0F0F,
        0x8040_2010_0804_0201,
    ];
    let mut x: u64 = 0x9E37_79B9_7F4A_7C15;
    for _ in 0..200 {
        x ^= x << 13;
        x ^= x >> 7;
        x ^= x << 17;
        v.push(x);
        v.push(x & (x >> 3) & (x << 5));
        v.push(x | (x >> 1) | (x << 2));
    }
    v
}

#[test]
fn count_ones_matches_the_machine() {
    for x in samples() {
        assert_eq!(count_ones(x), x.count_ones());
    }
    assert_eq!(count_ones(0), 0);
    assert_eq!(count_ones(u64::MAX), 64);
    assert_eq!(count_ones(0b1011), 3);
}

#[test]
fn select1_matches_a_scan_over_the_bits() {
    for x in samples() {
        for c in 0..70 {
            assert_eq!(select1(x, c), scan_select1(x, c), "x = {:#x}, c = {}", x, c);
        }
    }
}

#[test]
fn select0_is_select1_of_the_complement() {
    for x in samples() {
        for c in 0..70 {
            assert_eq!(select0(x, c), scan_select1(!x, c), "x = {:#x}, c = {}", x, c);
        }
    }
}

#[test]
fn select_on_the_empty_and_the_full_word() {
    assert_eq!(select1(0, 0), None);
    assert_eq!(select0(u64::MAX, 0), None);
    for c in 0..64 {
        assert_eq!(select1(u64::MAX, c), Some(c));
        assert_eq!(select0(0, c), Some(c));
    }
    assert_eq!(select1(u64::MAX, 64), None);
    assert_eq!(select0(0, 64), None);
    assert_eq!(select1(u64::MAX, u32::MAX), None);
}

#[test]
fn select1_exact_positions() {
    assert_eq!(select1(0b1011_0100, 0), Some(2));
    assert_eq!(select1(0b1011_0100, 1), Some(4));
    assert_eq!(select1(0b1011_0100, 2), Some(5));
    assert_eq!(select1(0b1011_0100, 3), Some(7));
    assert_eq!(select1(0b1011_0100, 4), None);
    assert_eq!(select1(1 << 63, 0), Some(63));
    assert_eq!(select0(0b1011_0100, 0), Some(0));
    assert_eq!(select0(0b1011_0100, 2), Some(3));
}

#[test]
fn le8_compares_bytes_with_equal_top_bits() {
    let x = 0x01_02_03_04_05_06_07_08u64;
    let y = 0x01_01_04_04_06_05_07_7fu64;
    assert_eq!(le8(x, y), 0x80_00_80_80_80_00_80_80);
    assert_eq!(lt8(x, y), 0x00_00_80_00_80_00_00_80);
    assert_eq!(le8(0, 0), 0x8080_8080_8080_8080);
    assert_eq!(lt8(0, 0), 0);
}

#[test]
fn le8_with_different_top_bits_orders_the_low_bits_in_reverse() {
    // 0x05 against 0x83: the low bits are 5 and 3, and 3 < 5
    assert_eq!(le8(0x05, 0x83) & 0x80, 0x80);
    // 0x03 against 0x85: the low bits are 3 and 5
    assert_eq!(le8(0x03, 0x85) & 0x80, 0);
    assert_eq!(lt8(0x05, 0x83) & 0x80, 0x80);
    assert_eq!(lt8(0x03, 0x85) & 0x80, 0);
    assert_eq!(lt8(0x00, 0x80) & 0x80, 0x80);
}

#[test]
fn rank_of_select_is_the_ordinal_in_a_word() {
    for x in samples() {
        for c in 0..64 {
            if let Some(p) = select1(x, c) {
                let below = x & ((1u64 << p) - 1);
                assert_eq!(count_ones(below), c);
                assert_eq!((x >> p) & 1, 1);
            } else {
                assert!(c >= count_ones(x));
            }
        }
    }
}
