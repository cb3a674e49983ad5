use eup_resizer::bytes::{put, to_le, u16_le, u32_le, u64_le};
use eup_resizer::resizer_state::percent_example;
use eup_resizer::scale::{scale_side, to_double};
use eup_resizer::sizes::human_size;

fn scaled_by_float(side: u32, a: u32, b: u32) -> u32 {
    let scale = a as f64 / b as f64;
    ((side as f64) * scale).round() as u32
}

#[test]
fn scaling_agrees_with_doubles() {
    for side in [0u32, 1, 2, 3, 4, 5, 63, 64, 100, 511, 512, 1000, 2047, 4096, 65535] {
        for a in [0u32, 1, 3, 7, 50, 99, 100, 256, 511, 1000, 1024, 8191, 4294967295] {
            for b in [1u32, 2, 3, 7, 49, 100, 1023, 1025, 2048, 65535] {
                assert_eq!(
                    scale_side(side, a, b),
                    scaled_by_float(side, a, b),
                    "{side} * {a} / {b}"
                );
            }
        }
    }
    let mut seed = 0x2545F491u32;
    for _ in 0..20000 {
        seed = seed.wrapping_mul(1664525).wrapping_add(1013904223);
        let side = seed >> 16;
        seed = seed.wrapping_mul(1664525).wrapping_add(1013904223);
        let a = seed >> 14;
        seed = seed.wrapping_mul(1664525).wrapping_add(1013904223);
        let b = (seed >> 15) + 1;
        assert_eq!(scale_side(side, a, b), scaled_by_float(side, a, b));
    }
}

#[test]
fn scaling_has_exact_values() {
    assert_eq!(scale_side(2048, 50, 100), 1024);
    assert_eq!(scale_side(1000, 1024, 2048), 500);
    assert_eq!(scale_side(3, 50, 100), 2);
    assert_eq!(scale_side(1, 49, 100), 0);
    assert_eq!(scale_side(65535, u32::MAX, 1), u32::MAX);
}

#[test]
fn longer_sides_scale_to_longer_ones() {
    for (a, b) in [(1024u32, 4096u32), (33, 100), (7, 65535)] {
        let mut last = 0;
        for side in 0..5000u32 {
            let next = scale_side(side, a, b);
            assert!(last <= next);
            last = next;
        }
    }
}

#[test]
fn a_scaled_side_stays_within_the_cap() {
    for longest in [5u32, 100, 1025, 4097, 65535] {
        for cap in 1..longest.min(3000) {
            assert!(scale_side(longest, cap, longest) <= cap);
        }
    }
}

#[test]
fn large_integers_round_like_doubles() {
    for n in [
        0u64,
        1,
        1 << 53,
        (1 << 53) + 1,
        (1 << 53) + 3,
        (1 << 60) + 65,
        u64::MAX - 1024,
        u64::MAX - 1023,
        u64::MAX,
    ] {
        assert_eq!(to_double(n), n as f64 as u128, "{n}");
    }
}

fn size_by_float(bytes: u64) -> String {
    const UNITS: [&str; 5] = ["B", "KB", "MB", "GB", "TB"];
    let mut size = bytes as f64;
    let mut unit = 0;
    while size >= 1024.0 && unit < UNITS.len() - 1 {
        size /= 1024.0;
        unit += 1;
    }
    format!("{size:.1} {}", UNITS[unit])
}

#[test]
fn sizes_are_shown_in_their_largest_unit() {
    assert_eq!(human_size(0), "0.0 B");
    assert_eq!(human_size(1023), "1023.0 B");
    assert_eq!(human_size(1024), "1.0 KB");
    assert_eq!(human_size(1280), "1.2 KB");
    assert_eq!(human_size(1792), "1.8 KB");
    assert_eq!(human_size(1048575), "1024.0 KB");
    assert_eq!(human_size(5 * 1024 * 1024 * 1024 * 1024), "5.0 TB");
}

#[test]
fn sizes_agree_with_doubles() {
    let mut seed = 88172645463325252u64;
    for i in 0..20000u32 {
        seed ^= seed << 13;
        seed ^= seed >> 7;
        seed ^= seed << 17;
        let bytes = seed >> (i % 64);
        assert_eq!(human_size(bytes), size_by_float(bytes), "{bytes}");
    }
    for bytes in 0..5000u64 {
        assert_eq!(human_size(bytes), size_by_float(bytes), "{bytes}");
    }
    assert_eq!(human_size(u64::MAX), size_by_float(u64::MAX));
}

#[test]
fn the_percentage_example_agrees_with_doubles() {
    for percent in (0..2000u32).chain([1 << 20, 4000000000, u32::MAX]) {
        let expected = (2048.0 * percent as f64 / 100.0).round() as u32;
        assert_eq!(percent_example(percent), expected, "{percent}");
    }
    assert_eq!(percent_example(33), 676);
}

#[test]
fn numbers_are_read_from_little_endian_bytes() {
    let b = [0x01u8, 0x02, 0x03, 0x04, 0x05, 0x06, 0x07, 0x88];
    assert_eq!(u16_le(&b, 1), 0x0302);
    assert_eq!(u32_le(&b, 2), 0x06050403);
    assert_eq!(u64_le(&b, 0), 0x8807060504030201);
}

#[test]
fn numbers_are_read_back_from_their_bytes() {
    for v in [0u64, 1, 0xff, 0x1234, 0xdead_beef, u64::MAX] {
        assert_eq!(to_le(v, 8), v.to_le_bytes().to_vec());
        assert_eq!(u64_le(&to_le(v, 8), 0), v);
    }
    assert_eq!(to_le(0x1234_5678, 2), vec![0x78, 0x56]);
    let mut bytes = vec![9u8; 6];
    put(&mut bytes, 2, &to_le(0x0102, 2));
    assert_eq!(bytes, vec![9, 9, 2, 1, 9, 9]);
}

#[test]
fn a_scaled_side_loses_no_more_than_the_whole() {
    for (a, b) in [(1021u32, 1024u32), (1, 2), (999, 1000), (65534, 65535), (3, 65535)] {
        for side in (0..=b).step_by(7) {
            assert!(scale_side(side, a, b) + (b - a) >= side);
        }
        assert_eq!(scale_side(b, a, b), a);
    }
}
