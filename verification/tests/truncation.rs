use crypto_primitives::gadgets::widths_supported;
use crypto_primitives::truncation::{compute_truncation_size, e_bits_to_skip, s_bits_to_skip};

#[test]
fn truncation_size_wider_source() {
    assert_eq!(compute_truncation_size(255, 253), 3);
    assert_eq!(compute_truncation_size(753, 298), 456);
}

#[test]
fn truncation_size_equal_widths() {
    assert_eq!(compute_truncation_size(753, 753), 1);
    assert_eq!(compute_truncation_size(0, 0), 1);
}

#[test]
fn truncation_size_narrower_source() {
    assert_eq!(compute_truncation_size(252, 255), 0);
    assert_eq!(compute_truncation_size(-5, 7), 0);
}

#[test]
fn truncation_size_negative_difference_extremes() {
    assert_eq!(compute_truncation_size(i32::MAX - 1, 0), i32::MAX as usize);
    assert_eq!(compute_truncation_size(i32::MIN, -1), 0);
}

#[test]
fn mnt_widths_skip_one_bit_of_each() {
    // MNT4-753 circuit field with the MNT6-753 G1 scalar field: equal widths.
    assert_eq!(e_bits_to_skip(753, 753), 1);
    assert_eq!(s_bits_to_skip(753, 753), (0, 1));
}

#[test]
fn bls_jubjub_widths() {
    // BLS12-381 scalar field (255 bits) with the JubJub scalar field (252 bits).
    assert_eq!(e_bits_to_skip(255, 252), 4);
    assert_eq!(s_bits_to_skip(255, 252), (3, 3));
    // 255 - 4 = 251 = min(255, 252 - 1) bits of e are kept, 255 - 3 = 252 of s.
    assert_eq!(255 - e_bits_to_skip(255, 252), 251);
    assert_eq!(255 - s_bits_to_skip(255, 252).1, 252);
}

#[test]
fn narrower_circuit_field_widths() {
    assert_eq!(e_bits_to_skip(250, 255), 0);
    assert_eq!(s_bits_to_skip(250, 255), (0, 6));
}

#[test]
fn widths_supported_bounds() {
    assert!(widths_supported(255, 252));
    assert!(widths_supported(753, 753));
    assert!(!widths_supported(1 << 31, 252));
    assert!(!widths_supported(0x7fff_ffff, 0));
    // s would need 6 of 5 bits dropped.
    assert!(!widths_supported(5, 10));
    // e would need 1 of 0 bits dropped.
    assert!(!widths_supported(0, 0));
}

#[test]
fn kept_bits_are_min_of_widths() {
    for from in 0..40i32 {
        for to in 0..40i32 {
            let kept = from - compute_truncation_size(from, to) as i32;
            assert_eq!(kept, from.min(to - 1));
            assert!(kept < to);
        }
    }
}

#[test]
fn s_bits_match_asserted_length_when_field_not_narrower() {
    for field in 1..40usize {
        for scalar in 1..40usize {
            if !widths_supported(field, scalar) {
                continue;
            }
            let (init, skip) = s_bits_to_skip(field, scalar);
            let kept = field - skip;
            assert_eq!(kept == scalar + init - skip, field >= scalar);
            if field >= scalar {
                assert_eq!(kept, scalar.min(field - 1));
            }
        }
    }
}
