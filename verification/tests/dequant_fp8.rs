use rsllm::gguf::dequant::fp8_e4m3;

fn fp8_e4m3_to_f32(byte: u8) -> f32 {
    f32::from_bits(fp8_e4m3::fp8_e4m3_to_f32(byte))
}

fn f32_to_fp8_e4m3(value: f32) -> u8 {
    fp8_e4m3::f32_to_fp8_e4m3(value.to_bits())
}


#[test]
fn zero_round_trip() {
    assert_eq!(fp8_e4m3_to_f32(0x00), 0.0);
    assert_eq!(fp8_e4m3_to_f32(0x80), -0.0);
    assert_eq!(f32_to_fp8_e4m3(0.0), 0x00);
    assert_eq!(f32_to_fp8_e4m3(-0.0), 0x80);
}

#[test]
fn small_normal_values() {
    // 1.0 = (1 + 0/8) * 2^0 → exp = 7, mantissa = 0 → S=0, E=7, M=0 → 0b0_0111_000 = 0x38
    assert_eq!(f32_to_fp8_e4m3(1.0), 0x38);
    assert_eq!(fp8_e4m3_to_f32(0x38), 1.0);

    // 2.0 = (1 + 0/8) * 2^1 → E = 8 → 0b0_1000_000 = 0x40
    assert_eq!(f32_to_fp8_e4m3(2.0), 0x40);
    assert_eq!(fp8_e4m3_to_f32(0x40), 2.0);

    // -1.0
    assert_eq!(f32_to_fp8_e4m3(-1.0), 0xB8);
    assert_eq!(fp8_e4m3_to_f32(0xB8), -1.0);

    // 1.5 = (1 + 4/8) * 2^0 → E = 7, M = 4 → 0b0_0111_100 = 0x3C
    assert_eq!(f32_to_fp8_e4m3(1.5), 0x3C);
    assert_eq!(fp8_e4m3_to_f32(0x3C), 1.5);
}

#[test]
fn max_normal_saturates() {
    // 448 = (1 + 6/8) * 2^8 → S=0, E=15, M=6 → 0b0_1111_110 = 0x7E
    assert_eq!(f32_to_fp8_e4m3(448.0), 0x7E);
    assert_eq!(fp8_e4m3_to_f32(0x7E), 448.0);

    // Anything above saturates.
    assert_eq!(f32_to_fp8_e4m3(1000.0), 0x7E);
    assert_eq!(f32_to_fp8_e4m3(-1000.0), 0xFE);
}

#[test]
fn nan_handling() {
    assert!(fp8_e4m3_to_f32(0x7F).is_nan()); // S.1111.111
    assert!(fp8_e4m3_to_f32(0xFF).is_nan());
    assert_eq!(f32_to_fp8_e4m3(f32::NAN), 0xFF);
}

#[test]
fn subnormal_values() {
    // Smallest positive subnormal: M=1, E=0 → 2^-9 = 1/512 ≈ 0.001953125
    let v = fp8_e4m3_to_f32(0x01);
    assert!((v - (1.0 / 512.0)).abs() < 1e-8);
    // Round-trip
    assert_eq!(f32_to_fp8_e4m3(1.0 / 512.0), 0x01);

    // Largest subnormal: M=7, E=0 → 7/512 ≈ 0.013671875
    let v = fp8_e4m3_to_f32(0x07);
    assert!((v - (7.0 / 512.0)).abs() < 1e-8);
}

#[test]
fn round_trip_all_256_codes() {
    // For every E4M3 bit pattern, decode-then-encode must reproduce the
    // original (except for NaN encodings, which all canonicalize).
    for byte in 0..=255u8 {
        let v = fp8_e4m3_to_f32(byte);
        if v.is_nan() {
            // NaN canonicalizes to 0xFF (positive NaN), not whatever
            // bit pattern decoded to NaN.
            let re = f32_to_fp8_e4m3(v);
            assert!(re == 0xFF, "NaN re-encode: got 0x{re:02x}, want 0xFF");
        } else {
            let re = f32_to_fp8_e4m3(v);
            assert_eq!(
                re, byte,
                "byte 0x{byte:02x} -> f32 {v} -> 0x{re:02x}, want 0x{byte:02x}"
            );
        }
    }
}

#[test]
fn out_of_range_clamps() {
    // Tiny positive: smaller than smallest subnormal → 0
    assert_eq!(f32_to_fp8_e4m3(1e-10), 0x00);
    // Tiny negative
    assert_eq!(f32_to_fp8_e4m3(-1e-10), 0x80);
}

#[test]
fn ties_go_to_the_even_code() {
    for code in 0x00..0x7Eu8 {
        let (a, b) = (fp8_e4m3_to_f32(code), fp8_e4m3_to_f32(code + 1));
        let even = if code % 2 == 0 { code } else { code + 1 };
        let middle = (a + b) / 2.0;
        assert_eq!(f32_to_fp8_e4m3(middle), even);
        assert_eq!(f32_to_fp8_e4m3(f32::from_bits(middle.to_bits() + 1)), code + 1);
        assert_eq!(f32_to_fp8_e4m3(f32::from_bits(middle.to_bits() - 1)), code);
    }
}
