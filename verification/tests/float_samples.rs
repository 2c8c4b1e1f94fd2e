use pcm_sample::Float32;
use pcm_sample::Sample;

fn native_signed_to_float(v: i16) -> f32 {
    let positive: f32 = 1.0 / i16::MAX as f32;
    let negative: f32 = 1.0 / -(i16::MIN as f32);
    let offset: f32 = negative - positive;
    let sign_bit = (v as u16 >> 15) as f32;
    let multiplier = offset.mul_add(sign_bit, positive);
    v as f32 * multiplier
}

fn native_float_to_signed(x: f32) -> i16 {
    (x * (u16::MAX as f32 * 0.5)).floor() as i16
}

fn native_float_to_unsigned(x: f32) -> u16 {
    let half_range: f32 = u16::MAX as f32 * 0.5;
    x.mul_add(half_range, half_range).round() as u16
}

fn float(x: f32) -> Float32 {
    Float32::from_bits(x.to_bits())
}

fn native(x: Float32) -> f32 {
    f32::from_bits(x.to_bits())
}

#[test]
fn signed_to_float_agrees_with_native_arithmetic_everywhere() {
    for v in i16::MIN..=i16::MAX {
        let expected = native_signed_to_float(v);
        assert_eq!(v.to_f32_mine().to_bits(), expected.to_bits(), "at {}", v);
    }
}

#[test]
fn unsigned_to_float_agrees_with_native_arithmetic_everywhere() {
    for v in u16::MIN..=u16::MAX {
        let signed = (v as i16).wrapping_add(i16::MIN);
        let expected = native_signed_to_float(signed);
        assert_eq!(v.to_f32_mine().to_bits(), expected.to_bits(), "at {}", v);
    }
}

#[test]
fn float_to_signed_agrees_with_native_arithmetic_on_a_sweep() {
    let mut bits: u32 = 0;
    loop {
        let x = f32::from_bits(bits);
        let expected = native_float_to_signed(x);
        assert_eq!(Float32::from_bits(bits).to_i16_mine(), expected, "at {:#x}", bits);
        match bits.checked_add(7919) {
            Some(next) => bits = next,
            None => break,
        }
    }
}

#[test]
fn float_to_signed_agrees_with_native_arithmetic_below_one() {
    for sign in [0u32, 0x8000_0000] {
        for magnitude in 0x3700_0000u32..0x3f80_0100 {
            if magnitude % 3 != 0 && magnitude < 0x3f00_0000 {
                continue;
            }
            let bits = sign | magnitude;
            let x = f32::from_bits(bits);
            let expected = native_float_to_signed(x);
        assert_eq!(Float32::from_bits(bits).to_i16_mine(), expected, "at {:#x}", bits);
        }
    }
}

#[test]
fn float_to_unsigned_agrees_with_native_arithmetic_on_a_sweep() {
    let mut bits: u32 = 0;
    loop {
        let x = f32::from_bits(bits);
        let expected = native_float_to_unsigned(x);
        assert_eq!(Float32::from_bits(bits).to_u16_mine(), expected, "at {:#x}", bits);
        match bits.checked_add(7919) {
            Some(next) => bits = next,
            None => break,
        }
    }
}

#[test]
fn float_to_unsigned_agrees_with_native_arithmetic_below_one() {
    for sign in [0u32, 0x8000_0000] {
        for magnitude in 0x3200_0000u32..0x3f80_0100 {
            if magnitude % 5 != 0 && magnitude < 0x3f00_0000 {
                continue;
            }
            let bits = sign | magnitude;
            let x = f32::from_bits(bits);
            let expected = native_float_to_unsigned(x);
        assert_eq!(Float32::from_bits(bits).to_u16_mine(), expected, "at {:#x}", bits);
        }
    }
}

#[test]
fn i16_to_f32() {
    assert_eq!(native(0i16.to_f32_mine()), 0.0);
    assert_eq!(native((-16384i16).to_f32_mine()), -0.5);
    assert_eq!(native(32767i16.to_f32_mine()), 1.0);
    assert_eq!(native((-32768i16).to_f32_mine()), -1.0);
}

#[test]
fn u16_to_f32() {
    assert_eq!(native(0u16.to_f32_mine()), -1.0);
    assert_eq!(native(32768u16.to_f32_mine()), 0.0);
    assert_eq!(native(65535u16.to_f32_mine()), 1.0);
}

#[test]
fn f32_to_i16() {
    assert_eq!(float(0.0f32).to_i16_mine(), 0);
    assert_eq!(float(-0.5f32).to_i16_mine(), i16::MIN / 2);
    assert_eq!(float(1.0f32).to_i16_mine(), i16::MAX);
    assert_eq!(float(-1.0f32).to_i16_mine(), i16::MIN);
}

#[test]
fn f32_to_u16() {
    assert_eq!(float(-1.0f32).to_u16_mine(), 0);
    assert_eq!(float(0.0f32).to_u16_mine(), 32768);
    assert_eq!(float(1.0f32).to_u16_mine(), 65535);
}

#[test]
fn f32_to_f32() {
    assert_eq!(native(float(0.1f32).to_f32_mine()), 0.1);
    assert_eq!(native(float(-0.7f32).to_f32_mine()), -0.7);
    assert_eq!(native(float(1.0f32).to_f32_mine()), 1.0);
}

#[test]
fn float_to_signed_multiplies_by_half_the_unsigned_range_and_takes_the_floor() {
    // 0.25 * 32767.5 = 8191.875
    assert_eq!(float(0.25).to_i16_mine(), 8191);
    assert_eq!(float(-0.25).to_i16_mine(), -8192);
    // 2^-15 * 32767.5 is just below 1
    assert_eq!(float(3.0517578125e-5).to_i16_mine(), 0);
    assert_eq!(float(-3.0517578125e-5).to_i16_mine(), -1);
    assert_eq!(float(0.999_999_94).to_i16_mine(), 32767);
    assert_eq!(float(-0.999_999_94).to_i16_mine(), -32768);
}

#[test]
fn float_to_unsigned_multiplies_adds_and_rounds() {
    // 0.25 * 32767.5 + 32767.5 = 40959.375
    assert_eq!(float(0.25).to_u16_mine(), 40959);
    // -0.25 * 32767.5 + 32767.5 = 24575.625
    assert_eq!(float(-0.25).to_u16_mine(), 24576);
    // 0.5 * 32767.5 + 32767.5 = 49151.25
    assert_eq!(float(0.5).to_u16_mine(), 49151);
    // The smallest step below 32767.5 that binary32 has rounds down.
    assert_eq!(float(-1.0e-7).to_u16_mine(), 32767);
    assert_eq!(float(1.0e-7).to_u16_mine(), 32768);
}

#[test]
fn floats_outside_the_nominal_range_saturate() {
    assert_eq!(float(2.0).to_i16_mine(), 32767);
    assert_eq!(float(-2.0).to_i16_mine(), -32768);
    assert_eq!(float(1.0e30).to_i16_mine(), 32767);
    assert_eq!(float(-1.0e30).to_i16_mine(), -32768);
    assert_eq!(float(f32::MAX).to_i16_mine(), 32767);
    assert_eq!(float(f32::MIN).to_i16_mine(), -32768);
    assert_eq!(float(2.0).to_u16_mine(), 65535);
    assert_eq!(float(-2.0).to_u16_mine(), 0);
    assert_eq!(float(1.0e30).to_u16_mine(), 65535);
    assert_eq!(float(-1.0e30).to_u16_mine(), 0);
    assert_eq!(float(1.000_1).to_u16_mine(), 65535);
    assert_eq!(float(-1.000_1).to_u16_mine(), 0);
}

#[test]
fn infinities_saturate_and_nan_gives_zero() {
    assert_eq!(float(f32::INFINITY).to_i16_mine(), 32767);
    assert_eq!(float(f32::NEG_INFINITY).to_i16_mine(), -32768);
    assert_eq!(float(f32::INFINITY).to_u16_mine(), 65535);
    assert_eq!(float(f32::NEG_INFINITY).to_u16_mine(), 0);
    assert_eq!(float(f32::NAN).to_i16_mine(), 0);
    assert_eq!(float(f32::NAN).to_u16_mine(), 0);
    assert_eq!(Float32::from_bits(0xffff_ffff).to_i16_mine(), 0);
    assert_eq!(Float32::from_bits(0x7f80_0001).to_u16_mine(), 0);
}

#[test]
fn zeros_and_subnormals_become_silence() {
    assert_eq!(float(-0.0).to_i16_mine(), 0);
    assert_eq!(float(-0.0).to_u16_mine(), 32768);
    assert_eq!(Float32::from_bits(1).to_i16_mine(), 0);
    assert_eq!(Float32::from_bits(0x8000_0001).to_i16_mine(), -1);
    assert_eq!(Float32::from_bits(1).to_u16_mine(), 32768);
    assert_eq!(Float32::from_bits(0x8000_0001).to_u16_mine(), 32768);
    assert_eq!(float(f32::MIN_POSITIVE).to_i16_mine(), 0);
    assert_eq!(float(-f32::MIN_POSITIVE).to_i16_mine(), -1);
}

#[test]
fn signed_to_float_has_the_expected_bit_patterns() {
    assert_eq!(0i16.to_f32_mine().to_bits(), 0);
    // 32769 / 2^30
    assert_eq!(1i16.to_f32_mine().to_bits(), 0x3800_0100);
    // -1 / 2^15
    assert_eq!((-1i16).to_f32_mine().to_bits(), 0xb800_0000);
    assert_eq!(32767i16.to_f32_mine().to_bits(), 0x3f80_0000);
    assert_eq!((-32768i16).to_f32_mine().to_bits(), 0xbf80_0000);
    assert_eq!(native(16384i16.to_f32_mine()), 16384.0 * (32769.0 / 1073741824.0));
}

#[test]
fn float_identity_keeps_every_bit() {
    let patterns =
        [0u32, 0x8000_0000, 1, 0x7f80_0000, 0xff80_0000, 0x7fc0_0000, 0xffff_ffff, 0x3dcc_cccd];
    for bits in patterns {
        assert_eq!(Float32::from_bits(bits).to_f32_mine().to_bits(), bits);
        assert_eq!(Float32::from_bits(bits).to_f32_mine(), Float32::from_bits(bits));
    }
}

#[test]
fn float_conversions_keep_the_order_of_values() {
    let mut previous_signed = i16::MIN;
    let mut previous_unsigned = u16::MIN;
    let mut x = -1.5f32;
    while x <= 1.5 {
        let signed = float(x).to_i16_mine();
        let unsigned = float(x).to_u16_mine();
        assert!(previous_signed <= signed, "at {}", x);
        assert!(previous_unsigned <= unsigned, "at {}", x);
        previous_signed = signed;
        previous_unsigned = unsigned;
        x += 0.000_123;
    }
    let mut previous = f32::NEG_INFINITY;
    for v in i16::MIN..=i16::MAX {
        let now = native(v.to_f32_mine());
        assert!(previous <= now, "at {}", v);
        previous = now;
    }
    let mut previous = f32::NEG_INFINITY;
    for v in u16::MIN..=u16::MAX {
        let now = native(v.to_f32_mine());
        assert!(previous <= now, "at {}", v);
        previous = now;
    }
}
