use pcm_sample::convert_buffer;
use pcm_sample::Float32;
use pcm_sample::FromSample;
use pcm_sample::Sample;
use pcm_sample::SampleFormat;
use pcm_sample::ToF32New;

#[test]
fn sample_size_is_the_width_in_bytes() {
    assert_eq!(SampleFormat::I16.sample_size(), 2);
    assert_eq!(SampleFormat::U16.sample_size(), 2);
    assert_eq!(SampleFormat::F32.sample_size(), 4);
    assert_eq!(SampleFormat::I16.sample_size(), std::mem::size_of::<i16>());
    assert_eq!(SampleFormat::U16.sample_size(), std::mem::size_of::<u16>());
    assert_eq!(SampleFormat::F32.sample_size(), std::mem::size_of::<f32>());
}

#[test]
fn each_sample_type_names_its_format() {
    assert_eq!(<i16 as Sample>::FORMAT, SampleFormat::I16);
    assert_eq!(<u16 as Sample>::FORMAT, SampleFormat::U16);
    assert_eq!(<Float32 as Sample>::FORMAT, SampleFormat::F32);
    assert_ne!(SampleFormat::I16, SampleFormat::U16);
}

#[test]
fn generic_conversion_dispatches_on_the_target() {
    let one = Float32::from_bits(1.0f32.to_bits());
    let minus_half = Float32::from_bits((-0.5f32).to_bits());
    assert_eq!(<i16 as FromSample>::from(&0u16), -32768);
    assert_eq!(<i16 as FromSample>::from(&-5i16), -5);
    assert_eq!(<i16 as FromSample>::from(&one), 32767);
    assert_eq!(<i16 as FromSample>::from(&minus_half), -16384);
    assert_eq!(<u16 as FromSample>::from(&-16384i16), 16384);
    assert_eq!(<u16 as FromSample>::from(&7u16), 7);
    assert_eq!(<u16 as FromSample>::from(&one), 65535);
    assert_eq!(<Float32 as FromSample>::from(&32767i16), one);
    assert_eq!(<Float32 as FromSample>::from(&16384u16), minus_half);
    assert_eq!(<Float32 as FromSample>::from(&minus_half), minus_half);
}

#[test]
fn a_buffer_converts_as_its_samples_do_one_by_one() {
    let input: Vec<i16> = (-32768i32..=32767).step_by(97).map(|v| v as i16).collect();
    let mut unsigned: Vec<u16> = vec![1, 2, 3];
    convert_buffer(&input, &mut unsigned);
    assert_eq!(unsigned.len(), input.len());
    for (i, v) in input.iter().enumerate() {
        assert_eq!(unsigned[i], v.to_u16_mine());
    }
    let mut floats: Vec<Float32> = Vec::new();
    convert_buffer(&unsigned, &mut floats);
    assert_eq!(floats.len(), input.len());
    for (i, v) in unsigned.iter().enumerate() {
        assert_eq!(floats[i], v.to_f32_mine());
    }
    let mut back: Vec<i16> = Vec::new();
    convert_buffer(&floats, &mut back);
    for (i, v) in floats.iter().enumerate() {
        assert_eq!(back[i], v.to_i16_mine());
    }
    let empty: Vec<u16> = Vec::new();
    convert_buffer(&empty, &mut back);
    assert!(back.is_empty());
}

#[test]
fn division_agrees_with_native_arithmetic_everywhere() {
    for v in i16::MIN..=i16::MAX {
        let expected: f32 = if v > 0 {
            v as f32 / i16::MAX as f32
        } else {
            v as f32 / -(i16::MIN as f32)
        };
        assert_eq!(v.to_f32_new().to_bits(), expected.to_bits(), "at {}", v);
    }
}

#[test]
fn division_maps_the_ends_of_the_range_to_one() {
    assert_eq!(f32::from_bits(32767i16.to_f32_new().to_bits()), 1.0);
    assert_eq!(f32::from_bits((-32768i16).to_f32_new().to_bits()), -1.0);
    assert_eq!(0i16.to_f32_new().to_bits(), 0);
    assert_eq!(f32::from_bits((-16384i16).to_f32_new().to_bits()), -0.5);
    // 1 / 32767 rounds to 32769 / 2^30
    assert_eq!(1i16.to_f32_new().to_bits(), 0x3800_0100);
}
