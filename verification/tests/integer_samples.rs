use pcm_sample::Sample;

#[test]
fn i16_to_i16() {
    assert_eq!(0i16.to_i16_mine(), 0);
    assert_eq!((-467i16).to_i16_mine(), -467);
    assert_eq!(32767i16.to_i16_mine(), 32767);
    assert_eq!((-32768i16).to_i16_mine(), -32768);
}

#[test]
fn i16_to_u16() {
    assert_eq!(0i16.to_u16_mine(), 32768);
    assert_eq!((-16384i16).to_u16_mine(), 16384);
    assert_eq!(32767i16.to_u16_mine(), 65535);
    assert_eq!((-32768i16).to_u16_mine(), 0);
}

#[test]
fn u16_to_i16() {
    assert_eq!(32768u16.to_i16_mine(), 0);
    assert_eq!(16384u16.to_i16_mine(), -16384);
    assert_eq!(65535u16.to_i16_mine(), 32767);
    assert_eq!(0u16.to_i16_mine(), -32768);
}

#[test]
fn u16_to_u16() {
    assert_eq!(0u16.to_u16_mine(), 0);
    assert_eq!(467u16.to_u16_mine(), 467);
    assert_eq!(32767u16.to_u16_mine(), 32767);
    assert_eq!(65535u16.to_u16_mine(), 65535);
}

#[test]
fn signed_round_trip_over_the_whole_range() {
    for v in i16::MIN..=i16::MAX {
        assert_eq!(v.to_u16_mine().to_i16_mine(), v);
    }
}

#[test]
fn unsigned_round_trip_over_the_whole_range() {
    for v in u16::MIN..=u16::MAX {
        assert_eq!(v.to_i16_mine().to_u16_mine(), v);
    }
}

#[test]
fn same_format_is_identity_over_the_whole_range() {
    for v in i16::MIN..=i16::MAX {
        assert_eq!(v.to_i16_mine(), v);
    }
    for v in u16::MIN..=u16::MAX {
        assert_eq!(v.to_u16_mine(), v);
    }
}

#[test]
fn integer_conversions_keep_the_order_of_values() {
    for v in i16::MIN..i16::MAX {
        assert!(v.to_u16_mine() < (v + 1).to_u16_mine());
    }
    for v in u16::MIN..u16::MAX {
        assert!(v.to_i16_mine() < (v + 1).to_i16_mine());
    }
}

#[test]
fn wraparound_moves_each_half_of_the_range_to_the_other() {
    assert_eq!((-1i16).to_u16_mine(), 32767);
    assert_eq!(1i16.to_u16_mine(), 32769);
    assert_eq!(32767u16.to_i16_mine(), -1);
    assert_eq!(32769u16.to_i16_mine(), 1);
}
