use ghostframe_transport::bwe::timeline::{Lo16Timeline, Lo32Timeline, HALF_PERIOD, PERIOD};

#[test]
fn first_sample_anchors_without_jumping() {
    let mut t = Lo32Timeline::default();
    assert_eq!(t.unwrap_us(5_000), 5_000);
}

#[test]
fn monotonic_within_a_wrap_period() {
    let mut t = Lo32Timeline::default();
    assert_eq!(t.unwrap_us(1_000_000), 1_000_000);
    assert_eq!(t.unwrap_us(2_000_000), 2_000_000);
    assert_eq!(t.unwrap_us(1_000_000_000), 1_000_000_000);
    assert_eq!(t.unwrap_us(2_000_000_000), 2_000_000_000);
}

#[test]
fn carries_across_a_wrap() {
    let mut t = Lo32Timeline::default();
    let near_top = u32::MAX as u64 - 1_000;
    assert_eq!(t.unwrap_us(near_top as u32), near_top);
    assert_eq!(t.unwrap_us(999), near_top + 2_000);
    assert_eq!(t.unwrap_us(1_999), near_top + 3_000);
}

#[test]
fn small_backward_step_stays_backward_not_wrapped() {
    let mut t = Lo32Timeline::default();
    assert_eq!(t.unwrap_us(10_000), 10_000);
    assert_eq!(t.unwrap_us(9_950), 9_950);
}

#[test]
fn many_consecutive_wraps_stay_monotonic() {
    let mut t = Lo32Timeline::default();
    let mut expected: u64 = 0;
    for step in 0..1_000u64 {
        expected = step * 500_000_000;
        let lo32 = (expected % (1u64 << 32)) as u32;
        assert_eq!(t.unwrap_us(lo32), expected, "diverged at step {step}");
    }
    assert_eq!(expected, 499_500_000_000);
}

#[test]
fn a_gap_over_half_a_period_resolves_backward_by_design() {
    let mut t = Lo32Timeline::default();
    assert_eq!(t.unwrap_us(2_000), 2_000);
    assert_eq!(t.unwrap_us(2_200_000_000), 0);
}

#[test]
fn the_zero_floor_does_not_corrupt_stored_state() {
    let mut t = Lo32Timeline::default();
    assert_eq!(t.unwrap_us(100), 100);
    assert_eq!(t.unwrap_us((PERIOD as u32).wrapping_sub(36)), 0);
    assert_eq!(t.unwrap_us((HALF_PERIOD - 14) as u32), 0);
}

#[test]
fn microsecond_timeline_unwraps_across_a_32_bit_wrap() {
    let mut t = Lo32Timeline::default();
    let near_top = u32::MAX as u64 - 1_000;
    assert_eq!(t.unwrap_us(near_top as u32), near_top);
    assert_eq!(t.unwrap_us(999), near_top + 2_000);
}

#[test]
fn an_overlap_entry_behind_the_base_stays_behind_it() {
    let mut t = Lo32Timeline::default();
    assert_eq!(t.unwrap_us(5_000), 5_000);
    assert_eq!(t.unwrap_us(4_000), 4_000);
}

#[test]
fn a_backward_step_across_the_wrap_reads_as_earlier() {
    let mut t = Lo32Timeline::default();
    assert_eq!(t.unwrap_us(1_000), 1_000);
    let before_wrap = u32::MAX;
    let got = t.unwrap_us(before_wrap);
    assert!(got < 1_000, "expected a value before 1_000us, got {got}");
}

#[test]
fn a_long_ascending_series_stays_monotonic_across_several_wraps() {
    let mut t = Lo32Timeline::default();
    let mut last = t.unwrap_us(0);
    for i in 1..=10u64 {
        let raw = (i.wrapping_mul(2_000_000_000)) as u32;
        let got = t.unwrap_us(raw);
        assert!(got > last, "step {i} went backwards: {last} -> {got}");
        last = got;
    }
}

#[test]
fn sixteen_bit_samples_unwrap_like_the_wider_ones() {
    let mut t = Lo16Timeline::default();
    assert_eq!(t.unwrap_ms(65_000), 65_000);
    assert_eq!(t.unwrap_ms(100), 65_636);
    assert_eq!(t.unwrap_ms(65_500), 65_500);
}
