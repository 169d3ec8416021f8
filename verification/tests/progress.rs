use massif::progress::{
    build_stage, count_unit, format_duration, generate_stage, weighted_position, CountUnit,
    SingleProgress, PROGRESS_SCALE,
};

#[test]
fn positions_are_shares_of_a_weight() {
    assert_eq!(weighted_position(1, 3, 10_000), 3_333);
    assert_eq!(weighted_position(2, 3, 9_000), 6_000);
    assert_eq!(weighted_position(0, 3, 9_000), 0);
    assert_eq!(weighted_position(3, 3, 9_000), 9_000);
    assert_eq!(weighted_position(7, 3, 9_000), 9_000);
    assert_eq!(weighted_position(7, 3, 0), 0);
    assert_eq!(weighted_position(5, 0, 9_000), 0);
    assert_eq!(weighted_position(u64::MAX, u64::MAX, 10_000), 10_000);
    assert_eq!(weighted_position(u64::MAX - 1, u64::MAX, 10_000), 9_999);
}

#[test]
fn pmtiles_generation_takes_nine_tenths() {
    let mut p = SingleProgress::pmtiles(200);
    assert_eq!(p.position(), 0);
    p.advance_generation(100);
    assert_eq!(p.position(), 4_500);
    p.finish_generation();
    assert_eq!(p.position(), 9_000);
    p.start_build(4);
    assert_eq!(p.position(), 9_000);
    p.advance_build(1);
    assert_eq!(p.position(), 9_250);
    p.advance_build(9);
    assert_eq!(p.position(), PROGRESS_SCALE);
}

#[test]
fn mbtiles_generation_takes_everything() {
    let mut p = SingleProgress::mbtiles(8);
    p.advance_generation(2);
    assert_eq!(p.position(), 2_500);
    p.finish_generation();
    assert_eq!(p.position(), 10_000);
    p.start_build(3);
    assert_eq!(p.position(), 10_000);
}

#[test]
fn progress_never_passes_its_total() {
    let mut p = SingleProgress::pmtiles(10);
    p.advance_generation(7);
    p.advance_generation(u64::MAX);
    assert_eq!(p.generation_done, 10);
    p.start_build(0);
    assert_eq!(p.build_total, 1);
    p.advance_build(u64::MAX);
    assert_eq!(p.build_done, 1);
}

#[test]
fn progress_of_nothing_is_done_by_finishing() {
    let mut p = SingleProgress::pmtiles(0);
    assert_eq!(p.generation_total, 1);
    assert_eq!(p.position(), 0);
    p.finish();
    assert_eq!(p.position(), PROGRESS_SCALE);
}

#[test]
fn advances_add_up() {
    let mut a = SingleProgress::pmtiles(100);
    a.advance_generation(30);
    a.advance_generation(12);
    let mut b = SingleProgress::pmtiles(100);
    b.advance_generation(42);
    assert_eq!(a, b);
}

#[test]
fn stages_are_named() {
    assert_eq!(generate_stage(7, 12, 4096), "[z7 12/4096]");
    assert_eq!(build_stage(0, 15), "[pmtiles 0/15]");
    assert_eq!(build_stage(3, 15), "[pmtiles 3/15]");
}

#[test]
fn durations_leave_out_leading_zeros() {
    assert_eq!(format_duration(0), "0s");
    assert_eq!(format_duration(59), "59s");
    assert_eq!(format_duration(60), "1m00s");
    assert_eq!(format_duration(3_599), "59m59s");
    assert_eq!(format_duration(3_600), "1h00m00s");
    assert_eq!(format_duration(3_661), "1h01m01s");
    assert_eq!(format_duration(360_000), "100h00m00s");
}

#[test]
fn counts_are_shown_in_the_largest_unit() {
    assert_eq!(count_unit(0), CountUnit::One);
    assert_eq!(count_unit(999), CountUnit::One);
    assert_eq!(count_unit(1_000), CountUnit::Thousand);
    assert_eq!(count_unit(999_999), CountUnit::Thousand);
    assert_eq!(count_unit(1_000_000), CountUnit::Million);
    assert_eq!(count_unit(1_000_000_000), CountUnit::Billion);
    assert_eq!(CountUnit::One.divisor(), 1);
    assert_eq!(CountUnit::Thousand.divisor(), 1_000);
    assert_eq!(CountUnit::Million.divisor(), 1_000_000);
    assert_eq!(CountUnit::Billion.divisor(), 1_000_000_000);
}
