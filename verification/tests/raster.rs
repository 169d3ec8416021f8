use massif::raster::{
    bilinear_taps, buffer_size, encode_elev, is_wgs84, read_span, sample_rule, same_color,
    solid_tile, track_uniform_color, Encoding, ReadSpan, SampleRule, Taps, TilePixels, GRID_PIXELS,
    GRID_SIZE,
};

#[test]
fn grid_is_the_tile_with_its_skirt() {
    assert_eq!(GRID_SIZE, 514);
    assert_eq!(GRID_PIXELS, GRID_SIZE * GRID_SIZE);
}

#[test]
fn read_span_has_a_margin() {
    assert_eq!(read_span(10, 20, 100), ReadSpan { start: 9, len: 13 });
}

#[test]
fn read_span_stays_within_the_source() {
    assert_eq!(read_span(-50, 20, 100), ReadSpan { start: 0, len: 22 });
    assert_eq!(read_span(90, 500, 100), ReadSpan { start: 89, len: 11 });
    assert_eq!(read_span(200, 300, 100), ReadSpan { start: 99, len: 1 });
    assert_eq!(read_span(-300, -200, 100), ReadSpan { start: 0, len: 1 });
    assert_eq!(read_span(0, 0, 1), ReadSpan { start: 0, len: 1 });
    assert_eq!(read_span(i64::MIN + 1, i64::MAX - 2, 7), ReadSpan { start: 0, len: 7 });
}

#[test]
fn buffer_is_capped() {
    assert_eq!(buffer_size(100, 2048), 100);
    assert_eq!(buffer_size(5000, 2048), 2048);
    assert_eq!(buffer_size(1024, 1024), 1024);
}

#[test]
fn taps_surround_a_point() {
    assert_eq!(
        bilinear_taps(1, 2, 10, 10),
        Taps { upper_left: 21, upper_right: 22, lower_left: 31, lower_right: 32 }
    );
}

#[test]
fn taps_stay_within_the_buffer() {
    assert_eq!(
        bilinear_taps(9, 9, 10, 10),
        Taps { upper_left: 99, upper_right: 99, lower_left: 99, lower_right: 99 }
    );
    assert_eq!(
        bilinear_taps(0, 0, 1, 1),
        Taps { upper_left: 0, upper_right: 0, lower_left: 0, lower_right: 0 }
    );
}

#[test]
fn nearest_sample_counts_next_to_a_hole() {
    let taps = Taps { upper_left: 1, upper_right: 2, lower_left: 3, lower_right: 4 };
    assert_eq!(sample_rule(taps, false, true, true), SampleRule::Blend);
    assert_eq!(sample_rule(taps, true, true, true), SampleRule::Nearest { place: 1 });
    assert_eq!(sample_rule(taps, true, false, true), SampleRule::Nearest { place: 2 });
    assert_eq!(sample_rule(taps, true, true, false), SampleRule::Nearest { place: 3 });
    assert_eq!(sample_rule(taps, true, false, false), SampleRule::Nearest { place: 4 });
}

#[test]
fn mapbox_colors_with_and_without_cleared_bits() {
    // Zero metres above a base of -10000, in steps of a tenth: 100000 steps.
    assert_eq!(encode_elev(Encoding::Mapbox, 0, false, false, false, 100_000, 0), [1, 134, 160]);
    assert_eq!(encode_elev(Encoding::Mapbox, 3, false, false, false, 100_007, 0), [1, 134, 160]);
    assert_eq!(encode_elev(Encoding::Mapbox, 0, false, false, false, 0xff_ffff, 0), [255, 255, 255]);
    assert_eq!(encode_elev(Encoding::Mapbox, 8, false, false, false, 0x12_3456, 0), [0x12, 0x34, 0]);
    assert_eq!(encode_elev(Encoding::Mapbox, 31, false, false, false, u32::MAX, 0), [0, 0, 0]);
    assert_eq!(encode_elev(Encoding::Mapbox, 40, false, false, false, u32::MAX, 0), [0, 0, 0]);
}

#[test]
fn terrarium_colors_clear_nothing() {
    // Zero metres: 32768 metres above the base, in 256ths.
    assert_eq!(encode_elev(Encoding::Terrarium, 3, false, false, false, 32_768 * 256, 0), [128, 0, 0]);
    assert_eq!(
        encode_elev(Encoding::Terrarium, 3, false, false, false, 32_869 * 256 + 128, 0),
        [128, 101, 128]
    );
}

#[test]
fn threshold_gives_height_zero_but_not_to_holes() {
    assert_eq!(encode_elev(Encoding::Mapbox, 0, false, true, false, 99_000, 100_000), [1, 134, 160]);
    assert_eq!(encode_elev(Encoding::Mapbox, 0, true, true, false, 99_000, 100_000), [0, 0, 0]);
    assert_eq!(encode_elev(Encoding::Mapbox, 0, true, false, false, 99_000, 100_000), [0, 0, 0]);
}

#[test]
fn threshold_gives_no_data_where_height_zero_is_none() {
    // With a nodata value of zero, a sample of height zero has no data.
    let zero = encode_elev(Encoding::Mapbox, 0, true, false, true, 100_000, 100_000);
    let below = encode_elev(Encoding::Mapbox, 0, false, true, true, 99_000, 100_000);
    assert_eq!(zero, [0, 0, 0]);
    assert_eq!(below, zero);
    let terrarium = encode_elev(Encoding::Terrarium, 0, false, true, true, 5, 32_768 * 256);
    assert_eq!(terrarium, [0, 0, 0]);
    // A sample above the threshold keeps its own colour.
    let above = encode_elev(Encoding::Mapbox, 0, false, false, true, 100_000, 100_000);
    assert_eq!(above, [1, 134, 160]);
}

#[test]
fn samples_below_the_threshold_look_like_height_zero() {
    for encoding in [Encoding::Mapbox, Encoding::Terrarium] {
        for zero_is_nodata in [false, true] {
            let below = encode_elev(encoding, 3, false, true, zero_is_nodata, 7, 100_000);
            let zero =
                encode_elev(encoding, 3, zero_is_nodata, false, zero_is_nodata, 100_000, 100_000);
            assert_eq!(below, zero);
        }
    }
}

#[test]
fn color_gives_its_number_back() {
    for code in [0u32, 1, 255, 256, 65_535, 65_536, 0xff_ffff] {
        let [r, g, b] = encode_elev(Encoding::Terrarium, 0, false, false, false, code, 0);
        assert_eq!(r as u32 * 65_536 + g as u32 * 256 + b as u32, code);
    }
}

#[test]
fn colors_are_compared_byte_by_byte() {
    assert!(same_color([1, 2, 3], [1, 2, 3]));
    assert!(!same_color([1, 2, 3], [0, 2, 3]));
    assert!(!same_color([1, 2, 3], [1, 0, 3]));
    assert!(!same_color([1, 2, 3], [1, 2, 0]));
}

#[test]
fn uniform_color_is_kept_until_it_changes() {
    let mut first = None;
    let mut same = true;
    track_uniform_color([1, 2, 3], &mut first, &mut same);
    assert_eq!((first, same), (Some([1, 2, 3]), true));
    track_uniform_color([1, 2, 3], &mut first, &mut same);
    assert_eq!((first, same), (Some([1, 2, 3]), true));
    track_uniform_color([1, 2, 4], &mut first, &mut same);
    assert_eq!((first, same), (Some([1, 2, 3]), false));
    track_uniform_color([1, 2, 3], &mut first, &mut same);
    assert_eq!((first, same), (Some([1, 2, 3]), false));
    let mut nothing = None;
    let mut unwatched = false;
    track_uniform_color([1, 2, 3], &mut nothing, &mut unwatched);
    assert_eq!((nothing, unwatched), (None, false));
}

#[test]
fn pixels_without_data_make_no_tile() {
    let mut pixels = TilePixels::new(true);
    pixels.push([0, 0, 0]);
    pixels.push([0, 0, 0]);
    assert!(pixels.finish().is_none());
    assert!(TilePixels::new(true).finish().is_none());
}

#[test]
fn pixels_of_one_color_are_uniform_where_it_matters() {
    let mut watched = TilePixels::new(true);
    let mut unwatched = TilePixels::new(false);
    for _ in 0..3 {
        watched.push([7, 8, 9]);
        unwatched.push([7, 8, 9]);
    }
    let tile = watched.finish().unwrap();
    assert_eq!(tile.rgb, vec![7, 8, 9, 7, 8, 9, 7, 8, 9]);
    assert_eq!(tile.uniform_color, Some([7, 8, 9]));
    assert_eq!(unwatched.finish().unwrap().uniform_color, None);
}

#[test]
fn one_other_pixel_ends_uniformity() {
    let mut pixels = TilePixels::new(true);
    pixels.push([7, 8, 9]);
    pixels.push([0, 0, 0]);
    pixels.push([7, 8, 9]);
    let tile = pixels.finish().unwrap();
    assert_eq!(tile.rgb, vec![7, 8, 9, 0, 0, 0, 7, 8, 9]);
    assert_eq!(tile.uniform_color, None);
}

#[test]
fn solid_tile_is_one_color_throughout() {
    let rgb = solid_tile([1, 134, 160]);
    assert_eq!(rgb.len(), 514 * 514 * 3);
    assert!(rgb.chunks(3).all(|px| px == [1, 134, 160]));
    let mut pixels = TilePixels::new(true);
    for px in rgb.chunks(3) {
        pixels.push([px[0], px[1], px[2]]);
    }
    assert_eq!(pixels.finish().unwrap().uniform_color, Some([1, 134, 160]));
}

#[test]
fn wgs84_by_its_number() {
    let epsg = || Some("EPSG".to_owned());
    assert!(is_wgs84(true, epsg(), Some(4326)));
    assert!(!is_wgs84(false, epsg(), Some(4326)));
    assert!(!is_wgs84(true, Some("ESRI".to_owned()), Some(4326)));
    assert!(!is_wgs84(true, None, Some(4326)));
    assert!(!is_wgs84(true, epsg(), Some(4258)));
    assert!(!is_wgs84(true, epsg(), None));
}
