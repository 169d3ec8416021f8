use massif::image_format::{
    encode_solid_tile, encode_tile, finish_tile, lossless_preset, pack_tile, EncodeError, TileFormat,
    WebpEffort,
};
use massif::raster::{solid_tile, TilePixels, GRID_PIXELS};

fn pixels_of(data: &[u8]) -> (u32, u32, Vec<u8>) {
    let image = image::load_from_memory(data).unwrap().to_rgb8();
    (image.width(), image.height(), image.into_raw())
}

/// Colours that change from pixel to pixel.
fn hilly() -> Vec<u8> {
    (0..3 * GRID_PIXELS).map(|i| (i * i % 251) as u8).collect()
}

#[test]
fn images_keep_every_pixel() {
    let rgb = hilly();
    for format in [TileFormat::Webp, TileFormat::Png] {
        for compress in [None, Some(1), Some(9)] {
            let data = encode_tile(&rgb, format, compress).unwrap();
            assert_ne!(data, rgb);
            assert_eq!(pixels_of(&data), (514, 514, rgb.clone()));
        }
    }
}

#[test]
fn images_are_of_their_format() {
    let rgb = hilly();
    let webp = encode_tile(&rgb, TileFormat::Webp, None).unwrap();
    assert_eq!((&webp[..4], &webp[8..12]), (&b"RIFF"[..], &b"WEBP"[..]));
    let png = encode_tile(&rgb, TileFormat::Png, None).unwrap();
    assert_eq!(&png[1..4], b"PNG");
    assert_eq!(TileFormat::Webp.mime(), "image/webp");
    assert_eq!(TileFormat::Png.mime(), "image/png");
}

#[test]
fn images_come_out_the_same_again() {
    let rgb = hilly();
    for format in [TileFormat::Webp, TileFormat::Png] {
        assert_eq!(encode_tile(&rgb, format, Some(6)), encode_tile(&rgb, format, Some(6)));
    }
}

#[test]
fn solid_image_is_one_color() {
    for format in [TileFormat::Webp, TileFormat::Png] {
        let data = encode_solid_tile([1, 134, 160], format, None).unwrap();
        assert_eq!(pixels_of(&data), (514, 514, solid_tile([1, 134, 160])));
    }
}

#[test]
fn finished_tile_is_its_image() {
    let mut pixels = TilePixels::new(true);
    for px in hilly().chunks(3) {
        pixels.push([px[0], px[1], px[2]]);
    }
    let tile = finish_tile(pixels, TileFormat::Png, Some(3)).unwrap().unwrap();
    assert_eq!(pixels_of(&tile.data), (514, 514, hilly()));
    assert_eq!(tile.uniform_color, None);
}

#[test]
fn finished_tile_of_one_color_is_uniform() {
    let mut pixels = TilePixels::new(true);
    for _ in 0..GRID_PIXELS {
        pixels.push([1, 134, 160]);
    }
    let tile = finish_tile(pixels, TileFormat::Webp, None).unwrap().unwrap();
    assert_eq!(tile.uniform_color, Some([1, 134, 160]));
    assert_eq!(tile.data, encode_solid_tile([1, 134, 160], TileFormat::Webp, None).unwrap());
}

#[test]
fn tile_without_data_is_no_image() {
    let mut pixels = TilePixels::new(true);
    for _ in 0..GRID_PIXELS {
        pixels.push([0, 0, 0]);
    }
    assert!(matches!(finish_tile(pixels, TileFormat::Png, None), Ok(None)));
}

/// Slopes, which take effort to make small.
fn slopes() -> Vec<u8> {
    (0..GRID_PIXELS)
        .flat_map(|i| {
            let (x, y) = (i % 514, i / 514);
            let code = 100_000 + x * 13 + y * 7 + (x * y) % 17;
            [(code >> 16) as u8, (code >> 8) as u8, code as u8]
        })
        .collect()
}

#[test]
fn level_acts_on_webp() {
    let rgb = slopes();
    let fast = encode_tile(&rgb, TileFormat::Webp, None).unwrap();
    let low = encode_tile(&rgb, TileFormat::Webp, Some(1)).unwrap();
    let high = encode_tile(&rgb, TileFormat::Webp, Some(9)).unwrap();
    assert_ne!(low, fast);
    assert_ne!(high, low);
    assert!(high.len() <= low.len());
    for data in [fast, low, high] {
        assert_eq!(pixels_of(&data), (514, 514, rgb.clone()));
    }
}

#[test]
fn every_webp_level_keeps_every_pixel() {
    let rgb = slopes();
    for level in 1..=9 {
        let data = encode_tile(&rgb, TileFormat::Webp, Some(level)).unwrap();
        assert_eq!(&data[8..12], b"WEBP");
        assert_eq!(pixels_of(&data), (514, 514, rgb.clone()));
    }
}

#[test]
fn levels_are_the_presets_of_libwebp() {
    assert_eq!(lossless_preset(0), WebpEffort { method: 0, quality: 0 });
    assert_eq!(lossless_preset(1), WebpEffort { method: 1, quality: 20 });
    assert_eq!(lossless_preset(6), WebpEffort { method: 4, quality: 75 });
    assert_eq!(lossless_preset(9), WebpEffort { method: 6, quality: 100 });
    for level in 0..9 {
        let (lower, higher) = (lossless_preset(level), lossless_preset(level + 1));
        assert!(lower.method <= higher.method && lower.quality <= higher.quality);
        assert_ne!(lower, higher);
    }
}

#[test]
fn failure_to_make_an_image_is_handed_on() {
    let failed = EncodeError::Encoder { format: TileFormat::Webp };
    assert_eq!(pack_tile(Err(failed), Some([1, 2, 3])).err(), Some(failed));
    let tile = pack_tile(Ok(vec![9]), Some([1, 2, 3])).ok().unwrap().unwrap();
    assert_eq!((tile.data, tile.uniform_color), (vec![9], Some([1, 2, 3])));
}
