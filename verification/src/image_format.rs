//! The pixels of a tile as the bytes of an image.

use image::ImageEncoder;
use vstd::prelude::*;

use crate::pipeline::ProcessedTile;
use crate::raster;
use crate::raster::{solid_tile, TilePixels, GRID_PIXELS, GRID_SIZE};

verus! {

/// The errors of the `image` crate, carried through unread.
#[verifier::external_type_specification]
#[verifier::external_body]
pub struct ExImageError(image::ImageError);

/// The image format of the tiles.
#[derive(Clone, Copy, Debug, PartialEq, Eq, Structural)]
pub enum TileFormat {
    Webp,
    Png,
}

impl TileFormat {
    /// The media type of the format.
    pub open spec fn media_type(self) -> Seq<char> {
        match self {
            TileFormat::Webp => "image/webp"@,
            TileFormat::Png => "image/png"@,
        }
    }

    /// The media type of the format.
    pub fn mime(&self) -> (mime: &'static str)
        ensures
            mime@ == self.media_type(),
    {
        match self {
            TileFormat::Webp => "image/webp",
            TileFormat::Png => "image/png",
        }
    }
}

/// The errors of the `webp` crate, carried through unread.
#[verifier::external_type_specification]
#[verifier::external_body]
pub struct ExWebPEncodingError(webp::WebPEncodingError);

/// How much effort is put into making a PNG small.
#[derive(Clone, Copy, Debug, PartialEq, Eq, Structural)]
pub enum PngEffort {
    /// As little as makes sense.
    Fast,
    /// A level from 1 to 9.
    Level { level: u8 },
}

/// What is done to the lines of a PNG before they are made small.
#[derive(Clone, Copy, Debug, PartialEq, Eq, Structural)]
pub enum PngFilter {
    /// Nothing.
    NoFilter,
    /// What suits each line.
    Adaptive,
}

/// How much effort libwebp puts into making a WebP small.
#[derive(Clone, Copy, Debug, PartialEq, Eq, Structural)]
pub struct WebpEffort {
    /// From 0 to 6, slower and smaller.
    pub method: u8,
    /// From 0 to 100, slower and smaller.
    pub quality: u8,
}

/// The bytes that the `image` crate gives for a square PNG of some pixels, if it gives any.
pub uninterp spec fn png_bytes(
    rgb: Seq<u8>,
    side: u32,
    effort: PngEffort,
    filter: PngFilter,
) -> Option<Seq<u8>>;

/// The bytes that the `image` crate gives for a square lossless WebP of some pixels, if it gives
/// any.
pub uninterp spec fn webp_bytes(rgb: Seq<u8>, side: u32) -> Option<Seq<u8>>;

/// Whether libwebp, on one machine or another, gives these bytes, or none, for a square WebP of
/// some pixels.
pub uninterp spec fn libwebp_gives(
    rgb: Seq<u8>,
    side: u32,
    lossless: bool,
    effort: WebpEffort,
    data: Option<Seq<u8>>,
) -> bool;

/// `image::codecs::png::PngEncoder::new_with_quality` followed by `write_image`. It panics unless
/// there are three bytes for each pixel, and knows levels from 1 to 9; otherwise its bytes, or its
/// failure, depend on the pixels, the side, the effort and the filter alone.
#[verifier::external_body]
fn encode_png(rgb: &[u8], side: u32, effort: PngEffort, filter: PngFilter) -> (data: Result<
    Vec<u8>,
    image::ImageError,
>)
    requires
        rgb@.len() == 3 * side * side,
        effort matches PngEffort::Level { level } ==> 1 <= level <= 9,
    ensures
        match data {
            Ok(bytes) => png_bytes(rgb@, side, effort, filter) == Some(bytes@),
            Err(_) => png_bytes(rgb@, side, effort, filter) is None,
        },
{
    let level = match effort {
        PngEffort::Fast => image::codecs::png::CompressionType::Fast,
        PngEffort::Level { level } => image::codecs::png::CompressionType::Level(level),
    };
    let filter = match filter {
        PngFilter::NoFilter => image::codecs::png::FilterType::NoFilter,
        PngFilter::Adaptive => image::codecs::png::FilterType::Adaptive,
    };
    let mut data = Vec::new();
    image::codecs::png::PngEncoder::new_with_quality(&mut data, level, filter)
        .write_image(rgb, side, side, image::ExtendedColorType::Rgb8)?;
    Ok(data)
}

/// `image::codecs::webp::WebPEncoder::new_lossless` followed by `write_image`. It panics unless
/// there are three bytes for each pixel; otherwise its bytes, or its failure, depend on the pixels
/// and the side alone.
#[verifier::external_body]
fn encode_webp(rgb: &[u8], side: u32) -> (data: Result<Vec<u8>, image::ImageError>)
    requires
        rgb@.len() == 3 * side * side,
    ensures
        match data {
            Ok(bytes) => webp_bytes(rgb@, side) == Some(bytes@),
            Err(_) => webp_bytes(rgb@, side) is None,
        },
{
    let mut data = Vec::new();
    image::codecs::webp::WebPEncoder::new_lossless(&mut data)
        .write_image(rgb, side, side, image::ExtendedColorType::Rgb8)?;
    Ok(data)
}

/// `webp::Encoder::from_rgb` followed by `encode_advanced`, with libwebp's own configuration but
/// for whether it is lossless, the method and the quality. It panics on fewer than three bytes for
/// each pixel. Which bytes it gives depends on the pixels, the side and what is configured, but
/// is left open beyond that: libwebp weighs its choices in floating point and may run out of memory,
/// so the bytes, and whether there are any, can differ from machine to machine.
#[verifier::external_body]
fn encode_libwebp(rgb: &[u8], side: u32, lossless: bool, effort: WebpEffort) -> (data: Result<
    Vec<u8>,
    webp::WebPEncodingError,
>)
    requires
        1 <= side <= 16383,
        rgb@.len() == 3 * side * side,
        effort.method <= 6,
        effort.quality <= 100,
    ensures
        match data {
            Ok(bytes) => libwebp_gives(rgb@, side, lossless, effort, Some(bytes@)),
            Err(_) => libwebp_gives(rgb@, side, lossless, effort, None),
        },
{
    let mut config = webp::WebPConfig::new().unwrap();
    config.lossless = lossless.into();
    config.method = effort.method.into();
    config.quality = effort.quality.into();
    let memory = webp::Encoder::from_rgb(rgb, side, side).encode_advanced(&config)?;
    Ok(memory.to_vec())
}

/// Why a tile has no image.
#[derive(Clone, Copy, Debug, PartialEq, Eq, Structural)]
pub enum EncodeError {
    /// The encoder of the format failed.
    Encoder { format: TileFormat },
}

/// The effort that a level of compression asks of the PNG encoder.
pub open spec fn effort_of(compress: Option<u8>) -> PngEffort {
    match compress {
        Some(level) => PngEffort::Level { level },
        None => PngEffort::Fast,
    }
}

/// Whether a level of compression is one that there is: 1 to 9.
pub open spec fn level_exists(compress: Option<u8>) -> bool {
    compress matches Some(level) ==> 1 <= level <= 9
}

/// The effort that a level of compression asks of libwebp: its lossless presets.
pub open spec fn preset_of(level: u8) -> WebpEffort {
    if level == 0 {
        WebpEffort { method: 0, quality: 0 }
    } else if level == 1 {
        WebpEffort { method: 1, quality: 20 }
    } else if level == 2 {
        WebpEffort { method: 2, quality: 25 }
    } else if level == 3 {
        WebpEffort { method: 3, quality: 30 }
    } else if level == 4 {
        WebpEffort { method: 3, quality: 50 }
    } else if level == 5 {
        WebpEffort { method: 4, quality: 50 }
    } else if level == 6 {
        WebpEffort { method: 4, quality: 75 }
    } else if level == 7 {
        WebpEffort { method: 4, quality: 90 }
    } else if level == 8 {
        WebpEffort { method: 5, quality: 90 }
    } else {
        WebpEffort { method: 6, quality: 100 }
    }
}

/// The effort that a level of compression asks of libwebp.
pub fn lossless_preset(level: u8) -> (effort: WebpEffort)
    ensures
        effort == preset_of(level),
        effort.method <= 6,
        effort.quality <= 100,
{
    match level {
        0 => WebpEffort { method: 0, quality: 0 },
        1 => WebpEffort { method: 1, quality: 20 },
        2 => WebpEffort { method: 2, quality: 25 },
        3 => WebpEffort { method: 3, quality: 30 },
        4 => WebpEffort { method: 3, quality: 50 },
        5 => WebpEffort { method: 4, quality: 50 },
        6 => WebpEffort { method: 4, quality: 75 },
        7 => WebpEffort { method: 4, quality: 90 },
        8 => WebpEffort { method: 5, quality: 90 },
        _ => WebpEffort { method: 6, quality: 100 },
    }
}

/// A higher level never asks for less effort, and each level asks for another.
pub proof fn law_presets_rise(a: u8, b: u8)
    requires
        a < b <= 9,
    ensures
        preset_of(a).method <= preset_of(b).method,
        preset_of(a).quality <= preset_of(b).quality,
        preset_of(a) != preset_of(b),
{
}

/// Whether these are the bytes of the image of a tile with its skirt, or there are none. A PNG and a
/// WebP without a level have one image; a WebP with a level has one that libwebp gives.
pub open spec fn is_image(
    rgb: Seq<u8>,
    format: TileFormat,
    compress: Option<u8>,
    data: Option<Seq<u8>>,
) -> bool {
    let side = GRID_SIZE as u32;
    match format {
        TileFormat::Webp => match compress {
            Some(level) => libwebp_gives(rgb, side, true, preset_of(level), data),
            None => data == webp_bytes(rgb, side),
        },
        TileFormat::Png => data == png_bytes(
            rgb,
            side,
            effort_of(compress),
            PngFilter::Adaptive,
        ),
    }
}

/// The image of the pixels of a tile with its skirt, in a format without loss. Without a level of
/// compression it is made fast; a level asks for a smaller image, of the PNG encoder or, for WebP,
/// of libwebp.
pub fn encode_tile(rgb: &[u8], format: TileFormat, compress: Option<u8>) -> (data: Result<
    Vec<u8>,
    EncodeError,
>)
    requires
        rgb@.len() == 3 * GRID_PIXELS,
        level_exists(compress),
    ensures
        match data {
            Ok(bytes) => is_image(rgb@, format, compress, Some(bytes@)),
            Err(e) => is_image(rgb@, format, compress, None) && e == (EncodeError::Encoder {
                format,
            }),
        },
{
    let side: u32 = GRID_SIZE as u32;
    assert(3 * side * side == 3 * 264_196) by (nonlinear_arith)
        requires
            side == 514,
    ;
    match format {
        TileFormat::Webp => match compress {
            Some(level) => match encode_libwebp(rgb, side, true, lossless_preset(level)) {
                Ok(bytes) => Ok(bytes),
                Err(_) => Err(EncodeError::Encoder { format }),
            },
            None => match encode_webp(rgb, side) {
                Ok(bytes) => Ok(bytes),
                Err(_) => Err(EncodeError::Encoder { format }),
            },
        },
        TileFormat::Png => {
            let effort = match compress {
                Some(level) => PngEffort::Level { level },
                None => PngEffort::Fast,
            };
            match encode_png(rgb, side, effort, PngFilter::Adaptive) {
                Ok(bytes) => Ok(bytes),
                Err(_) => Err(EncodeError::Encoder { format }),
            }
        },
    }
}

/// The image of a tile of one colour.
pub fn encode_solid_tile(color: [u8; 3], format: TileFormat, compress: Option<u8>) -> (data: Result<
    Vec<u8>,
    EncodeError,
>)
    requires
        level_exists(compress),
    ensures
        match data {
            Ok(bytes) => is_image(raster::solid_rgb(color@), format, compress, Some(bytes@)),
            Err(e) => is_image(raster::solid_rgb(color@), format, compress, None) && e == (
            EncodeError::Encoder { format }),
        },
{
    let rgb = solid_tile(color);
    encode_tile(rgb.as_slice(), format, compress)
}

/// A tile from its image, or from the failure to make it, with its colour where there is one.
pub fn pack_tile(encoded: Result<Vec<u8>, EncodeError>, uniform_color: Option<[u8; 3]>) -> (tile:
    Result<Option<ProcessedTile>, EncodeError>)
    ensures
        tile == (match encoded {
            Ok(data) => Ok::<Option<ProcessedTile>, EncodeError>(
                Some(ProcessedTile { data, uniform_color }),
            ),
            Err(e) => Err::<Option<ProcessedTile>, EncodeError>(e),
        }),
{
    match encoded {
        Ok(data) => Ok(Some(ProcessedTile { data, uniform_color })),
        Err(e) => Err(e),
    }
}

/// A tile from its pixels: nothing where none has data, otherwise its image, with its colour where
/// it matters and all pixels have the same.
pub fn finish_tile(pixels: TilePixels, format: TileFormat, compress: Option<u8>) -> (tile: Result<
    Option<ProcessedTile>,
    EncodeError,
>)
    requires
        pixels.wf(),
        pixels.rgb@.len() == 3 * GRID_PIXELS,
        level_exists(compress),
    ensures
        match tile {
            Ok(None) => !raster::has_data(pixels.pixels()),
            Ok(Some(done)) => {
                &&& raster::has_data(pixels.pixels())
                &&& is_image(pixels.rgb@, format, compress, Some(done.data@))
                &&& done.uniform_color is Some <==> pixels.track && raster::uniform(pixels.pixels())
                &&& done.uniform_color matches Some(c) ==> c@ == pixels.pixels()[0]
            },
            Err(e) => {
                &&& raster::has_data(pixels.pixels())
                &&& is_image(pixels.rgb@, format, compress, None)
                &&& e == (EncodeError::Encoder { format })
            },
        },
{
    match pixels.finish() {
        None => Ok(None),
        Some(finished) => pack_tile(
            encode_tile(finished.rgb.as_slice(), format, compress),
            finished.uniform_color,
        ),
    }
}

/// The image of a tile is what the encoder of its format gives for exactly its pixels, 514 by 514:
/// PNG at the level that was asked for, WebP without a level by the encoder in Rust, and with one
/// by libwebp without loss. Where the encoder fails, so does the tile.
pub proof fn law_image_is_of_its_pixels(
    rgb: &[u8],
    format: TileFormat,
    compress: Option<u8>,
    data: Result<Vec<u8>, EncodeError>,
    effort: WebpEffort,
)
    requires
        call_ensures(encode_tile, (rgb, format, compress), data),
    ensures
        data matches Err(e) ==> e == (EncodeError::Encoder { format }),
        format == TileFormat::Png && compress is None ==> match data {
            Ok(bytes) => png_bytes(rgb@, 514, PngEffort::Fast, PngFilter::Adaptive) == Some(bytes@),
            Err(_) => png_bytes(rgb@, 514, PngEffort::Fast, PngFilter::Adaptive) is None,
        },
        format == TileFormat::Png ==> (compress matches Some(level) ==> match data {
            Ok(bytes) => png_bytes(rgb@, 514, PngEffort::Level { level }, PngFilter::Adaptive)
                == Some(bytes@),
            Err(_) => png_bytes(rgb@, 514, PngEffort::Level { level }, PngFilter::Adaptive) is None,
        }),
        format == TileFormat::Webp && compress is None ==> match data {
            Ok(bytes) => webp_bytes(rgb@, 514) == Some(bytes@),
            Err(_) => webp_bytes(rgb@, 514) is None,
        },
        format == TileFormat::Webp ==> (compress matches Some(level) && call_ensures(
            lossless_preset,
            (level,),
            effort,
        ) ==> match data {
            Ok(bytes) => libwebp_gives(rgb@, 514, true, effort, Some(bytes@)),
            Err(_) => libwebp_gives(rgb@, 514, true, effort, None),
        }),
{
}

/// The image of a tile of one colour is an image of pixels that all have that colour.
pub proof fn law_solid_image_is_of_its_color(
    color: [u8; 3],
    format: TileFormat,
    compress: Option<u8>,
    data: Result<Vec<u8>, EncodeError>,
    rgb: Seq<u8>,
)
    requires
        call_ensures(encode_solid_tile, (color, format, compress), data),
        rgb.len() == 3 * 514 * 514,
        forall|k: int| 0 <= k < rgb.len() ==> #[trigger] rgb[k] == color@[k % 3],
    ensures
        data matches Ok(bytes) ==> is_image(rgb, format, compress, Some(bytes@)),
        data matches Err(e) ==> is_image(rgb, format, compress, None) && e == (
        EncodeError::Encoder { format }),
{
    assert(rgb =~= raster::solid_rgb(color@));
}

/// What counts as an image of some pixels is what the encoder of the format gives for exactly
/// those pixels, 514 by 514, at the level that is asked for; without a level, and for PNG, that is
/// one image at most.
pub proof fn law_images_are_of_their_pixels(
    rgb: Seq<u8>,
    format: TileFormat,
    compress: Option<u8>,
    data: Option<Seq<u8>>,
    effort: WebpEffort,
)
    requires
        compress matches Some(level) ==> call_ensures(lossless_preset, (level,), effort),
    ensures
        format == TileFormat::Png && compress is None ==> (is_image(rgb, format, compress, data)
            <==> data == png_bytes(rgb, 514, PngEffort::Fast, PngFilter::Adaptive)),
        format == TileFormat::Png ==> (compress matches Some(level) ==> (is_image(
            rgb,
            format,
            compress,
            data,
        ) <==> data == png_bytes(rgb, 514, PngEffort::Level { level }, PngFilter::Adaptive))),
        format == TileFormat::Webp && compress is None ==> (is_image(rgb, format, compress, data)
            <==> data == webp_bytes(rgb, 514)),
        format == TileFormat::Webp && compress is Some ==> (is_image(rgb, format, compress, data)
            <==> libwebp_gives(rgb, 514, true, effort, data)),
{
}

/// A tile is nothing exactly if all its bytes are zero; otherwise it is an image of its pixels. It
/// has a colour exactly if that matters and all its pixels have the same bytes.
pub proof fn law_finished_tile_is_of_its_pixels(
    pixels: TilePixels,
    format: TileFormat,
    compress: Option<u8>,
    tile: Result<Option<ProcessedTile>, EncodeError>,
)
    requires
        pixels.wf(),
        call_ensures(finish_tile, (pixels, format, compress), tile),
    ensures
        (tile matches Ok(None)) <==> forall|k: int|
            0 <= k < pixels.rgb@.len() ==> #[trigger] pixels.rgb@[k] == 0,
        tile matches Ok(Some(done)) ==> is_image(
            pixels.rgb@,
            format,
            compress,
            Some(done.data@),
        ),
        tile matches Ok(Some(done)) ==> (done.uniform_color is Some <==> pixels.track
            && forall|k: int|
            0 <= k < pixels.rgb@.len() ==> #[trigger] pixels.rgb@[k] == pixels.rgb@[k % 3]),
        tile matches Ok(Some(done)) ==> (done.uniform_color matches Some(c) ==> c@[0]
            == pixels.rgb@[0] && c@[1] == pixels.rgb@[1] && c@[2] == pixels.rgb@[2]),
        tile matches Err(e) ==> is_image(pixels.rgb@, format, compress, None) && e == (
        EncodeError::Encoder { format }),
{
    let rgb = pixels.rgb@;
    raster::lemma_data_bytes(rgb);
    raster::lemma_uniform_bytes(rgb);
    if tile is Ok && tile->Ok_0 is Some {
        assert(pixels.pixels().len() > 0);
        raster::law_colors_are_triples(rgb, 0);
        raster::law_colors_are_triples(rgb, 1);
        raster::law_colors_are_triples(rgb, 2);
    }
}

/// A tile hands on what the encoder gave, and its colour.
pub proof fn law_packed_tile_is_its_image(
    encoded: Result<Vec<u8>, EncodeError>,
    uniform_color: Option<[u8; 3]>,
    tile: Result<Option<ProcessedTile>, EncodeError>,
)
    requires
        call_ensures(pack_tile, (encoded, uniform_color), tile),
    ensures
        encoded matches Ok(data) ==> (tile matches Ok(Some(done)) && done.data == data
            && done.uniform_color == uniform_color),
        encoded matches Err(e) ==> (tile matches Err(f) && f == e),
{
}

/// A higher level asks libwebp for more effort, and the highest for all of it.
pub proof fn law_higher_level_more_effort(a: u8, b: u8, low: WebpEffort, high: WebpEffort)
    requires
        call_ensures(lossless_preset, (a,), low),
        call_ensures(lossless_preset, (b,), high),
        a < b <= 9,
    ensures
        low.method <= high.method <= 6,
        low.quality <= high.quality <= 100,
        low.method < high.method || low.quality < high.quality,
        a == 0 ==> low.method == 0 && low.quality == 0,
        b == 9 ==> high.method == 6 && high.quality == 100,
{
    law_presets_rise(a, b);
}

/// The media types of the two formats.
pub proof fn law_media_types(format: TileFormat, mime: &'static str)
    requires
        call_ensures(TileFormat::mime, (&format,), mime),
    ensures
        format == TileFormat::Png ==> mime@ == "image/png"@,
        format == TileFormat::Webp ==> mime@ == "image/webp"@,
{
}

/// The presets, level by level: the methods, and the qualities that tell levels of one method
/// apart.
pub proof fn law_presets_level_by_level(level: u8, effort: WebpEffort)
    requires
        call_ensures(lossless_preset, (level,), effort),
        level <= 9,
    ensures
        level <= 3 ==> effort.method == level,
        level == 4 ==> effort.method == 3,
        5 <= level <= 7 ==> effort.method == 4,
        8 <= level ==> effort.method == level - 3,
        1 <= level <= 3 ==> effort.quality == 15 + 5 * level,
        level == 4 || level == 5 ==> effort.quality == 50,
        level == 6 ==> effort.quality == 75,
        level == 7 || level == 8 ==> effort.quality == 90,
        level == 9 ==> effort.quality == 100,
        level == 0 ==> effort.quality == 0,
{
}

} // verus!
