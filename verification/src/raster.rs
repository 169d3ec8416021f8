//! The pixels of a tile: which part of the source is read for them, which samples they come from,
//! how a height becomes a colour and what the colours of a tile say about it.

use vstd::arithmetic::div_mod::*;
use vstd::arithmetic::power2::*;
use vstd::prelude::*;
use vstd::string::*;

verus! {

/// The pixels along one side of a tile.
pub const TILE_SIZE: usize = 512;

/// The pixels that a tile takes over from its neighbours, on each side.
pub const SKIRT: usize = 1;

/// The pixels along one side of a tile with its skirt.
pub const GRID_SIZE: usize = TILE_SIZE + 2 * SKIRT;

/// The pixels of a tile with its skirt.
pub const GRID_PIXELS: usize = 264_196;

/// The number nearest to `v` that is not less than `lo` nor more than `hi`.
pub open spec fn clamped(v: int, lo: int, hi: int) -> int {
    if v < lo {
        lo
    } else if v > hi {
        hi
    } else {
        v
    }
}

fn clamp(v: i64, lo: i64, hi: i64) -> (r: i64)
    requires
        lo <= hi,
    ensures
        r == clamped(v as int, lo as int, hi as int),
{
    if v < lo {
        lo
    } else if v > hi {
        hi
    } else {
        v
    }
}

/// The part of the source along one axis: its first pixel and how many there are.
#[derive(Clone, Copy, Debug, PartialEq, Eq, Structural)]
pub struct ReadSpan {
    pub start: usize,
    pub len: usize,
}

/// What is read along one axis: from one pixel before `first` to two pixels after `last`, as far as
/// the source has them, and one pixel at least.
pub open spec fn read_span_of(first: int, last: int, size: int) -> (int, int) {
    let start = clamped(first - 1, 0, size - 1);
    let end = clamped(last + 2, start + 1, size);
    (start, end - start)
}

/// What is read of the source along one axis of `size` pixels, for a tile that lies from the pixel
/// `first` to the pixel `last`.
pub fn read_span(first: i64, last: i64, size: usize) -> (span: ReadSpan)
    requires
        1 <= size <= i64::MAX,
        i64::MIN < first,
        last <= i64::MAX - 2,
    ensures
        (span.start as int, span.len as int) == read_span_of(
            first as int,
            last as int,
            size as int,
        ),
        span.len >= 1,
        span.start + span.len <= size,
{
    let size: i64 = size as i64;
    let start: i64 = clamp(first - 1, 0, size - 1);
    let end: i64 = clamp(last + 2, start + 1, size);
    ReadSpan { start: start as usize, len: (end - start) as usize }
}

/// The size of the buffer that a part of the source is read into.
pub fn buffer_size(len: usize, read_buffer_size: usize) -> (size: usize)
    ensures
        size <= len,
        size <= read_buffer_size,
        size == len || size == read_buffer_size,
{
    if len <= read_buffer_size {
        len
    } else {
        read_buffer_size
    }
}

/// The places of the four samples around a point: upper left, upper right, lower left, lower right.
#[derive(Clone, Copy, Debug, PartialEq, Eq, Structural)]
pub struct Taps {
    pub upper_left: usize,
    pub upper_right: usize,
    pub lower_left: usize,
    pub lower_right: usize,
}

/// The next column or row, or the last where there is none.
pub open spec fn next_within(i: int, size: int) -> int {
    if i + 1 < size {
        i + 1
    } else {
        size - 1
    }
}

/// The place of a sample in a buffer that is kept row by row.
pub open spec fn place(x: int, y: int, width: int) -> int {
    y * width + x
}

proof fn lemma_place(x: int, y: int, width: int, height: int)
    requires
        0 <= x < width,
        0 <= y < height,
    ensures
        0 <= y * width <= place(x, y, width) < width * height,
{
    assert(0 <= y * width && y * width + width <= width * height) by (nonlinear_arith)
        requires
            0 <= y < height,
            0 < width,
    ;
}

/// The places of the four samples around a point that lies in the column `x` and the row `y` of a
/// buffer.
pub fn bilinear_taps(x: usize, y: usize, width: usize, height: usize) -> (taps: Taps)
    requires
        x < width,
        y < height,
        width * height <= usize::MAX,
    ensures
        taps.upper_left == place(x as int, y as int, width as int),
        taps.upper_right == place(next_within(x as int, width as int), y as int, width as int),
        taps.lower_left == place(x as int, next_within(y as int, height as int), width as int),
        taps.lower_right == place(
            next_within(x as int, width as int),
            next_within(y as int, height as int),
            width as int,
        ),
        taps.upper_left < width * height,
        taps.upper_right < width * height,
        taps.lower_left < width * height,
        taps.lower_right < width * height,
{
    let right: usize = if x < width - 1 {
        x + 1
    } else {
        width - 1
    };
    let below: usize = if y < height - 1 {
        y + 1
    } else {
        height - 1
    };
    proof {
        lemma_place(x as int, y as int, width as int, height as int);
        lemma_place(right as int, y as int, width as int, height as int);
        lemma_place(x as int, below as int, width as int, height as int);
        lemma_place(right as int, below as int, width as int, height as int);
    }
    Taps {
        upper_left: y * width + x,
        upper_right: y * width + right,
        lower_left: below * width + x,
        lower_right: below * width + right,
    }
}

/// How the value at a point comes from the four samples around it.
#[derive(Clone, Copy, Debug, PartialEq, Eq, Structural)]
pub enum SampleRule {
    /// Weighted by their distance.
    Blend,
    /// The nearest one alone.
    Nearest { place: usize },
}

/// How the value at a point comes from the samples around it: as soon as one of them has no data,
/// the nearest alone counts.
pub fn sample_rule(taps: Taps, any_nodata: bool, nearer_left: bool, nearer_top: bool) -> (rule:
    SampleRule)
    ensures
        !any_nodata ==> rule is Blend,
        any_nodata ==> rule == (SampleRule::Nearest {
            place: if nearer_top {
                if nearer_left {
                    taps.upper_left
                } else {
                    taps.upper_right
                }
            } else {
                if nearer_left {
                    taps.lower_left
                } else {
                    taps.lower_right
                }
            },
        }),
{
    if any_nodata {
        let place: usize = if nearer_top {
            if nearer_left {
                taps.upper_left
            } else {
                taps.upper_right
            }
        } else {
            if nearer_left {
                taps.lower_left
            } else {
                taps.lower_right
            }
        };
        SampleRule::Nearest { place }
    } else {
        SampleRule::Blend
    }
}

/// How heights become colours.
#[derive(Clone, Copy, Debug, PartialEq, Eq, Structural)]
pub enum Encoding {
    /// Steps of an interval above a base, the lowest bits cleared.
    Mapbox,
    /// 256ths of a metre above 32768 metres below zero.
    Terrarium,
}

/// A number with its lowest bits cleared.
pub open spec fn cleared(code: nat, bits: nat) -> nat {
    code / pow2(bits) * pow2(bits)
}

/// The three bytes of a number, the highest first.
pub open spec fn rgb_of(code: nat) -> Seq<u8> {
    seq![(code / 65536 % 256) as u8, (code / 256 % 256) as u8, (code % 256) as u8]
}

/// The number that three bytes stand for.
pub open spec fn code_of(rgb: Seq<u8>) -> nat {
    (rgb[0] * 65536 + rgb[1] * 256 + rgb[2]) as nat
}

/// The colour of a height, given its number in an encoding.
pub open spec fn color_of(encoding: Encoding, code: nat, round: nat) -> Seq<u8> {
    match encoding {
        Encoding::Mapbox => rgb_of(cleared(code, round)),
        Encoding::Terrarium => rgb_of(code),
    }
}

/// The colour of pixels without data.
pub open spec fn black() -> Seq<u8> {
    seq![0u8, 0u8, 0u8]
}

fn clear_low_bits(code: u32, bits: u32) -> (r: u32)
    ensures
        r == cleared(code as nat, bits as nat),
{
    if bits >= 32 {
        proof {
            lemma_pow2_pos(bits as nat);
            if bits > 32 {
                lemma_pow2_strictly_increases(32, bits as nat);
            }
            lemma2_to64();
            lemma_basic_div(code as int, pow2(bits as nat) as int);
            assert(0 * pow2(bits as nat) == 0);
        }
        return 0;
    }
    let upper: u32 = code >> bits;
    proof {
        vstd::bits::lemma_u32_shr_is_div(code, bits);
        lemma_pow2_pos(bits as nat);
        lemma_fundamental_div_mod(code as int, pow2(bits as nat) as int);
        let q = code as int / pow2(bits as nat) as int;
        let p = pow2(bits as nat) as int;
        assert(q * p == p * q) by (nonlinear_arith);
        vstd::bits::lemma_u32_shl_is_mul(upper, bits);
    }
    upper << bits
}

fn pack(code: u32) -> (rgb: [u8; 3])
    ensures
        rgb@ == rgb_of(code as nat),
{
    let rgb: [u8; 3] = [
        (code / 65536 % 256) as u8,
        (code / 256 % 256) as u8,
        (code % 256) as u8,
    ];
    assert(rgb@ =~= rgb_of(code as nat));
    rgb
}

/// The colour of a sample: that of no data for a sample without data; that of a sample of height
/// zero, which may itself read as one without data, for a sample below the threshold; and its own
/// for any other.
pub open spec fn elev_color(
    encoding: Encoding,
    round: nat,
    is_nodata: bool,
    is_below: bool,
    zero_is_nodata: bool,
    code: nat,
    zero_code: nat,
) -> Seq<u8> {
    if is_nodata || (is_below && zero_is_nodata) {
        black()
    } else if is_below {
        color_of(encoding, zero_code, round)
    } else {
        color_of(encoding, code, round)
    }
}

/// The colour of a sample. `code` and `zero_code` are the numbers of its height and of height zero
/// in the encoding; `zero_is_nodata` says whether a sample of height zero has no data.
pub fn encode_elev(
    encoding: Encoding,
    round: u32,
    is_nodata: bool,
    is_below: bool,
    zero_is_nodata: bool,
    code: u32,
    zero_code: u32,
) -> (rgb: [u8; 3])
    ensures
        rgb@ == elev_color(
            encoding,
            round as nat,
            is_nodata,
            is_below,
            zero_is_nodata,
            code as nat,
            zero_code as nat,
        ),
{
    if is_nodata || (is_below && zero_is_nodata) {
        let rgb: [u8; 3] = [0, 0, 0];
        assert(rgb@ =~= black());
        return rgb;
    }
    let number: u32 = if is_below {
        zero_code
    } else {
        code
    };
    match encoding {
        Encoding::Mapbox => pack(clear_low_bits(number, round)),
        Encoding::Terrarium => pack(number),
    }
}

/// A sample with data that is below the threshold has the colour that a sample of height zero has
/// without a threshold; any other sample has the colour that it has without one.
pub proof fn law_below_threshold_like_zero(
    encoding: Encoding,
    round: nat,
    is_nodata: bool,
    is_below: bool,
    zero_is_nodata: bool,
    code: nat,
    zero_code: nat,
)
    ensures
        elev_color(encoding, round, is_nodata, is_below, zero_is_nodata, code, zero_code) == (
        if !is_nodata && is_below {
            elev_color(encoding, round, zero_is_nodata, false, zero_is_nodata, zero_code, zero_code)
        } else {
            elev_color(encoding, round, is_nodata, false, zero_is_nodata, code, zero_code)
        }),
{
}

/// A colour gives its number back, as far as three bytes hold it.
pub proof fn law_color_gives_number_back(code: nat)
    ensures
        code_of(rgb_of(code)) == code % 0x100_0000,
        code < 0x100_0000 ==> code_of(rgb_of(code)) == code,
{
}

/// Clearing the lowest bits takes off less than they stand for, and leaves a multiple of that.
pub proof fn law_clearing_loses_little(code: nat, bits: nat)
    ensures
        cleared(code, bits) <= code < cleared(code, bits) + pow2(bits),
        cleared(code, bits) % pow2(bits) == 0,
        cleared(code, 0) == code,
{
    lemma_pow2_pos(bits);
    let p = pow2(bits) as int;
    let q = code as int / p;
    lemma_fundamental_div_mod(code as int, p);
    assert(q * p == p * q) by (nonlinear_arith);
    lemma_mod_multiples_basic(q, p);
    lemma2_to64();
    lemma_div_basics(code as int);
}

/// Two colours are the same if their bytes are.
pub fn same_color(a: [u8; 3], b: [u8; 3]) -> (r: bool)
    ensures
        r == (a@ == b@),
{
    let r: bool = a[0] == b[0] && a[1] == b[1] && a[2] == b[2];
    proof {
        if r {
            assert(a@ =~= b@);
        }
    }
    r
}

/// Takes one more colour into account, until two have differed: the first is kept, and the first
/// that differs from it is noted.
pub fn track_uniform_color(c: [u8; 3], first_color: &mut Option<[u8; 3]>, all_same: &mut bool)
    ensures
        !*old(all_same) ==> *final(first_color) == *old(first_color) && !*final(all_same),
        *old(all_same) ==> match *old(first_color) {
            Some(first) => {
                &&& *final(first_color) == *old(first_color)
                &&& *final(all_same) == (first@ == c@)
            },
            None => *final(first_color) == Some(c) && *final(all_same),
        },
{
    if !*all_same {
        return;
    }
    match *first_color {
        Some(first) => {
            if !same_color(first, c) {
                *all_same = false;
            }
        },
        None => {
            *first_color = Some(c);
        },
    }
}

/// The colours of pixels that stand byte by byte in a row.
pub open spec fn colors(rgb: Seq<u8>) -> Seq<Seq<u8>> {
    Seq::new(rgb.len() / 3, |i: int| seq![rgb[3 * i], rgb[3 * i + 1], rgb[3 * i + 2]])
}

/// One more pixel is one more colour.
proof fn lemma_colors_push(rgb: Seq<u8>, a: u8, b: u8, c: u8)
    requires
        rgb.len() % 3 == 0,
    ensures
        colors(rgb.push(a).push(b).push(c)) == colors(rgb).push(seq![a, b, c]),
        rgb.push(a).push(b).push(c).len() % 3 == 0,
{
    let more = rgb.push(a).push(b).push(c);
    assert(colors(more) =~= colors(rgb).push(seq![a, b, c]));
}

/// The pixels of a tile while they are put together.
pub struct TilePixels {
    pub rgb: Vec<u8>,
    pub any_valid: bool,
    pub track: bool,
    pub first_color: Option<[u8; 3]>,
    pub all_same: bool,
}

/// A tile whose pixels are complete: their bytes, and their colour where all have the same.
pub struct FinishedPixels {
    pub rgb: Vec<u8>,
    pub uniform_color: Option<[u8; 3]>,
}

/// Whether all colours are the first.
pub open spec fn uniform(pixels: Seq<Seq<u8>>) -> bool {
    forall|i: int| 0 <= i < pixels.len() ==> (#[trigger] pixels[i]) == pixels[0]
}

/// Whether some pixel has data.
pub open spec fn has_data(pixels: Seq<Seq<u8>>) -> bool {
    exists|i: int| 0 <= i < pixels.len() && (#[trigger] pixels[i]) != black()
}

impl TilePixels {
    /// The colours so far.
    pub open spec fn pixels(self) -> Seq<Seq<u8>> {
        colors(self.rgb@)
    }

    /// What is noted of the pixels is true of them.
    pub open spec fn wf(self) -> bool {
        &&& self.rgb@.len() % 3 == 0
        &&& self.any_valid == has_data(self.pixels())
        &&& self.track ==> self.all_same == uniform(self.pixels())
        &&& self.track && self.pixels().len() == 0 ==> self.first_color is None
        &&& self.track && self.pixels().len() > 0 ==> (self.first_color matches Some(c) && c@
            == self.pixels()[0])
        &&& !self.track ==> !self.all_same
    }

    /// No pixels yet; `track` if it matters whether they are all the same.
    pub fn new(track: bool) -> (pixels: TilePixels)
        ensures
            pixels.wf(),
            pixels.pixels().len() == 0,
            pixels.track == track,
    {
        TilePixels {
            rgb: Vec::new(),
            any_valid: false,
            track,
            first_color: None,
            all_same: track,
        }
    }

    /// Adds a pixel.
    pub fn push(&mut self, c: [u8; 3])
        requires
            old(self).wf(),
        ensures
            final(self).wf(),
            final(self).pixels() == old(self).pixels().push(c@),
            final(self).track == old(self).track,
    {
        let ghost before = self.pixels();
        let ghost bytes = self.rgb@;
        if c[0] != 0 || c[1] != 0 || c[2] != 0 {
            self.any_valid = true;
        }
        if self.track {
            track_uniform_color(c, &mut self.first_color, &mut self.all_same);
        }
        self.rgb.push(c[0]);
        self.rgb.push(c[1]);
        self.rgb.push(c[2]);
        proof {
            lemma_colors_push(bytes, c[0], c[1], c[2]);
            assert(c@ =~= seq![c[0], c[1], c[2]]);
            let after = before.push(c@);
            assert(self.pixels() == after);
            assert(after.last() == c@);
            assert(has_data(after) == (has_data(before) || c@ != black())) by {
                if has_data(before) {
                    let i = choose|i: int| 0 <= i < before.len() && (#[trigger] before[i]) != black();
                    assert(after[i] == before[i]);
                }
                if c@ != black() {
                    assert(after[before.len() as int] != black());
                }
                if has_data(after) {
                    let i = choose|i: int| 0 <= i < after.len() && (#[trigger] after[i]) != black();
                    if i < before.len() {
                        assert(before[i] == after[i]);
                    }
                }
            }
            assert((c[0] != 0 || c[1] != 0 || c[2] != 0) == (c@ != black())) by {
                if c[0] == 0 && c[1] == 0 && c[2] == 0 {
                    assert(c@ =~= black());
                }
            }
            if before.len() > 0 {
                assert(uniform(after) == (uniform(before) && c@ == before[0])) by {
                    if uniform(after) {
                        assert forall|i: int| 0 <= i < before.len() implies (#[trigger] before[i])
                            == before[0] by {
                            assert(after[i] == after[0]);
                        }
                        assert(after[before.len() as int] == after[0]);
                    }
                    if uniform(before) && c@ == before[0] {
                        assert forall|i: int| 0 <= i < after.len() implies (#[trigger] after[i])
                            == after[0] by {
                            if i < before.len() {
                                assert(before[i] == before[0]);
                            }
                        }
                    }
                }
            }
        }
    }

    /// The tile, or nothing where no pixel has data. Its colour is given where it matters and all
    /// pixels have the same.
    pub fn finish(self) -> (tile: Option<FinishedPixels>)
        requires
            self.wf(),
        ensures
            tile is Some <==> has_data(self.pixels()),
            tile matches Some(t) ==> {
                &&& t.rgb == self.rgb
                &&& t.uniform_color is Some <==> self.track && uniform(self.pixels())
                &&& t.uniform_color matches Some(c) ==> c@ == self.pixels()[0]
            },
    {
        if !self.any_valid {
            return None;
        }
        let uniform_color: Option<[u8; 3]> = if self.all_same {
            self.first_color
        } else {
            None
        };
        Some(FinishedPixels { rgb: self.rgb, uniform_color })
    }
}

/// The bytes of a tile of one colour.
pub open spec fn solid_rgb(color: Seq<u8>) -> Seq<u8> {
    Seq::new(3 * GRID_PIXELS as nat, |i: int| color[i % 3])
}

/// The bytes of a tile of one colour.
pub fn solid_tile(color: [u8; 3]) -> (rgb: Vec<u8>)
    ensures
        rgb@ == solid_rgb(color@),
{
    let mut rgb: Vec<u8> = Vec::new();
    let mut i: usize = 0;
    while i < GRID_PIXELS
        invariant
            i <= GRID_PIXELS,
            rgb@.len() == 3 * i,
            forall|k: int| 0 <= k < rgb@.len() ==> #[trigger] rgb@[k] == color@[k % 3],
        decreases GRID_PIXELS - i,
    {
        rgb.push(color[0]);
        rgb.push(color[1]);
        rgb.push(color[2]);
        i += 1;
    }
    assert(rgb@ =~= solid_rgb(color@));
    rgb
}

/// Every pixel of a tile of one colour has that colour.
pub proof fn law_solid_tile_is_uniform(color: Seq<u8>)
    requires
        color.len() == 3,
    ensures
        colors(solid_rgb(color)) == Seq::new(GRID_PIXELS as nat, |i: int| color),
        uniform(colors(solid_rgb(color))),
{
    let rgb = solid_rgb(color);
    let pixels = colors(rgb);
    assert forall|i: int| 0 <= i < pixels.len() implies #[trigger] pixels[i] == color by {
        assert(pixels[i] =~= color);
    }
    assert(pixels =~= Seq::new(GRID_PIXELS as nat, |i: int| color));
}

/// Whether the source is in longitude and latitude of WGS 84, given what its reference system is
/// known as.
pub fn is_wgs84(geographic: bool, authority: Option<String>, code: Option<i32>) -> (r: bool)
    ensures
        r == (geographic && (authority matches Some(a) && a@ == "EPSG"@) && code == Some(4326i32)),
{
    let known: bool = match authority {
        Some(name) => name.eq(&"EPSG".to_owned()),
        None => false,
    };
    let numbered: bool = match code {
        Some(n) => n == 4326,
        None => false,
    };
    geographic && known && numbered
}

/// The four samples are those of one row and the next, of one column and the next: the right ones
/// stand one place after the left ones, the lower ones a whole row after the upper ones, and at the
/// last column or row they are the same ones.
pub proof fn law_taps_are_neighbours(x: usize, y: usize, width: usize, height: usize, taps: Taps)
    requires
        call_ensures(bilinear_taps, (x, y, width, height), taps),
        x < width,
        y < height,
    ensures
        taps.upper_left == y * width + x,
        x + 1 < width ==> taps.upper_right == taps.upper_left + 1 && taps.lower_right
            == taps.lower_left + 1,
        x + 1 == width ==> taps.upper_right == taps.upper_left && taps.lower_right
            == taps.lower_left,
        y + 1 < height ==> taps.lower_left == taps.upper_left + width && taps.lower_right
            == taps.upper_right + width,
        y + 1 == height ==> taps.lower_left == taps.upper_left && taps.lower_right
            == taps.upper_right,
{
    assert((y + 1) * width == y * width + width) by (nonlinear_arith);
}

/// As soon as a sample has no data, the nearest of the four is taken as it is; otherwise all four
/// are blended.
pub proof fn law_nearest_where_data_is_missing(
    taps: Taps,
    any_nodata: bool,
    nearer_left: bool,
    nearer_top: bool,
    rule: SampleRule,
)
    requires
        call_ensures(sample_rule, (taps, any_nodata, nearer_left, nearer_top), rule),
    ensures
        rule is Blend <==> !any_nodata,
        any_nodata && nearer_top && nearer_left ==> rule == (SampleRule::Nearest {
            place: taps.upper_left,
        }),
        any_nodata && nearer_top && !nearer_left ==> rule == (SampleRule::Nearest {
            place: taps.upper_right,
        }),
        any_nodata && !nearer_top && nearer_left ==> rule == (SampleRule::Nearest {
            place: taps.lower_left,
        }),
        any_nodata && !nearer_top && !nearer_left ==> rule == (SampleRule::Nearest {
            place: taps.lower_right,
        }),
{
}

/// What is read along an axis are all pixels of the source from one before the tile to one after
/// it, and no others, but for one pixel at least.
pub proof fn law_read_covers_the_tile(
    first: i64,
    last: i64,
    size: usize,
    span: ReadSpan,
    p: int,
)
    requires
        call_ensures(read_span, (first, last, size), span),
        1 <= size,
    ensures
        1 <= span.len,
        span.start + span.len <= size,
        0 <= p < size && first - 1 <= p <= last + 1 ==> span.start <= p < span.start + span.len,
        span.start <= p < span.start + span.len ==> first - 1 <= p <= last + 1 || span.len == 1,
        1 <= first <= size ==> span.start == first - 1,
        first < 1 ==> span.start == 0,
        first > size ==> span.start == size - 1,
        span.start <= last && last + 2 <= size ==> span.start + span.len == last + 2,
        span.start <= last && last + 2 > size ==> span.start + span.len == size,
{
}

/// A part of the source is read at its full size as long as the buffer takes it.
pub proof fn law_buffer_takes_what_fits(len: usize, limit: usize, size: usize)
    requires
        call_ensures(buffer_size, (len, limit), size),
    ensures
        len <= limit ==> size == len,
        len > limit ==> size == limit,
{
}

/// The colour of a height, read as one number, is its number in the encoding. Mapbox takes off less
/// than the bits to be cleared stand for, and leaves a multiple of that. Of a number that three
/// bytes do not hold the lower three are left.
pub proof fn law_color_decodes_to_its_height(
    encoding: Encoding,
    round: u32,
    zero_is_nodata: bool,
    code: u32,
    zero_code: u32,
    rgb: [u8; 3],
)
    requires
        call_ensures(
            encode_elev,
            (encoding, round, false, false, zero_is_nodata, code, zero_code),
            rgb,
        ),
    ensures
        encoding == Encoding::Terrarium ==> rgb@[0] * 65536 + rgb@[1] * 256 + rgb@[2] == code
            % 0x100_0000,
        encoding == Encoding::Mapbox && code < 0x100_0000 ==> {
            let n = rgb@[0] * 65536 + rgb@[1] * 256 + rgb@[2];
            n <= code && code - n < pow2(round as nat) && n % pow2(round as nat) as int == 0
        },
        encoding == Encoding::Mapbox && round == 0 ==> rgb@[0] * 65536 + rgb@[1] * 256 + rgb@[2]
            == code % 0x100_0000,
        encoding == Encoding::Mapbox ==> exists|kept: int|
            0 <= kept <= code && code - kept < pow2(round as nat) && kept % pow2(round as nat) as int
                == 0 && rgb@[0] * 65536 + rgb@[1] * 256 + rgb@[2] == #[trigger] (kept
                % 0x100_0000),
{
    law_clearing_loses_little(code as nat, round as nat);
    law_color_gives_number_back(code as nat);
    law_color_gives_number_back(cleared(code as nat, round as nat));
    if encoding == Encoding::Mapbox {
        let kept = cleared(code as nat, round as nat) as int;
        assert(rgb@[0] * 65536 + rgb@[1] * 256 + rgb@[2] == kept % 0x100_0000);
    }
}

/// A sample without data is black, and so is one below the threshold where height zero has no data
/// either.
pub proof fn law_missing_data_is_black(
    encoding: Encoding,
    round: u32,
    is_nodata: bool,
    is_below: bool,
    zero_is_nodata: bool,
    code: u32,
    zero_code: u32,
    rgb: [u8; 3],
)
    requires
        call_ensures(
            encode_elev,
            (encoding, round, is_nodata, is_below, zero_is_nodata, code, zero_code),
            rgb,
        ),
        is_nodata || (is_below && zero_is_nodata),
    ensures
        rgb@[0] == 0 && rgb@[1] == 0 && rgb@[2] == 0,
{
}

/// A sample with data below the threshold has the colour of a sample of height zero, whatever its
/// own height.
pub proof fn law_threshold_gives_zero(
    encoding: Encoding,
    round: u32,
    code: u32,
    zero_code: u32,
    rgb: [u8; 3],
    zero_rgb: [u8; 3],
)
    requires
        call_ensures(encode_elev, (encoding, round, false, true, false, code, zero_code), rgb),
        call_ensures(
            encode_elev,
            (encoding, round, false, false, false, zero_code, zero_code),
            zero_rgb,
        ),
    ensures
        rgb@ == zero_rgb@,
{
}

/// The colours of pixels are their bytes, three by three.
pub proof fn law_colors_are_triples(rgb: Seq<u8>, k: int)
    requires
        rgb.len() % 3 == 0,
        0 <= k < rgb.len(),
    ensures
        colors(rgb).len() * 3 == rgb.len(),
        colors(rgb)[k / 3].len() == 3,
        colors(rgb)[k / 3][k % 3] == rgb[k],
{
    assert(k == 3 * (k / 3) + k % 3);
}

/// A pixel adds its three bytes.
pub proof fn law_pixel_adds_its_bytes(pixels: &mut TilePixels, c: [u8; 3])
    requires
        old(pixels).wf(),
        call_ensures(TilePixels::push, (pixels, c), ()),
    ensures
        final(pixels).rgb@ == old(pixels).rgb@ + c@,
        final(pixels).track == old(pixels).track,
{
    let before = old(pixels).rgb@;
    let after = final(pixels).rgb@;
    let n = before.len() / 3;
    assert(colors(after).len() == n + 1);
    assert(after.len() == before.len() + 3);
    assert forall|k: int| 0 <= k < after.len() implies after[k] == (before + c@)[k] by {
        law_colors_are_triples(after, k);
        if k < before.len() {
            law_colors_are_triples(before, k);
            assert(colors(after)[k / 3] == colors(before)[k / 3]);
        } else {
            assert(k / 3 == n);
            assert(colors(after)[n as int] == c@);
        }
    }
    assert(after =~= before + c@);
}

/// A tile is nothing exactly if all its bytes are zero. Otherwise it keeps its bytes, and has a
/// colour exactly if that matters and all its pixels have the same bytes.
pub proof fn law_tile_says_what_its_bytes_are(pixels: TilePixels, tile: Option<FinishedPixels>)
    requires
        pixels.wf(),
        call_ensures(TilePixels::finish, (pixels,), tile),
    ensures
        tile is None <==> forall|k: int|
            0 <= k < pixels.rgb@.len() ==> #[trigger] pixels.rgb@[k] == 0,
        tile matches Some(t) ==> t.rgb@ == pixels.rgb@,
        tile matches Some(t) ==> (t.uniform_color is Some <==> pixels.track && forall|k: int|
            0 <= k < pixels.rgb@.len() ==> #[trigger] pixels.rgb@[k] == pixels.rgb@[k % 3]),
        tile matches Some(t) ==> (t.uniform_color matches Some(c) ==> c@[0] == pixels.rgb@[0]
            && c@[1] == pixels.rgb@[1] && c@[2] == pixels.rgb@[2]),
{
    lemma_data_bytes(pixels.rgb@);
    lemma_uniform_bytes(pixels.rgb@);
    if tile is Some && tile->0.uniform_color is Some {
        assert(pixels.pixels().len() > 0);
        law_colors_are_triples(pixels.rgb@, 0);
        law_colors_are_triples(pixels.rgb@, 1);
        law_colors_are_triples(pixels.rgb@, 2);
    }
}

/// Some pixel has data exactly if some byte is not zero.
pub proof fn lemma_data_bytes(rgb: Seq<u8>)
    requires
        rgb.len() % 3 == 0,
    ensures
        has_data(colors(rgb)) <==> !(forall|k: int| 0 <= k < rgb.len() ==> #[trigger] rgb[k] == 0),
{
    let all = colors(rgb);
    if has_data(all) {
        let i = choose|i: int| 0 <= i < all.len() && (#[trigger] all[i]) != black();
        if forall|k: int| 0 <= k < rgb.len() ==> #[trigger] rgb[k] == 0 {
            assert(rgb[3 * i] == 0 && rgb[3 * i + 1] == 0 && rgb[3 * i + 2] == 0);
            assert(all[i] =~= black());
        }
    }
    if !(forall|k: int| 0 <= k < rgb.len() ==> #[trigger] rgb[k] == 0) {
        let k = choose|k: int| 0 <= k < rgb.len() && #[trigger] rgb[k] != 0;
        law_colors_are_triples(rgb, k);
        let i = k / 3;
        let c = k % 3;
        assert(all[i][c] != 0);
        assert(black()[c] == 0);
        assert(all[i] != black());
    }
}

/// All pixels have one colour exactly if their bytes repeat three by three.
pub proof fn lemma_uniform_bytes(rgb: Seq<u8>)
    requires
        rgb.len() % 3 == 0,
    ensures
        uniform(colors(rgb)) <==> forall|k: int|
            0 <= k < rgb.len() ==> #[trigger] rgb[k] == rgb[k % 3],
{
    let all = colors(rgb);
    if uniform(all) {
        assert forall|k: int| 0 <= k < rgb.len() implies #[trigger] rgb[k] == rgb[k % 3] by {
            let i = k / 3;
            let c = k % 3;
            law_colors_are_triples(rgb, k);
            law_colors_are_triples(rgb, c);
            assert(c / 3 == 0 && c % 3 == c);
            assert(all[i] == all[0]);
        }
    }
    if forall|k: int| 0 <= k < rgb.len() ==> #[trigger] rgb[k] == rgb[k % 3] {
        assert forall|i: int| 0 <= i < all.len() implies (#[trigger] all[i]) == all[0] by {
            let (a, b, c) = (3 * i, 3 * i + 1, 3 * i + 2);
            assert(a % 3 == 0 && b % 3 == 1 && c % 3 == 2);
            assert(rgb[a] == rgb[0] && rgb[b] == rgb[1] && rgb[c] == rgb[2]);
            assert(all[i] =~= all[0]);
        }
    }
}

/// A tile of one colour has 514 times 514 pixels, and all have that colour.
pub proof fn law_solid_tile_is_solid(color: [u8; 3], rgb: Vec<u8>)
    requires
        call_ensures(solid_tile, (color,), rgb),
    ensures
        rgb@.len() == 3 * 514 * 514,
        forall|k: int| 0 <= k < rgb@.len() ==> #[trigger] rgb@[k] == color@[k % 3],
{
}

/// Only a geographic reference system that is known as EPSG:4326 is WGS 84.
pub proof fn law_wgs84_by_its_code(
    geographic: bool,
    authority: Option<String>,
    code: Option<i32>,
    r: bool,
)
    requires
        call_ensures(is_wgs84, (geographic, authority, code), r),
    ensures
        r ==> geographic && authority is Some && authority->0@ == "EPSG"@ && code == Some(4326i32),
        geographic && authority is Some && authority->0@ == "EPSG"@ && code == Some(4326i32) ==> r,
{
}

/// Two colours are the same exactly if all three bytes are.
pub proof fn law_same_color_same_bytes(a: [u8; 3], b: [u8; 3], r: bool)
    requires
        call_ensures(same_color, (a, b), r),
    ensures
        r <==> a@[0] == b@[0] && a@[1] == b@[1] && a@[2] == b@[2],
{
    if a@[0] == b@[0] && a@[1] == b@[1] && a@[2] == b@[2] {
        assert(a@ =~= b@);
    }
}

/// The first colour is kept; once a colour has differed from it, that is never forgotten.
pub proof fn law_first_color_is_kept(
    c: [u8; 3],
    first_color: &mut Option<[u8; 3]>,
    all_same: &mut bool,
)
    requires
        call_ensures(track_uniform_color, (c, first_color, all_same), ()),
    ensures
        *old(first_color) is Some ==> *final(first_color) == *old(first_color),
        !*old(all_same) ==> !*final(all_same),
        *old(all_same) && *old(first_color) is None ==> *final(first_color) == Some(c)
            && *final(all_same),
        *old(all_same) && *old(first_color) is Some ==> (*final(all_same) <==> (*old(first_color))->0@ == c@),
{
}

/// A tile starts without pixels.
pub proof fn law_tile_starts_empty(track: bool, pixels: TilePixels)
    requires
        call_ensures(TilePixels::new, (track,), pixels),
    ensures
        pixels.rgb@.len() == 0,
        pixels.track == track,
        !pixels.any_valid,
{
    assert(colors(pixels.rgb@).len() == 0);
    assert(pixels.rgb@.len() < 3);
}

} // verus!
