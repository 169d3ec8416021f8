//! What stands in an MBTiles file: its metadata, and the numbers of its rows.

use vstd::arithmetic::power2::*;
use vstd::prelude::*;
use vstd::string::*;

use crate::frontier::TileJob;
use crate::image_format::TileFormat;
use crate::text;

verus! {

/// A name and a value.
pub struct MetadataRow {
    pub name: String,
    pub value: String,
}

/// What some rows say.
pub open spec fn rows_text(rows: Seq<MetadataRow>) -> Seq<(Seq<char>, Seq<char>)> {
    Seq::new(rows.len(), |i: int| (rows[i].name@, rows[i].value@))
}

fn metadata_row(name: &str, value: &str) -> (row: MetadataRow)
    ensures
        row.name@ == name@,
        row.value@ == value@,
{
    MetadataRow { name: name.to_owned(), value: value.to_owned() }
}

/// The metadata of a file.
pub fn metadata_rows(format: TileFormat, min_z: u8, max_z: u8) -> (rows: Vec<MetadataRow>)
    ensures
        rows_text(rows@) == seq![
            ("name"@, "massif"@),
            ("format"@, format.media_type()),
            ("type"@, "baselayer"@),
            ("version"@, "1.1"@),
            ("minzoom"@, text::decimal(min_z as nat)),
            ("maxzoom"@, text::decimal(max_z as nat)),
        ],
{
    let mut rows: Vec<MetadataRow> = Vec::new();
    rows.push(metadata_row("name", "massif"));
    rows.push(metadata_row("format", format.mime()));
    rows.push(metadata_row("type", "baselayer"));
    rows.push(metadata_row("version", "1.1"));
    rows.push(metadata_row("minzoom", text::number_text(min_z as u64).as_str()));
    rows.push(metadata_row("maxzoom", text::number_text(max_z as u64).as_str()));
    assert(rows_text(rows@) =~= seq![
        ("name"@, "massif"@),
        ("format"@, format.media_type()),
        ("type"@, "baselayer"@),
        ("version"@, "1.1"@),
        ("minzoom"@, text::decimal(min_z as nat)),
        ("maxzoom"@, text::decimal(max_z as nat)),
    ]);
    rows
}

/// The row of a tile counted from the south: the rows of its zoom less one, less the row counted
/// from the north. It wraps around for a row that the zoom does not have.
pub open spec fn flipped(z: u8, y: u32) -> u32 {
    ((pow2(z as nat) - 1 - y) % 0x1_0000_0000) as u32
}

/// The row of a tile counted from the south.
pub fn xyz_to_tms_y(z: u8, y_xyz: u32) -> (row: u32)
    requires
        z < 32,
    ensures
        row == flipped(z, y_xyz),
        y_xyz < pow2(z as nat) ==> row == pow2(z as nat) - 1 - y_xyz,
{
    proof {
        vstd::bits::lemma_u32_pow2_no_overflow(z as nat);
        vstd::bits::lemma_u32_shl_is_mul(1, z as u32);
        lemma_pow2_pos(z as nat);
    }
    let rows: u32 = 1u32 << z as u32;
    (rows - 1).wrapping_sub(y_xyz)
}

/// Counting the rows of a zoom from the other end twice gives the row back.
pub proof fn law_flipping_twice(z: u8, y: u32)
    requires
        z < 32,
        y < pow2(z as nat),
    ensures
        flipped(z, y) < pow2(z as nat),
        flipped(z, flipped(z, y)) == y,
{
    vstd::bits::lemma_u32_pow2_no_overflow(z as nat);
}

/// A tile as it is looked up: its row from the north and from the south.
#[derive(Clone, Copy, Debug, PartialEq, Eq, Structural)]
pub struct CheckRow {
    pub z: u8,
    pub x: u32,
    pub y_xyz: u32,
    pub y_tms: u32,
}

/// The rows by which tiles are looked up.
pub fn check_rows(tiles: &[TileJob]) -> (rows: Vec<CheckRow>)
    requires
        forall|i: int| 0 <= i < tiles@.len() ==> (#[trigger] tiles@[i]).z < 32,
    ensures
        rows@ == Seq::new(
            tiles@.len(),
            |i: int|
                CheckRow {
                    z: tiles@[i].z,
                    x: tiles@[i].x,
                    y_xyz: tiles@[i].y,
                    y_tms: flipped(tiles@[i].z, tiles@[i].y),
                },
        ),
{
    let mut rows: Vec<CheckRow> = Vec::new();
    let mut i: usize = 0;
    while i < tiles.len()
        invariant
            i <= tiles.len(),
            forall|i: int| 0 <= i < tiles@.len() ==> (#[trigger] tiles@[i]).z < 32,
            rows@ == Seq::new(
                i as nat,
                |i: int|
                    CheckRow {
                        z: tiles@[i].z,
                        x: tiles@[i].x,
                        y_xyz: tiles@[i].y,
                        y_tms: flipped(tiles@[i].z, tiles@[i].y),
                    },
            ),
        decreases tiles.len() - i,
    {
        let tile = tiles[i];
        rows.push(
            CheckRow { z: tile.z, x: tile.x, y_xyz: tile.y, y_tms: xyz_to_tms_y(tile.z, tile.y) },
        );
        i += 1;
    }
    rows
}

/// Why the stored zoom cannot be used.
#[derive(Clone, Copy, Debug, PartialEq, Eq, Structural)]
pub enum ZoomError {
    /// There is none.
    Missing,
    /// It is not a zoom.
    Invalid,
}

/// The zoom that a stored value gives: a number of at most 255.
pub fn current_zoom(value: Option<&str>) -> (zoom: Result<Option<u8>, ZoomError>)
    ensures
        zoom == (match value {
            None => Ok::<Option<u8>, ZoomError>(None),
            Some(s) => match text::parsed(s@, u8::MAX as nat) {
                Some(n) => Ok::<Option<u8>, ZoomError>(Some(n as u8)),
                None => Err::<Option<u8>, ZoomError>(ZoomError::Invalid),
            },
        }),
{
    match value {
        None => Ok(None),
        Some(s) => {
            let chars = text::chars_of(s);
            match text::parse_number(chars.as_slice(), u8::MAX as u64) {
                Some(n) => Ok(Some(n as u8)),
                None => Err(ZoomError::Invalid),
            }
        },
    }
}

/// The row counted from the south and the row counted from the north add up to the last row.
pub proof fn law_rows_from_both_ends(z: u8, y: u32, row: u32)
    requires
        call_ensures(xyz_to_tms_y, (z, y), row),
        z < 32,
        y < pow2(z as nat),
    ensures
        row + y == pow2(z as nat) - 1,
{
}

/// A tile is looked up under its own zoom and column, and under its row from both ends.
pub proof fn law_looked_up_from_both_ends(tiles: &[TileJob], rows: Vec<CheckRow>, i: int)
    requires
        call_ensures(check_rows, (tiles,), rows),
        0 <= i < tiles@.len(),
        tiles@[i].z < 32,
        tiles@[i].y < pow2(tiles@[i].z as nat),
    ensures
        rows@.len() == tiles@.len(),
        rows@[i].z == tiles@[i].z,
        rows@[i].x == tiles@[i].x,
        rows@[i].y_xyz == tiles@[i].y,
        rows@[i].y_tms + tiles@[i].y == pow2(tiles@[i].z as nat) - 1,
{
    vstd::bits::lemma_u32_pow2_no_overflow(tiles@[i].z as nat);
}

/// The metadata name the format of the tiles and, in digits, the zooms.
pub proof fn law_metadata_name_the_zooms(
    format: TileFormat,
    min_z: u8,
    max_z: u8,
    rows: Vec<MetadataRow>,
    first: String,
    last: String,
)
    requires
        call_ensures(metadata_rows, (format, min_z, max_z), rows),
        call_ensures(text::number_text, (min_z as u64,), first),
        call_ensures(text::number_text, (max_z as u64,), last),
    ensures
        rows@.len() == 6,
        rows@[0].name@ == "name"@ && rows@[0].value@ == "massif"@,
        rows@[1].name@ == "format"@,
        format == TileFormat::Png ==> rows@[1].value@ == "image/png"@,
        format == TileFormat::Webp ==> rows@[1].value@ == "image/webp"@,
        rows@[2].name@ == "type"@ && rows@[2].value@ == "baselayer"@,
        rows@[3].name@ == "version"@ && rows@[3].value@ == "1.1"@,
        rows@[4].name@ == "minzoom"@ && rows@[4].value@ == first@,
        rows@[5].name@ == "maxzoom"@ && rows@[5].value@ == last@,
{
    let said = rows_text(rows@);
    assert(said.len() == rows@.len());
    assert(forall|i: int| 0 <= i < 6 ==> #[trigger] said[i] == (rows@[i].name@, rows@[i].value@));
    assert(said[0].0 == "name"@ && said[1].0 == "format"@ && said[2].0 == "type"@);
    assert(said[3].0 == "version"@ && said[4].0 == "minzoom"@ && said[5].0 == "maxzoom"@);
}

/// A zoom that was stored in digits is found again; a number that is none, and a text that is no
/// number, are refused; without a text there is no zoom.
pub proof fn law_stored_zoom_is_found(
    value: Option<&str>,
    zoom: Result<Option<u8>, ZoomError>,
    n: u64,
    digits: String,
)
    requires
        call_ensures(current_zoom, (value,), zoom),
        call_ensures(text::number_text, (n,), digits),
    ensures
        value is None <==> (zoom matches Ok(None)),
        (value matches Some(s) && s@ == digits@) ==> if n <= 255 {
            zoom == Ok::<Option<u8>, ZoomError>(Some(n as u8))
        } else {
            zoom == Err::<Option<u8>, ZoomError>(ZoomError::Invalid)
        },
        value is Some && zoom is Err ==> zoom == Err::<Option<u8>, ZoomError>(ZoomError::Invalid),
{
    text::lemma_decimal(n as nat);
    text::law_decimal_parses(n as nat, n as nat);
}

/// The two rows of any tile add up to the last row of its zoom, beyond the zoom by wrapping around.
pub proof fn law_rows_wrap_around(z: u8, y: u32, row: u32)
    requires
        call_ensures(xyz_to_tms_y, (z, y), row),
        z < 32,
    ensures
        row + y == pow2(z as nat) - 1 || row + y == pow2(z as nat) - 1 + 0x1_0000_0000,
{
    vstd::bits::lemma_u32_pow2_no_overflow(z as nat);
    lemma_pow2_pos(z as nat);
}

/// A stored zoom is read as a number of at most 255, and refused if it is none.
pub proof fn law_stored_zoom_is_a_number(
    value: &str,
    zoom: Result<Option<u8>, ZoomError>,
    chars: &[char],
    n: Option<u64>,
)
    requires
        call_ensures(current_zoom, (Some(value),), zoom),
        chars@ == value@,
        call_ensures(text::parse_number, (chars, 255u64), n),
    ensures
        n matches Some(v) ==> zoom == Ok::<Option<u8>, ZoomError>(Some(v as u8)),
        n is None ==> zoom == Err::<Option<u8>, ZoomError>(ZoomError::Invalid),
{
}

} // verus!
