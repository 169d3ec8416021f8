//! What the command line may ask for.

use vstd::prelude::*;
use vstd::string::*;

verus! {

/// The container of the tiles.
#[derive(Clone, Copy, Debug, PartialEq, Eq, Structural)]
pub enum OutputKind {
    Pmtiles,
    Mbtiles,
}

/// Why what is asked for cannot be done.
pub enum OptionError {
    /// The first zoom comes after the last.
    ZoomOrder,
    /// The last zoom is deeper than tiles are numbered.
    ZoomTooDeep,
    /// The output has none of the known extensions.
    UnknownExtension { extension: Option<String> },
    /// The staging directory is to be kept, but there is none.
    KeepTempNeedsPmtiles,
    /// The archive is to be built from the staging directory, but there is none.
    BuildFromTempNeedsPmtiles,
}

/// The size of the read buffer that a text gives: one of two, or the reason why not.
pub fn parse_read_buffer_size(value: &str) -> (size: Result<usize, String>)
    ensures
        value@ == "1024"@ ==> size == Ok::<usize, String>(1024),
        value@ == "2048"@ ==> size == Ok::<usize, String>(2048),
        value@ != "1024"@ && value@ != "2048"@ ==> (size matches Err(e) && e@
            == "read buffer size must be either 1024 or 2048"@),
{
    let text: String = value.to_owned();
    proof {
        reveal_strlit("1024");
        reveal_strlit("2048");
        assert("1024"@[0] != "2048"@[0]);
    }
    if text.eq(&"1024".to_owned()) {
        Ok(1024)
    } else if text.eq(&"2048".to_owned()) {
        Ok(2048)
    } else {
        Err("read buffer size must be either 1024 or 2048".to_owned())
    }
}

/// The container that the extension of the output names.
pub open spec fn kind_of(extension: Option<Seq<char>>) -> Option<OutputKind> {
    if extension == Some("pmtiles"@) {
        Some(OutputKind::Pmtiles)
    } else if extension == Some("mbtiles"@) {
        Some(OutputKind::Mbtiles)
    } else {
        None
    }
}

/// What an optional text says.
pub open spec fn said(text: Option<String>) -> Option<Seq<char>> {
    match text {
        Some(s) => Some(s@),
        None => None,
    }
}

/// The container that the extension of the output names.
pub fn output_kind(extension: Option<String>) -> (kind: Result<OutputKind, OptionError>)
    ensures
        match kind {
            Ok(k) => kind_of(said(extension)) == Some(k),
            Err(OptionError::UnknownExtension { extension: e }) => kind_of(said(extension)) is None
                && said(e) == said(extension),
            Err(_) => false,
        },
{
    match extension {
        Some(name) => {
            if name.eq(&"pmtiles".to_owned()) {
                Ok(OutputKind::Pmtiles)
            } else if name.eq(&"mbtiles".to_owned()) {
                Ok(OutputKind::Mbtiles)
            } else {
                Err(OptionError::UnknownExtension { extension: Some(name) })
            }
        },
        None => Err(OptionError::UnknownExtension { extension: None }),
    }
}

/// Whether the zooms can be made: in order, and none so deep that the number of a tile would not
/// fit.
pub fn check_zooms(min_z: u8, max_z: u8) -> (r: Result<(), OptionError>)
    ensures
        match r {
            Ok(_) => min_z <= max_z <= 31,
            Err(OptionError::ZoomOrder) => min_z > max_z,
            Err(OptionError::ZoomTooDeep) => min_z <= max_z && max_z > 31,
            Err(_) => false,
        },
{
    if min_z > max_z {
        return Err(OptionError::ZoomOrder);
    }
    if max_z > 31 {
        return Err(OptionError::ZoomTooDeep);
    }
    Ok(())
}

/// Whether what is asked of the staging directory can be done: only a PMTiles run has one.
pub fn check_staging(kind: OutputKind, keep_temp: bool, build_from_temp: bool) -> (r: Result<
    (),
    OptionError,
>)
    ensures
        match r {
            Ok(_) => kind == OutputKind::Pmtiles || (!keep_temp && !build_from_temp),
            Err(OptionError::KeepTempNeedsPmtiles) => kind != OutputKind::Pmtiles && keep_temp,
            Err(OptionError::BuildFromTempNeedsPmtiles) => kind != OutputKind::Pmtiles && !keep_temp
                && build_from_temp,
            Err(_) => false,
        },
{
    if keep_temp && kind != OutputKind::Pmtiles {
        return Err(OptionError::KeepTempNeedsPmtiles);
    }
    if build_from_temp && kind != OutputKind::Pmtiles {
        return Err(OptionError::BuildFromTempNeedsPmtiles);
    }
    Ok(())
}

/// Only the two sizes are read.
pub proof fn law_read_buffer_sizes(value: &str, size: Result<usize, String>)
    requires
        call_ensures(parse_read_buffer_size, (value,), size),
    ensures
        size matches Ok(n) ==> (n == 1024 && value@ == "1024"@) || (n == 2048 && value@ == "2048"@),
        value@ == "1024"@ || value@ == "2048"@ ==> size is Ok,
{
}

/// The extension alone says which container is made, letter by letter.
pub proof fn law_extension_names_the_container(
    extension: Option<String>,
    kind: Result<OutputKind, OptionError>,
)
    requires
        call_ensures(output_kind, (extension,), kind),
    ensures
        (kind matches Ok(OutputKind::Pmtiles)) <==> (extension matches Some(e) && e@
            == "pmtiles"@),
        (kind matches Ok(OutputKind::Mbtiles)) <==> (extension matches Some(e) && e@
            == "mbtiles"@),
        kind matches Err(e) ==> e is UnknownExtension,
        kind matches Err(OptionError::UnknownExtension { extension: e }) ==> (extension is Some
            <==> e is Some) && (extension matches Some(s) ==> e->0@ == s@),
{
    reveal_strlit("pmtiles");
    reveal_strlit("mbtiles");
    assert("pmtiles"@[0] != "mbtiles"@[0]);
}

/// Zooms are made in order, down to zoom 31.
pub proof fn law_zooms_that_are_made(min_z: u8, max_z: u8, r: Result<(), OptionError>)
    requires
        call_ensures(check_zooms, (min_z, max_z), r),
    ensures
        r is Ok <==> min_z <= max_z && max_z <= 31,
        (r matches Err(OptionError::ZoomOrder)) <==> max_z < min_z,
        (r matches Err(OptionError::ZoomTooDeep)) <==> min_z <= max_z && 32 <= max_z,
{
}

/// A PMTiles run may ask anything of its staging directory, an MBTiles run nothing.
pub proof fn law_staging_needs_pmtiles(
    kind: OutputKind,
    keep_temp: bool,
    build_from_temp: bool,
    r: Result<(), OptionError>,
)
    requires
        call_ensures(check_staging, (kind, keep_temp, build_from_temp), r),
    ensures
        kind == OutputKind::Pmtiles ==> r is Ok,
        kind == OutputKind::Mbtiles && !keep_temp && !build_from_temp ==> r is Ok,
        kind == OutputKind::Mbtiles && keep_temp ==> (r matches Err(
            OptionError::KeepTempNeedsPmtiles,
        )),
        kind == OutputKind::Mbtiles && !keep_temp && build_from_temp ==> (r matches Err(
            OptionError::BuildFromTempNeedsPmtiles,
        )),
{
}

} // verus!
