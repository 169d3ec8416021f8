//! The directory in which a PMTiles run stages its tiles: where its files stand, what they say,
//! and what is read back from them.

use std::collections::HashSet;

use vstd::prelude::*;
use vstd::string::*;

use crate::coverage;
use crate::frontier;
use crate::frontier::{parse_tile_filename, tile_filename, tile_key, TileJob};
use crate::pipeline;
use crate::text;

verus! {

broadcast use vstd::std_specs::hash::group_hash_axioms;

/// How far a run had come when its state was last written.
#[derive(Debug)]
pub struct ResumeState {
    pub version: u8,
    pub format: String,
    pub status: String,
    pub min_zoom: u8,
    pub max_zoom: u8,
    pub current_zoom: u8,
    pub output: String,
}

/// A tile whose descendants all take one colour.
#[derive(Clone, Copy, Debug)]
pub struct UniformFill {
    pub root: TileJob,
    pub color: [u8; 3],
}

/// The path of an entry of a directory.
pub open spec fn joined_path(root: Seq<char>, name: Seq<char>) -> Seq<char> {
    if root.len() == 0 {
        name
    } else if root.last() == '/' {
        root + name
    } else {
        root.push('/') + name
    }
}

/// The path of an entry of a directory.
pub fn join(root: &str, name: &str) -> (path: String)
    ensures
        path@ == joined_path(root@, name@),
{
    proof {
        reveal_strlit("/");
    }
    let mut path: String = root.to_owned();
    let chars = text::chars_of(root);
    if chars.len() > 0 && chars[chars.len() - 1] != '/' {
        path.append("/");
    }
    path.append(name);
    assert(path@ =~= joined_path(root@, name@));
    path
}

/// A path with something added to its last name.
pub fn append_suffix(path: &str, suffix: &str) -> (longer: String)
    ensures
        longer@ == path@ + suffix@,
{
    let mut longer: String = path.to_owned();
    longer.append(suffix);
    longer
}

/// The directory of a run beside its output.
pub fn temp_root(output: &str) -> (path: String)
    ensures
        path@ == output@ + ".tmp"@,
{
    append_suffix(output, ".tmp")
}

/// The archive while it is being written.
pub fn partial_output(output: &str) -> (path: String)
    ensures
        path@ == output@ + ".tmp.pmtiles"@,
{
    append_suffix(output, ".tmp.pmtiles")
}

/// The log of the tiles that the archive lacks.
pub fn skipped_tiles_path(output: &str) -> (path: String)
    ensures
        path@ == output@ + ".skipped_pmtiles_tiles.log"@,
{
    append_suffix(output, ".skipped_pmtiles_tiles.log")
}

/// The file of the state.
pub fn state_path(root: &str) -> (path: String)
    ensures
        path@ == joined_path(root@, "state.json"@),
{
    join(root, "state.json")
}

/// The name of the file that holds the frontier of a zoom.
pub open spec fn frontier_name(z: u8) -> Seq<char> {
    "frontier_z"@ + text::decimal(z as nat)
}

/// The file that holds the frontier of a zoom.
pub fn frontier_path(root: &str, z: u8) -> (path: String)
    ensures
        path@ == joined_path(root@, frontier_name(z)),
{
    let mut name: String = "frontier_z".to_owned();
    text::push_number(&mut name, z as u64);
    join(root, name.as_str())
}

/// The file of the fill rules.
pub fn uniform_fills_path(root: &str) -> (path: String)
    ensures
        path@ == joined_path(root@, "uniform_fills"@),
{
    join(root, "uniform_fills")
}

/// The directory that holds the tiles of a zoom.
pub open spec fn zoom_path(root: Seq<char>, z: u8) -> Seq<char> {
    joined_path(root, "z"@ + text::decimal(z as nat))
}

/// The directory that holds the tiles of a zoom.
pub fn zoom_dir(root: &str, z: u8) -> (path: String)
    ensures
        path@ == zoom_path(root@, z),
{
    let mut name: String = "z".to_owned();
    text::push_number(&mut name, z as u64);
    join(root, name.as_str())
}

/// The directory in which the tiles of a zoom stand until they are complete.
pub fn prepare_zoom_write_dir(root: &str, z: u8) -> (path: String)
    ensures
        path@ == joined_path(zoom_path(root@, z), ".writing"@),
{
    join(zoom_dir(root, z).as_str(), ".writing")
}

/// A file that is first written under one name and then given its own, so that whoever finds it
/// under its own name finds all of it.
pub struct AtomicWrite {
    pub tmp: String,
    pub path: String,
}

/// The write of the state file.
pub fn write_state(root: &str) -> (write: AtomicWrite)
    ensures
        write.path@ == joined_path(root@, "state.json"@),
        write.tmp@ == write.path@ + ".writing"@,
{
    let path = state_path(root);
    AtomicWrite { tmp: append_suffix(path.as_str(), ".writing"), path }
}

/// The write of a frontier file.
pub fn write_frontier_file(root: &str, z: u8) -> (write: AtomicWrite)
    ensures
        write.path@ == joined_path(root@, frontier_name(z)),
        write.tmp@ == write.path@ + ".writing"@,
{
    let path = frontier_path(root, z);
    AtomicWrite { tmp: append_suffix(path.as_str(), ".writing"), path }
}

/// Why a tile is not staged.
#[derive(Clone, Copy, Debug, PartialEq, Eq, Structural)]
pub enum StageError {
    EmptyTile { tile: TileJob },
}

/// The write of a staged tile. A tile without any bytes is refused.
pub fn write_temp_tile(root: &str, tile: TileJob, data: &[u8]) -> (write: Result<
    AtomicWrite,
    StageError,
>)
    ensures
        write is Ok <==> data@.len() > 0,
        write matches Ok(w) ==> w.path@ == joined_path(
            zoom_path(root@, tile.z),
            frontier::filename(tile),
        ) && w.tmp@ == joined_path(
            joined_path(zoom_path(root@, tile.z), ".writing"@),
            frontier::filename(tile),
        ),
        write matches Err(e) ==> e == (StageError::EmptyTile { tile }),
{
    if data.len() == 0 {
        return Err(StageError::EmptyTile { tile });
    }
    let dir = zoom_dir(root, tile.z);
    let writing = join(dir.as_str(), ".writing");
    let name = tile_filename(tile);
    let tmp = join(writing.as_str(), name.as_str());
    let path = join(dir.as_str(), name.as_str());
    Ok(AtomicWrite { tmp, path })
}

/// Whether a text begins with another.
pub open spec fn begins(s: Seq<char>, head: Seq<char>) -> bool {
    s.len() >= head.len() && s.take(head.len() as int) == head
}

/// Whether a text ends with another.
pub open spec fn ends(s: Seq<char>, tail: Seq<char>) -> bool {
    s.len() >= tail.len() && s.skip(s.len() - tail.len()) == tail
}

fn starts_with(s: &[char], head: &[char]) -> (r: bool)
    ensures
        r == begins(s@, head@),
{
    if s.len() < head.len() {
        return false;
    }
    let mut i: usize = 0;
    while i < head.len()
        invariant
            i <= head.len() <= s.len(),
            forall|j: int| 0 <= j < i ==> #[trigger] s@[j] == head@[j],
        decreases head.len() - i,
    {
        if s[i] != head[i] {
            assert(s@.take(head@.len() as int)[i as int] != head@[i as int]);
            return false;
        }
        i += 1;
    }
    assert(s@.take(head@.len() as int) =~= head@);
    true
}

fn ends_with(s: &[char], tail: &[char]) -> (r: bool)
    ensures
        r == ends(s@, tail@),
{
    if s.len() < tail.len() {
        return false;
    }
    let skip: usize = s.len() - tail.len();
    let mut i: usize = 0;
    while i < tail.len()
        invariant
            i <= tail.len(),
            skip + tail.len() == s.len(),
            forall|j: int| 0 <= j < i ==> #[trigger] tail@[j] == s@[skip + j],
        decreases tail.len() - i,
    {
        if s[skip + i] != tail[i] {
            assert(s@.skip(skip as int)[i as int] != tail@[i as int]);
            return false;
        }
        i += 1;
    }
    assert(s@.skip(skip as int) =~= tail@);
    true
}

/// Whether a file is a frontier that was not written to its end.
pub open spec fn is_stale_frontier(name: Seq<char>) -> bool {
    begins(name, "frontier_z"@) && ends(name, ".writing"@)
}

/// What some texts say.
pub open spec fn texts(names: Seq<String>) -> Seq<Seq<char>> {
    Seq::new(names.len(), |i: int| names[i]@)
}

/// The files of the staging directory, given by name, that are frontiers not written to their end:
/// a resumed run removes them.
pub fn remove_frontier_writing_files(names: &[String]) -> (stale: Vec<String>)
    ensures
        texts(stale@) == texts(names@).filter(|name: Seq<char>| is_stale_frontier(name)),
{
    let ghost keep = |name: Seq<char>| is_stale_frontier(name);
    let ghost all = texts(names@);
    let head = text::chars_of("frontier_z");
    let tail = text::chars_of(".writing");
    let mut stale: Vec<String> = Vec::new();
    let mut i: usize = 0;
    proof {
        reveal(Seq::filter);
        assert(all.take(0) =~= seq![]);
        assert(texts(stale@) =~= seq![]);
    }
    while i < names.len()
        invariant
            i <= names.len(),
            all == texts(names@),
            keep == (|name: Seq<char>| is_stale_frontier(name)),
            head@ == "frontier_z"@,
            tail@ == ".writing"@,
            texts(stale@) == all.take(i as int).filter(keep),
        decreases names.len() - i,
    {
        proof {
            reveal(Seq::filter);
            assert(all.take(i + 1).drop_last() =~= all.take(i as int));
            assert(all.take(i + 1).last() == names@[i as int]@);
        }
        let chars = text::chars_of(names[i].as_str());
        if starts_with(chars.as_slice(), head.as_slice()) && ends_with(
            chars.as_slice(),
            tail.as_slice(),
        ) {
            let ghost before = stale@;
            stale.push(names[i].clone());
            assert(texts(stale@) =~= texts(before).push(names@[i as int]@));
        }
        i += 1;
    }
    assert(all.take(all.len() as int) =~= all);
    stale
}

/// A frontier is removed as stale exactly while it is being written, never when it is complete.
pub proof fn law_only_unfinished_frontiers_are_stale(z: u8)
    ensures
        is_stale_frontier(frontier_name(z) + ".writing"@),
        !is_stale_frontier(frontier_name(z)),
{
    reveal_strlit("frontier_z");
    reveal_strlit(".writing");
    let digits = text::decimal(z as nat);
    let name = frontier_name(z);
    let tail = ".writing"@;
    text::lemma_decimal(z as nat);
    assert((name + tail).take("frontier_z"@.len() as int) =~= "frontier_z"@);
    assert((name + tail).skip(name.len() as int) =~= tail);
    if ends(name, tail) {
        assert(name.skip(name.len() - tail.len())[tail.len() - 1] == 'g');
        assert(name.last() == 'g');
        assert(text::is_digit(digits[digits.len() - 1]));
    }
}

/// The numbers of a line.
#[derive(Clone, Copy, Debug, PartialEq, Eq, Structural)]
pub enum RecordField {
    Z,
    X,
    Y,
    R,
    G,
    B,
}

/// Why a line cannot be read.
#[derive(Clone, Copy, Debug, PartialEq, Eq, Structural)]
pub enum RecordError {
    Missing { field: RecordField },
    Invalid { field: RecordField },
}

/// The number that a word of a line gives.
pub open spec fn field_of(
    words: Seq<Seq<char>>,
    i: int,
    max: nat,
    field: RecordField,
) -> Result<nat, RecordError> {
    if i >= words.len() {
        Err(RecordError::Missing { field })
    } else {
        match text::parsed(words[i], max) {
            Some(n) => Ok(n),
            None => Err(RecordError::Invalid { field }),
        }
    }
}

/// The tile that words give: the first three, read in turn.
pub open spec fn tile_of_words(w: Seq<Seq<char>>) -> Result<TileJob, RecordError> {
    match field_of(w, 0, u8::MAX as nat, RecordField::Z) {
        Err(e) => Err(e),
        Ok(z) => match field_of(w, 1, u32::MAX as nat, RecordField::X) {
            Err(e) => Err(e),
            Ok(x) => match field_of(w, 2, u32::MAX as nat, RecordField::Y) {
                Err(e) => Err(e),
                Ok(y) => Ok(TileJob { z: z as u8, x: x as u32, y: y as u32 }),
            },
        },
    }
}

/// The tile that a line gives.
pub open spec fn tile_record(line: Seq<char>) -> Result<TileJob, RecordError> {
    tile_of_words(text::words(line))
}

/// The tiles that lines give, or the error of the first that cannot be read.
pub open spec fn tile_records(lines: Seq<Seq<char>>) -> Result<Seq<TileJob>, RecordError>
    decreases lines.len(),
{
    if lines.len() == 0 {
        Ok(seq![])
    } else {
        match tile_records(lines.drop_last()) {
            Err(e) => Err(e),
            Ok(tiles) => match tile_record(lines.last()) {
                Err(e) => Err(e),
                Ok(tile) => Ok(tiles.push(tile)),
            },
        }
    }
}

/// The line of a tile, without its end.
pub open spec fn tile_line(tile: TileJob) -> Seq<char> {
    text::separated(text::decimals(frontier::tile_numbers(tile)), ' ')
}

/// The lines of some tiles.
pub open spec fn tile_lines(tiles: Seq<TileJob>) -> Seq<Seq<char>> {
    Seq::new(tiles.len(), |i: int| tile_line(tiles[i]))
}

/// The text of a list of tiles: a line for each.
pub open spec fn tiles_text(tiles: Seq<TileJob>) -> Seq<char> {
    text::joined(tile_lines(tiles), '\n')
}

/// The tiles that a text gives.
pub open spec fn tiles_read(content: Seq<char>) -> Result<Seq<TileJob>, RecordError> {
    tile_records(text::lines(content))
}

/// Reads the number that a word of a line gives.
fn read_field(words: &[Vec<char>], i: usize, max: u64, field: RecordField) -> (n: Result<
    u64,
    RecordError,
>)
    ensures
        n == (match field_of(text::contents(words@), i as int, max as nat, field) {
            Ok(v) => Ok::<u64, RecordError>(v as u64),
            Err(e) => Err::<u64, RecordError>(e),
        }),
        n matches Ok(v) ==> v <= max,
{
    assert(text::contents(words@).len() == words@.len());
    if i >= words.len() {
        return Err(RecordError::Missing { field });
    }
    assert(text::contents(words@)[i as int] == words@[i as int]@);
    match text::parse_number(words[i].as_slice(), max) {
        Some(n) => Ok(n),
        None => Err(RecordError::Invalid { field }),
    }
}

/// Reads the tile at the start of a line.
fn read_tile(words: &[Vec<char>]) -> (tile: Result<TileJob, RecordError>)
    ensures
        tile == tile_of_words(text::contents(words@)),
{
    let z: u64 = match read_field(words, 0, u8::MAX as u64, RecordField::Z) {
        Ok(n) => n,
        Err(e) => {
            return Err(e);
        },
    };
    let x: u64 = match read_field(words, 1, u32::MAX as u64, RecordField::X) {
        Ok(n) => n,
        Err(e) => {
            return Err(e);
        },
    };
    let y: u64 = match read_field(words, 2, u32::MAX as u64, RecordField::Y) {
        Ok(n) => n,
        Err(e) => {
            return Err(e);
        },
    };
    Ok(TileJob { z: z as u8, x: x as u32, y: y as u32 })
}

/// An error in an early line is the error of the whole.
proof fn lemma_tile_records_err(lines: Seq<Seq<char>>, i: int)
    requires
        0 <= i <= lines.len(),
        tile_records(lines.take(i)) is Err,
    ensures
        tile_records(lines) == tile_records(lines.take(i)),
    decreases lines.len(),
{
    if i == lines.len() {
        assert(lines.take(i) =~= lines);
    } else {
        assert(lines.drop_last().take(i) =~= lines.take(i));
        lemma_tile_records_err(lines.drop_last(), i);
    }
}

/// The frontier that the text of a frontier file gives.
pub fn read_frontier(content: &str) -> (tiles: Result<Vec<TileJob>, RecordError>)
    ensures
        match tiles {
            Ok(found) => tiles_read(content@) == Ok::<Seq<TileJob>, RecordError>(found@),
            Err(e) => tiles_read(content@) == Err::<Seq<TileJob>, RecordError>(e),
        },
{
    let chars = text::chars_of(content);
    let lines = text::split_lines(chars.as_slice());
    let ghost all = text::lines(content@);
    assert(all == text::contents(lines@));
    let mut found: Vec<TileJob> = Vec::new();
    let mut i: usize = 0;
    assert(all.take(0) =~= seq![]);
    assert(found@ =~= seq![]);
    while i < lines.len()
        invariant
            i <= lines.len(),
            all == text::contents(lines@),
            all == text::lines(content@),
            tile_records(all.take(i as int)) == Ok::<Seq<TileJob>, RecordError>(found@),
        decreases lines.len() - i,
    {
        let words = text::split_words(lines[i].as_slice());
        let ghost line = lines@[i as int]@;
        proof {
            assert(all[i as int] == line);
            assert(all.take(i + 1).drop_last() =~= all.take(i as int));
            assert(all.take(i + 1).last() == line);
        }
        match read_tile(words.as_slice()) {
            Ok(tile) => {
                found.push(tile);
            },
            Err(e) => {
                proof {
                    lemma_tile_records_err(all, i + 1);
                }
                return Err(e);
            },
        }
        i += 1;
    }
    assert(all.take(all.len() as int) =~= all);
    Ok(found)
}

/// Appends the line of a tile, without its end.
fn push_tile_line(out: &mut String, tile: TileJob)
    ensures
        final(out)@ == old(out)@ + tile_line(tile),
{
    let ghost before = out@;
    text::push_number(out, tile.z as u64);
    out.append(" ");
    text::push_number(out, tile.x as u64);
    out.append(" ");
    text::push_number(out, tile.y as u64);
    proof {
        reveal_strlit(" ");
        let z = text::decimal(tile.z as nat);
        let x = text::decimal(tile.x as nat);
        let y = text::decimal(tile.y as nat);
        assert(text::decimals(frontier::tile_numbers(tile)) =~= seq![z, x, y]);
        frontier::lemma_three_separated(z, x, y, ' ');
        assert(out@ =~= before + tile_line(tile));
    }
}

/// The text of a frontier file, or of the log of skipped tiles: a line for each tile.
pub fn write_frontier(tiles: &[TileJob]) -> (content: String)
    ensures
        content@ == tiles_text(tiles@),
{
    let mut content: String = String::new();
    let mut i: usize = 0;
    let ghost all = tile_lines(tiles@);
    proof {
        reveal_strlit("\n");
        assert(all.take(0) =~= seq![]);
        assert(content@ =~= seq![]);
    }
    while i < tiles.len()
        invariant
            i <= tiles.len(),
            all == tile_lines(tiles@),
            content@ == text::joined(all.take(i as int), '\n'),
        decreases tiles.len() - i,
    {
        let ghost before = content@;
        push_tile_line(&mut content, tiles[i]);
        content.append("\n");
        proof {
            reveal_strlit("\n");
            assert(all.take(i + 1).drop_last() =~= all.take(i as int));
            assert(all.take(i + 1).last() == tile_line(tiles@[i as int]));
            assert(content@ =~= before + tile_line(tiles@[i as int]).push('\n'));
        }
        i += 1;
    }
    assert(all.take(all.len() as int) =~= all);
    content
}

/// A line gives its tile back.
pub proof fn lemma_tile_line_reads_back(tile: TileJob)
    ensures
        tile_record(tile_line(tile)) == Ok::<TileJob, RecordError>(tile),
        forall|i: int| 0 <= i < tile_line(tile).len() ==> #[trigger] tile_line(tile)[i] != '\n',
{
    text::lemma_decimals_words(frontier::tile_numbers(tile));
    text::law_decimal_parses(tile.z as nat, u8::MAX as nat);
    text::law_decimal_parses(tile.x as nat, u32::MAX as nat);
    text::law_decimal_parses(tile.y as nat, u32::MAX as nat);
}

proof fn lemma_tile_lines_read_back(tiles: Seq<TileJob>)
    ensures
        tile_records(tile_lines(tiles)) == Ok::<Seq<TileJob>, RecordError>(tiles),
    decreases tiles.len(),
{
    let lines = tile_lines(tiles);
    if tiles.len() == 0 {
        assert(tiles =~= seq![]);
    } else {
        assert(lines.drop_last() =~= tile_lines(tiles.drop_last()));
        lemma_tile_lines_read_back(tiles.drop_last());
        lemma_tile_line_reads_back(tiles.last());
        assert(tiles.drop_last().push(tiles.last()) =~= tiles);
    }
}

/// A frontier that was written is read back as it was, tile by tile and in order.
pub proof fn law_frontier_reads_back(tiles: Seq<TileJob>)
    ensures
        tiles_read(tiles_text(tiles)) == Ok::<Seq<TileJob>, RecordError>(tiles),
{
    let parts = tile_lines(tiles);
    assert forall|i: int, j: int|
        0 <= i < parts.len() && 0 <= j < parts[i].len() implies #[trigger] parts[i][j] != '\n' by {
        lemma_tile_line_reads_back(tiles[i]);
        assert(tile_line(tiles[i])[j] != '\n');
    }
    text::law_lines_read_back(parts);
    lemma_tile_lines_read_back(tiles);
}

/// The fill rule that words give: a tile and three parts of a colour, read in turn.
pub open spec fn fill_of_words(w: Seq<Seq<char>>) -> Result<UniformFill, RecordError> {
    match tile_of_words(w) {
        Err(e) => Err(e),
        Ok(root) => match field_of(w, 3, u8::MAX as nat, RecordField::R) {
            Err(e) => Err(e),
            Ok(r) => match field_of(w, 4, u8::MAX as nat, RecordField::G) {
                Err(e) => Err(e),
                Ok(g) => match field_of(w, 5, u8::MAX as nat, RecordField::B) {
                    Err(e) => Err(e),
                    Ok(b) => Ok(UniformFill { root, color: [r as u8, g as u8, b as u8] }),
                },
            },
        },
    }
}

/// The fill rule that a line gives.
pub open spec fn fill_record(line: Seq<char>) -> Result<UniformFill, RecordError> {
    fill_of_words(text::words(line))
}

/// The fill rules that lines give, or the error of the first that cannot be read.
pub open spec fn fill_records(lines: Seq<Seq<char>>) -> Result<Seq<UniformFill>, RecordError>
    decreases lines.len(),
{
    if lines.len() == 0 {
        Ok(seq![])
    } else {
        match fill_records(lines.drop_last()) {
            Err(e) => Err(e),
            Ok(fills) => match fill_record(lines.last()) {
                Err(e) => Err(e),
                Ok(fill) => Ok(fills.push(fill)),
            },
        }
    }
}

/// The roots of some fill rules.
pub open spec fn roots(fills: Seq<UniformFill>) -> Seq<TileJob> {
    Seq::new(fills.len(), |i: int| fills[i].root)
}

/// The fill rules of which no earlier one has the same root, by its key.
pub open spec fn first_rules(fills: Seq<UniformFill>) -> Seq<UniformFill>
    decreases fills.len(),
{
    if fills.len() == 0 {
        seq![]
    } else {
        let head = fills.drop_last();
        if pipeline::keys_of(roots(head)).contains(frontier::key_of(fills.last().root)) {
            first_rules(head)
        } else {
            first_rules(head).push(fills.last())
        }
    }
}

/// The fill rules that the text of the rule file gives.
pub open spec fn fills_read(content: Seq<char>) -> Result<Seq<UniformFill>, RecordError> {
    match fill_records(text::lines(content)) {
        Err(e) => Err(e),
        Ok(fills) => Ok(first_rules(fills)),
    }
}

/// Reads a fill rule from a line.
fn read_fill(words: &[Vec<char>]) -> (fill: Result<UniformFill, RecordError>)
    ensures
        fill == fill_of_words(text::contents(words@)),
{
    let root = match read_tile(words) {
        Ok(tile) => tile,
        Err(e) => {
            return Err(e);
        },
    };
    let r: u64 = match read_field(words, 3, u8::MAX as u64, RecordField::R) {
        Ok(n) => n,
        Err(e) => {
            return Err(e);
        },
    };
    let g: u64 = match read_field(words, 4, u8::MAX as u64, RecordField::G) {
        Ok(n) => n,
        Err(e) => {
            return Err(e);
        },
    };
    let b: u64 = match read_field(words, 5, u8::MAX as u64, RecordField::B) {
        Ok(n) => n,
        Err(e) => {
            return Err(e);
        },
    };
    Ok(UniformFill { root, color: [r as u8, g as u8, b as u8] })
}

proof fn lemma_fill_records_err(lines: Seq<Seq<char>>, i: int)
    requires
        0 <= i <= lines.len(),
        fill_records(lines.take(i)) is Err,
    ensures
        fill_records(lines) == fill_records(lines.take(i)),
    decreases lines.len(),
{
    if i == lines.len() {
        assert(lines.take(i) =~= lines);
    } else {
        assert(lines.drop_last().take(i) =~= lines.take(i));
        lemma_fill_records_err(lines.drop_last(), i);
    }
}

/// The fill rules that the text of the rule file gives; of two rules for one root the first holds.
pub fn read_uniform_fills(content: &str) -> (fills: Result<Vec<UniformFill>, RecordError>)
    ensures
        match fills {
            Ok(found) => fills_read(content@) == Ok::<Seq<UniformFill>, RecordError>(found@),
            Err(e) => fills_read(content@) == Err::<Seq<UniformFill>, RecordError>(e),
        },
{
    let chars = text::chars_of(content);
    let lines = text::split_lines(chars.as_slice());
    let ghost all = text::lines(content@);
    assert(all == text::contents(lines@));
    let ghost mut read: Seq<UniformFill> = seq![];
    let mut found: Vec<UniformFill> = Vec::new();
    let mut seen: HashSet<u64> = HashSet::new();
    let mut i: usize = 0;
    proof {
        assert(all.take(0) =~= seq![]);
        assert(found@ =~= seq![]);
        assert(pipeline::keys_of(roots(read)) =~= Set::empty());
    }
    while i < lines.len()
        invariant
            i <= lines.len(),
            all == text::contents(lines@),
            all == text::lines(content@),
            fill_records(all.take(i as int)) == Ok::<Seq<UniformFill>, RecordError>(read),
            found@ == first_rules(read),
            seen@ == pipeline::keys_of(roots(read)),
        decreases lines.len() - i,
    {
        let words = text::split_words(lines[i].as_slice());
        let ghost line = lines@[i as int]@;
        proof {
            assert(all[i as int] == line);
            assert(all.take(i + 1).drop_last() =~= all.take(i as int));
            assert(all.take(i + 1).last() == line);
        }
        match read_fill(words.as_slice()) {
            Ok(fill) => {
                proof {
                    let more = read.push(fill);
                    assert(more.drop_last() =~= read);
                    assert(roots(more) =~= roots(read).push(fill.root));
                    pipeline::lemma_keys_of_push(roots(read), fill.root);
                    read = more;
                }
                if seen.insert(tile_key(fill.root)) {
                    found.push(fill);
                }
            },
            Err(e) => {
                proof {
                    lemma_fill_records_err(all, i + 1);
                }
                return Err(e);
            },
        }
        i += 1;
    }
    assert(all.take(all.len() as int) =~= all);
    Ok(found)
}

/// The keys of the roots of the fill rules that the text of the rule file gives.
pub fn uniform_fill_roots(content: &str) -> (keys: Result<HashSet<u64>, RecordError>)
    ensures
        match keys {
            Ok(found) => fills_read(content@) matches Ok(fills) && found@ == pipeline::keys_of(
                roots(fills),
            ),
            Err(e) => fills_read(content@) == Err::<Seq<UniformFill>, RecordError>(e),
        },
{
    let fills = match read_uniform_fills(content) {
        Ok(fills) => fills,
        Err(e) => {
            return Err(e);
        },
    };
    let mut keys: HashSet<u64> = HashSet::new();
    let ghost all = roots(fills@);
    let mut i: usize = 0;
    assert(pipeline::keys_of(all.take(0)) =~= Set::empty());
    while i < fills.len()
        invariant
            i <= fills.len(),
            all == roots(fills@),
            keys@ == pipeline::keys_of(all.take(i as int)),
        decreases fills.len() - i,
    {
        proof {
            assert(all.take(i + 1) =~= all.take(i as int).push(fills@[i as int].root));
            pipeline::lemma_keys_of_push(all.take(i as int), fills@[i as int].root);
        }
        keys.insert(tile_key(fills[i].root));
        i += 1;
    }
    assert(all.take(all.len() as int) =~= all);
    Ok(keys)
}

/// The numbers of a fill rule, in the order in which they are written.
pub open spec fn fill_numbers(fill: UniformFill) -> Seq<nat> {
    seq![
        fill.root.z as nat,
        fill.root.x as nat,
        fill.root.y as nat,
        fill.color[0] as nat,
        fill.color[1] as nat,
        fill.color[2] as nat,
    ]
}

/// The line of a fill rule, without its end.
pub open spec fn fill_line(fill: UniformFill) -> Seq<char> {
    text::separated(text::decimals(fill_numbers(fill)), ' ')
}

/// The text of some fill rules, as they are appended one after the other.
pub open spec fn fills_text(fills: Seq<UniformFill>) -> Seq<char> {
    text::joined(Seq::new(fills.len(), |i: int| fill_line(fills[i])), '\n')
}

/// The line that a fill rule adds to the rule file.
pub fn append_uniform_fill(fill: UniformFill) -> (line: String)
    ensures
        line@ == fill_line(fill).push('\n'),
{
    let mut line: String = String::new();
    push_tile_line(&mut line, fill.root);
    line.append(" ");
    text::push_number(&mut line, fill.color[0] as u64);
    line.append(" ");
    text::push_number(&mut line, fill.color[1] as u64);
    line.append(" ");
    text::push_number(&mut line, fill.color[2] as u64);
    line.append("\n");
    proof {
        reveal_strlit(" ");
        reveal_strlit("\n");
        let parts = text::decimals(fill_numbers(fill));
        assert(parts.len() == 6);
        let p5 = parts.drop_last();
        let p4 = p5.drop_last();
        let p3 = p4.drop_last();
        assert(p3 =~= text::decimals(frontier::tile_numbers(fill.root)));
        assert(text::separated(p4, ' ') == text::separated(p3, ' ').push(' ') + parts[3]);
        assert(text::separated(p5, ' ') == text::separated(p4, ' ').push(' ') + parts[4]);
        assert(text::separated(parts, ' ') == text::separated(p5, ' ').push(' ') + parts[5]);
        assert(line@ =~= fill_line(fill).push('\n'));
    }
    line
}

proof fn lemma_fill_line_reads_back(fill: UniformFill)
    ensures
        fill_record(fill_line(fill)) == Ok::<UniformFill, RecordError>(fill),
        forall|i: int| 0 <= i < fill_line(fill).len() ==> #[trigger] fill_line(fill)[i] != '\n',
{
    text::lemma_decimals_words(fill_numbers(fill));
    text::law_decimal_parses(fill.root.z as nat, u8::MAX as nat);
    text::law_decimal_parses(fill.root.x as nat, u32::MAX as nat);
    text::law_decimal_parses(fill.root.y as nat, u32::MAX as nat);
    text::law_decimal_parses(fill.color[0] as nat, u8::MAX as nat);
    text::law_decimal_parses(fill.color[1] as nat, u8::MAX as nat);
    text::law_decimal_parses(fill.color[2] as nat, u8::MAX as nat);
    let again = [fill.color[0], fill.color[1], fill.color[2]];
    assert(again =~= fill.color);
}

proof fn lemma_fill_lines_read_back(fills: Seq<UniformFill>)
    ensures
        fill_records(Seq::new(fills.len(), |i: int| fill_line(fills[i]))) == Ok::<
            Seq<UniformFill>,
            RecordError,
        >(fills),
    decreases fills.len(),
{
    let lines = Seq::new(fills.len(), |i: int| fill_line(fills[i]));
    if fills.len() == 0 {
        assert(fills =~= seq![]);
    } else {
        let head = fills.drop_last();
        assert(lines.drop_last() =~= Seq::new(head.len(), |i: int| fill_line(head[i])));
        lemma_fill_lines_read_back(head);
        lemma_fill_line_reads_back(fills.last());
        assert(head.push(fills.last()) =~= fills);
    }
}

/// Fill rules that were appended one after the other are read back in order, but for those whose
/// root an earlier one has.
pub proof fn law_fills_read_back(fills: Seq<UniformFill>)
    ensures
        fills_read(fills_text(fills)) == Ok::<Seq<UniformFill>, RecordError>(first_rules(fills)),
{
    let parts = Seq::new(fills.len(), |i: int| fill_line(fills[i]));
    assert forall|i: int, j: int|
        0 <= i < parts.len() && 0 <= j < parts[i].len() implies #[trigger] parts[i][j] != '\n' by {
        lemma_fill_line_reads_back(fills[i]);
        assert(fill_line(fills[i])[j] != '\n');
    }
    text::law_lines_read_back(parts);
    lemma_fill_lines_read_back(fills);
}

/// The tiles whose files some names stand for; other names are passed over.
pub open spec fn tiles_named(names: Seq<Seq<char>>) -> Seq<TileJob>
    decreases names.len(),
{
    if names.len() == 0 {
        seq![]
    } else {
        match frontier::parsed_filename(names.last()) {
            Some(tile) => tiles_named(names.drop_last()).push(tile),
            None => tiles_named(names.drop_last()),
        }
    }
}

/// The keys of the tiles that stand in a directory, given the names of its files.
pub fn scan_existing_encoded(names: &[String]) -> (existing: HashSet<u64>)
    ensures
        existing@ == pipeline::keys_of(tiles_named(texts(names@))),
{
    let ghost all = texts(names@);
    let mut existing: HashSet<u64> = HashSet::new();
    let mut i: usize = 0;
    proof {
        assert(all.take(0) =~= seq![]);
        assert(pipeline::keys_of(seq![]) =~= Set::empty());
    }
    while i < names.len()
        invariant
            i <= names.len(),
            all == texts(names@),
            existing@ == pipeline::keys_of(tiles_named(all.take(i as int))),
        decreases names.len() - i,
    {
        proof {
            assert(all.take(i + 1).drop_last() =~= all.take(i as int));
            assert(all.take(i + 1).last() == names@[i as int]@);
        }
        if let Some(tile) = parse_tile_filename(names[i].as_str()) {
            proof {
                pipeline::lemma_keys_of_push(tiles_named(all.take(i as int)), tile);
            }
            existing.insert(tile_key(tile));
        }
        i += 1;
    }
    assert(all.take(all.len() as int) =~= all);
    existing
}

/// What stands after the last stroke of two equal paths is equal.
proof fn lemma_last_name(a: Seq<char>, f: Seq<char>, b: Seq<char>, g: Seq<char>)
    requires
        a.push('/') + f == b.push('/') + g,
        forall|i: int| 0 <= i < f.len() ==> #[trigger] f[i] != '/',
        forall|i: int| 0 <= i < g.len() ==> #[trigger] g[i] != '/',
    ensures
        f == g,
{
    let cut = text::at('/');
    text::lemma_split_cut(a, '/', cut);
    text::lemma_split_cut(b, '/', cut);
    text::lemma_split_extend(a.push('/'), f, cut);
    text::lemma_split_extend(b.push('/'), g, cut);
    let pa = text::split_by(a.push('/'), cut);
    let pb = text::split_by(b.push('/'), cut);
    assert(pa.last() + f =~= f);
    assert(pb.last() + g =~= g);
    assert(pa.drop_last().push(f).last() == f);
    assert(pb.drop_last().push(g).last() == g);
}

/// Names without strokes give different paths in one directory.
proof fn lemma_paths_differ(root: Seq<char>, f: Seq<char>, g: Seq<char>)
    requires
        joined_path(root, f) == joined_path(root, g),
    ensures
        f == g,
{
    let all = joined_path(root, f);
    let n = all.len() - f.len();
    assert(all.skip(n as int) =~= f);
    assert(all.skip(n as int) =~= g);
}

/// The frontiers of different zooms, the state and the fill rules stand in different files.
pub proof fn law_spool_files_differ(root: Seq<char>, a: u8, b: u8)
    ensures
        a != b ==> joined_path(root, frontier_name(a)) != joined_path(root, frontier_name(b)),
        joined_path(root, frontier_name(a)) != joined_path(root, "state.json"@),
        joined_path(root, frontier_name(a)) != joined_path(root, "uniform_fills"@),
        joined_path(root, "state.json"@) != joined_path(root, "uniform_fills"@),
{
    reveal_strlit("frontier_z");
    reveal_strlit("state.json");
    reveal_strlit("uniform_fills");
    if joined_path(root, frontier_name(a)) == joined_path(root, frontier_name(b)) {
        lemma_paths_differ(root, frontier_name(a), frontier_name(b));
        let head = "frontier_z"@.len() as int;
        assert(frontier_name(a).skip(head) =~= text::decimal(a as nat));
        assert(frontier_name(b).skip(head) =~= text::decimal(b as nat));
        text::lemma_decimal(a as nat);
        text::lemma_decimal(b as nat);
    }
    assert(frontier_name(a)[0] == 'f');
    assert("state.json"@[0] == 's');
    assert("uniform_fills"@[0] == 'u');
    if joined_path(root, frontier_name(a)) == joined_path(root, "state.json"@) {
        lemma_paths_differ(root, frontier_name(a), "state.json"@);
    }
    if joined_path(root, frontier_name(a)) == joined_path(root, "uniform_fills"@) {
        lemma_paths_differ(root, frontier_name(a), "uniform_fills"@);
    }
    if joined_path(root, "state.json"@) == joined_path(root, "uniform_fills"@) {
        lemma_paths_differ(root, "state.json"@, "uniform_fills"@);
    }
}

/// The name of a tile's file holds no stroke.
proof fn lemma_filename_plain(tile: TileJob)
    ensures
        forall|i: int|
            0 <= i < frontier::filename(tile).len() ==> #[trigger] frontier::filename(tile)[i] != '/',
{
    let z = text::decimal(tile.z as nat);
    let x = text::decimal(tile.x as nat);
    let y = text::decimal(tile.y as nat);
    text::lemma_decimal(tile.z as nat);
    text::lemma_decimal(tile.x as nat);
    text::lemma_decimal(tile.y as nat);
    assert(text::decimals(frontier::tile_numbers(tile)) =~= seq![z, x, y]);
    frontier::lemma_three_separated(z, x, y, '_');
    let front = z.push('_') + x;
    assert forall|i: int| 0 <= i < frontier::filename(tile).len() implies #[trigger] frontier::filename(
        tile,
    )[i] != '/' by {
        if i < z.len() {
            assert(text::is_digit(z[i]));
        } else if i > z.len() && i < front.len() {
            assert(text::is_digit(x[i - z.len() - 1]));
        } else if i > front.len() {
            assert(text::is_digit(y[i - front.len() - 1]));
        }
    }
}

/// Different tiles are staged in different files, and each file gives its tile back.
pub proof fn law_staged_tiles_differ(root: Seq<char>, a: TileJob, b: TileJob)
    requires
        joined_path(zoom_path(root, a.z), frontier::filename(a)) == joined_path(
            zoom_path(root, b.z),
            frontier::filename(b),
        ),
    ensures
        a == b,
{
    lemma_filename_plain(a);
    lemma_filename_plain(b);
    lemma_zoom_path_end(root, a.z);
    lemma_zoom_path_end(root, b.z);
    lemma_last_name(
        zoom_path(root, a.z),
        frontier::filename(a),
        zoom_path(root, b.z),
        frontier::filename(b),
    );
    frontier::law_filename_reads_back(a);
    frontier::law_filename_reads_back(b);
}

/// The directory of a zoom ends in a digit.
proof fn lemma_zoom_path_end(root: Seq<char>, z: u8)
    ensures
        zoom_path(root, z).len() > 0,
        zoom_path(root, z).last() != '/',
{
    let digits = text::decimal(z as nat);
    text::lemma_decimal(z as nat);
    assert(text::is_digit(digits[digits.len() - 1]));
    assert(zoom_path(root, z).last() == digits.last());
}

/// The path of an entry is that of its directory, a stroke where there is none, and its name.
pub proof fn law_entry_of_a_directory(root: &str, name: &str, path: String)
    requires
        call_ensures(join, (root, name), path),
    ensures
        root@.len() == 0 ==> path@ == name@,
        root@.len() > 0 && root@.last() == '/' ==> path@ == root@ + name@,
        root@.len() > 0 && root@.last() != '/' ==> path@ == root@ + "/"@ + name@,
{
    reveal_strlit("/");
    assert("/"@ =~= seq!['/']);
    assert(root@.push('/') =~= root@ + seq!['/']);
}

/// What belongs to an output stands beside it, under its name and an ending.
pub proof fn law_beside_the_output(
    output: &str,
    temp: String,
    partial: String,
    skipped: String,
    suffix: &str,
    longer: String,
)
    requires
        call_ensures(temp_root, (output,), temp),
        call_ensures(partial_output, (output,), partial),
        call_ensures(skipped_tiles_path, (output,), skipped),
        call_ensures(append_suffix, (output, suffix), longer),
    ensures
        temp@ == output@ + ".tmp"@,
        partial@ == output@ + ".tmp.pmtiles"@,
        skipped@ == output@ + ".skipped_pmtiles_tiles.log"@,
        longer@ == output@ + suffix@,
{
}

/// Where the files of a staging directory stand.
pub proof fn law_places_in_the_directory(
    root: &str,
    z: u8,
    digits: String,
    state: String,
    fills: String,
    frontier_file: String,
    tiles: String,
    writing: String,
)
    requires
        root@.len() > 0 && root@.last() != '/',
        call_ensures(text::number_text, (z as u64,), digits),
        call_ensures(state_path, (root,), state),
        call_ensures(uniform_fills_path, (root,), fills),
        call_ensures(frontier_path, (root, z), frontier_file),
        call_ensures(zoom_dir, (root, z), tiles),
        call_ensures(prepare_zoom_write_dir, (root, z), writing),
    ensures
        state@ == root@ + "/"@ + "state.json"@,
        fills@ == root@ + "/"@ + "uniform_fills"@,
        frontier_file@ == root@ + "/"@ + "frontier_z"@ + digits@,
        tiles@ == root@ + "/"@ + "z"@ + digits@,
        writing@ == root@ + "/"@ + "z"@ + digits@ + "/"@ + ".writing"@,
{
    reveal_strlit("/");
    assert("/"@ =~= seq!['/']);
    let front = root@ + "/"@;
    assert(root@.push('/') =~= front);
    assert(state@ == front + "state.json"@);
    assert(fills@ == front + "uniform_fills"@);
    assert(frontier_file@ == front + ("frontier_z"@ + digits@));
    assert(front + ("frontier_z"@ + digits@) =~= front + "frontier_z"@ + digits@);
    assert(tiles@ == front + ("z"@ + digits@));
    assert(front + ("z"@ + digits@) =~= front + "z"@ + digits@);
    lemma_zoom_path_end(root@, z);
    assert(tiles@.push('/') =~= tiles@ + "/"@);
    assert(writing@ == tiles@ + "/"@ + ".writing"@);
}

/// State and frontier are written under another name first, and then get their own.
pub proof fn law_written_under_another_name(
    root: &str,
    z: u8,
    state: String,
    frontier_file: String,
    write: AtomicWrite,
    frontier_write: AtomicWrite,
)
    requires
        call_ensures(state_path, (root,), state),
        call_ensures(frontier_path, (root, z), frontier_file),
        call_ensures(write_state, (root,), write),
        call_ensures(write_frontier_file, (root, z), frontier_write),
    ensures
        write.path@ == state@,
        write.tmp@ == state@ + ".writing"@,
        frontier_write.path@ == frontier_file@,
        frontier_write.tmp@ == frontier_file@ + ".writing"@,
{
}

/// A tile with bytes is staged in the directory of its zoom under its name, and written beside it
/// first; one without is refused.
pub proof fn law_tile_is_staged_under_its_name(
    root: &str,
    tile: TileJob,
    data: &[u8],
    write: Result<AtomicWrite, StageError>,
    dir: String,
    writing: String,
    name: String,
)
    requires
        call_ensures(write_temp_tile, (root, tile, data), write),
        call_ensures(zoom_dir, (root, tile.z), dir),
        call_ensures(prepare_zoom_write_dir, (root, tile.z), writing),
        call_ensures(tile_filename, (tile,), name),
    ensures
        write is Ok <==> data@.len() > 0,
        write matches Ok(w) ==> w.path@ == dir@ + "/"@ + name@,
        write matches Ok(w) ==> w.tmp@ == writing@ + "/"@ + name@,
        write matches Err(e) ==> e == (StageError::EmptyTile { tile }),
{
    reveal_strlit("/");
    reveal_strlit(".writing");
    assert("/"@ =~= seq!['/']);
    lemma_zoom_path_end(root@, tile.z);
    assert(dir@.push('/') =~= dir@ + "/"@);
    assert(writing@ == dir@ + "/"@ + ".writing"@);
    assert(writing@.last() == ".writing"@.last());
    assert(".writing"@.last() == 'g');
    assert(writing@.push('/') =~= writing@ + "/"@);
}

/// Of the files of a directory those are removed that are called like a frontier and end like what
/// is being written.
pub proof fn law_unfinished_frontiers_are_removed(names: &[String], stale: Vec<String>, i: int)
    requires
        call_ensures(remove_frontier_writing_files, (names,), stale),
    ensures
        0 <= i < stale@.len() ==> texts(names@).contains(stale@[i]@) && exists|rest: Seq<char>|
            stale@[i]@ == #[trigger] ("frontier_z"@ + rest),
        0 <= i < stale@.len() ==> exists|front: Seq<char>|
            stale@[i]@ == #[trigger] (front + ".writing"@),
        0 <= i < names@.len() && (exists|middle: Seq<char>|
            names@[i]@ == #[trigger] ("frontier_z"@ + middle + ".writing"@)) ==> texts(
            stale@,
        ).contains(names@[i]@),
{
    broadcast use vstd::seq_lib::group_filter_ensures;

    let all = texts(names@);
    let keep = |name: Seq<char>| is_stale_frontier(name);
    let kept = all.filter(keep);
    assert(texts(stale@) == kept);
    if 0 <= i < stale@.len() {
        let name = stale@[i]@;
        assert(kept[i] == name);
        assert(keep(kept[i]));
        lemma_filtered(all, keep, name);
        let head = "frontier_z"@;
        let tail = ".writing"@;
        assert(name =~= head + name.skip(head.len() as int)) by {
            assert(name.take(head.len() as int) == head);
        }
        assert(name =~= name.take(name.len() - tail.len()) + tail) by {
            assert(name.skip(name.len() - tail.len()) == tail);
        }
    }
    if 0 <= i < names@.len() && (exists|middle: Seq<char>|
        names@[i]@ == #[trigger] ("frontier_z"@ + middle + ".writing"@)) {
        let name = names@[i]@;
        let middle = choose|middle: Seq<char>|
            name == #[trigger] ("frontier_z"@ + middle + ".writing"@);
        assert(name.take("frontier_z"@.len() as int) =~= "frontier_z"@);
        assert(name.skip(name.len() - ".writing"@.len()) =~= ".writing"@);
        assert(all[i] == name);
        assert(keep(all[i]));
        assert(kept.contains(all[i]));
    }
}

/// What a filter leaves was there, and is wanted.
proof fn lemma_filtered(
    names: Seq<Seq<char>>,
    keep: spec_fn(Seq<char>) -> bool,
    name: Seq<char>,
)
    ensures
        names.filter(keep).contains(name) ==> names.contains(name) && keep(name),
    decreases names.len(),
{
    reveal(Seq::filter);
    if names.len() > 0 {
        let head = names.drop_last();
        lemma_filtered(head, keep, name);
        let all = names.filter(keep);
        if all.contains(name) {
            if head.filter(keep).contains(name) {
                let i = choose|i: int| 0 <= i < head.len() && head[i] == name;
                assert(names[i] == name);
            } else {
                let i = choose|i: int| 0 <= i < all.len() && all[i] == name;
                assert(names[names.len() - 1] == name);
            }
        }
    }
}

/// A frontier is written tile by tile: a line for each, with its zoom, its column and its row in
/// digits and blanks between them.
pub proof fn law_frontier_line_by_line(
    tiles: &[TileJob],
    more: &[TileJob],
    tile: TileJob,
    content: String,
    longer: String,
    z: String,
    x: String,
    y: String,
)
    requires
        call_ensures(write_frontier, (tiles,), content),
        call_ensures(write_frontier, (more,), longer),
        more@ == tiles@.push(tile),
        call_ensures(text::number_text, (tile.z as u64,), z),
        call_ensures(text::number_text, (tile.x as u64,), x),
        call_ensures(text::number_text, (tile.y as u64,), y),
    ensures
        tiles@.len() == 0 ==> content@.len() == 0,
        longer@ == content@ + z@ + seq![' '] + x@ + seq![' '] + y@ + seq!['\n'],
{
    assert(text::decimals(frontier::tile_numbers(tile)) =~= seq![z@, x@, y@]);
    frontier::lemma_three_separated(z@, x@, y@, ' ');
    let lines = tile_lines(more@);
    assert(lines.drop_last() =~= tile_lines(tiles@));
    assert(lines.last() == tile_line(tile));
    assert(longer@ =~= content@ + z@ + seq![' '] + x@ + seq![' '] + y@ + seq!['\n']);
}

/// A frontier that was written is read back as it was.
pub proof fn law_frontier_is_read_back(
    tiles: &[TileJob],
    content: String,
    again: &str,
    read: Result<Vec<TileJob>, RecordError>,
)
    requires
        call_ensures(write_frontier, (tiles,), content),
        again@ == content@,
        call_ensures(read_frontier, (again,), read),
    ensures
        read matches Ok(found) && found@ == tiles@,
{
    law_frontier_reads_back(tiles@);
}

/// A frontier is read line by line: the first three words of a line are its zoom, its column and
/// its row. The first that is missing or no such number is the error; after an error nothing
/// counts.
pub proof fn law_frontier_is_read_line_by_line(
    content: &str,
    longer: &str,
    line: &[char],
    read: Result<Vec<TileJob>, RecordError>,
    more: Result<Vec<TileJob>, RecordError>,
    words: Vec<Vec<char>>,
    a: &[char],
    b: &[char],
    c: &[char],
    z: Option<u64>,
    x: Option<u64>,
    y: Option<u64>,
)
    requires
        call_ensures(read_frontier, (content,), read),
        call_ensures(read_frontier, (longer,), more),
        content@.len() == 0 || content@.last() == '\n',
        !line@.contains('\n'),
        longer@ == content@ + line@.push('\n'),
        call_ensures(text::split_words, (line,), words),
        words@.len() > 0 ==> a@ == words@[0]@,
        words@.len() > 1 ==> b@ == words@[1]@,
        words@.len() > 2 ==> c@ == words@[2]@,
        call_ensures(text::parse_number, (a, 255u64), z),
        call_ensures(text::parse_number, (b, 0xffff_ffffu64), x),
        call_ensures(text::parse_number, (c, 0xffff_ffffu64), y),
    ensures
        content@.len() == 0 ==> (read matches Ok(none) && none@.len() == 0),
        read matches Err(e) ==> (more matches Err(f) && f == e),
        read matches Ok(tiles) ==> {
            if words@.len() == 0 {
                more matches Err(f) && f == (RecordError::Missing { field: RecordField::Z })
            } else if z is None {
                more matches Err(f) && f == (RecordError::Invalid { field: RecordField::Z })
            } else if words@.len() == 1 {
                more matches Err(f) && f == (RecordError::Missing { field: RecordField::X })
            } else if x is None {
                more matches Err(f) && f == (RecordError::Invalid { field: RecordField::X })
            } else if words@.len() == 2 {
                more matches Err(f) && f == (RecordError::Missing { field: RecordField::Y })
            } else if y is None {
                more matches Err(f) && f == (RecordError::Invalid { field: RecordField::Y })
            } else {
                more matches Ok(found) && found@ == tiles@.push(
                    TileJob { z: z->0 as u8, x: x->0 as u32, y: y->0 as u32 },
                )
            }
        },
{
    text::lemma_lines_grow(content@, line@);
    let lines = text::lines(content@);
    assert(lines.push(line@).drop_last() =~= lines);
    assert(lines.push(line@).last() == line@);
    let w = text::contents(words@);
    assert(w.len() == words@.len());
    assert(words@.len() > 0 ==> w[0] == a@);
    assert(words@.len() > 1 ==> w[1] == b@);
    assert(words@.len() > 2 ==> w[2] == c@);
    if content@.len() == 0 {
        assert(content@ =~= seq![]);
        assert(lines =~= seq![]);
    }
}

/// A fill rule is written as its root and its colour in digits, with blanks between them.
pub proof fn law_fill_rule_is_one_line(
    fill: UniformFill,
    line: String,
    z: String,
    x: String,
    y: String,
    r: String,
    g: String,
    b: String,
)
    requires
        call_ensures(append_uniform_fill, (fill,), line),
        call_ensures(text::number_text, (fill.root.z as u64,), z),
        call_ensures(text::number_text, (fill.root.x as u64,), x),
        call_ensures(text::number_text, (fill.root.y as u64,), y),
        call_ensures(text::number_text, (fill.color@[0] as u64,), r),
        call_ensures(text::number_text, (fill.color@[1] as u64,), g),
        call_ensures(text::number_text, (fill.color@[2] as u64,), b),
    ensures
        line@ == z@ + seq![' '] + x@ + seq![' '] + y@ + seq![' '] + r@ + seq![' '] + g@ + seq![' ']
            + b@ + seq!['\n'],
{
    let parts = text::decimals(fill_numbers(fill));
    assert(parts.len() == 6);
    let p5 = parts.drop_last();
    let p4 = p5.drop_last();
    let p3 = p4.drop_last();
    assert(p3 =~= seq![z@, x@, y@]);
    frontier::lemma_three_separated(z@, x@, y@, ' ');
    assert(text::separated(p4, ' ') == text::separated(p3, ' ').push(' ') + parts[3]);
    assert(text::separated(p5, ' ') == text::separated(p4, ' ').push(' ') + parts[4]);
    assert(text::separated(parts, ' ') == text::separated(p5, ' ').push(' ') + parts[5]);
    assert(parts[3] == r@ && parts[4] == g@ && parts[5] == b@);
    assert(line@ =~= z@ + seq![' '] + x@ + seq![' '] + y@ + seq![' '] + r@ + seq![' '] + g@ + seq![
        ' ',
    ] + b@ + seq!['\n']);
}

/// The rules that stay have the roots of all rules.
proof fn lemma_first_rules_keys(fills: Seq<UniformFill>)
    ensures
        pipeline::keys_of(roots(first_rules(fills))) == pipeline::keys_of(roots(fills)),
    decreases fills.len(),
{
    if fills.len() > 0 {
        let head = fills.drop_last();
        let last = fills.last();
        lemma_first_rules_keys(head);
        assert(roots(fills) =~= roots(head).push(last.root));
        pipeline::lemma_keys_of_push(roots(head), last.root);
        if pipeline::keys_of(roots(head)).contains(frontier::key_of(last.root)) {
            assert(pipeline::keys_of(roots(fills)) =~= pipeline::keys_of(roots(head)));
        } else {
            assert(roots(first_rules(head).push(last)) =~= roots(first_rules(head)).push(
                last.root,
            ));
            pipeline::lemma_keys_of_push(roots(first_rules(head)), last.root);
        }
    } else {
        assert(roots(first_rules(fills)) =~= roots(fills));
    }
}

/// A rule that is appended to the rule file is read as the last rule, unless an earlier one has the
/// same root; then that one holds. The roots that are read are those of the rules.
pub proof fn law_appended_rule_is_read(
    content: &str,
    longer: &str,
    fill: UniformFill,
    line: String,
    read: Vec<UniformFill>,
    more: Result<Vec<UniformFill>, RecordError>,
    keys: Result<HashSet<u64>, RecordError>,
)
    requires
        call_ensures(append_uniform_fill, (fill,), line),
        content@.len() == 0 || content@.last() == '\n',
        longer@ == content@ + line@,
        call_ensures(
            read_uniform_fills,
            (content,),
            Ok::<Vec<UniformFill>, RecordError>(read),
        ),
        call_ensures(read_uniform_fills, (longer,), more),
        call_ensures(uniform_fill_roots, (content,), keys),
    ensures
        keys matches Ok(found) && forall|key: u64| #[trigger]
            found@.contains(key) <==> exists|i: int|
                0 <= i < read@.len() && frontier::key_of((#[trigger] read@[i]).root) == key,
        (exists|i: int|
            0 <= i < read@.len() && frontier::key_of((#[trigger] read@[i]).root)
                == frontier::key_of(fill.root)) ==> (more matches Ok(found) && found@ == read@),
        !(exists|i: int|
            0 <= i < read@.len() && frontier::key_of((#[trigger] read@[i]).root)
                == frontier::key_of(fill.root)) ==> (more matches Ok(found) && found@ == read@.push(
            fill,
        )),
        content@.len() == 0 ==> read@.len() == 0,
{
    lemma_fill_line_reads_back(fill);
    let one = fill_line(fill);
    assert(!one.contains('\n')) by {
        if one.contains('\n') {
            let i = choose|i: int| 0 <= i < one.len() && one[i] == '\n';
            assert(one[i] != '\n');
        }
    }
    text::lemma_lines_grow(content@, one);
    let lines = text::lines(content@);
    assert(lines.push(one).drop_last() =~= lines);
    assert(lines.push(one).last() == one);
    let all = fill_records(lines)->Ok_0;
    assert(all.push(fill).drop_last() =~= all);
    assert(all.push(fill).last() == fill);
    lemma_first_rules_keys(all);
    let found = roots(read@);
    assert forall|key: u64| pipeline::keys_of(found).contains(key) <==> exists|i: int|
        0 <= i < read@.len() && frontier::key_of((#[trigger] read@[i]).root) == key by {
        if pipeline::keys_of(found).contains(key) {
            let i = choose|i: int| 0 <= i < found.len() && frontier::key_of(#[trigger] found[i])
                == key;
            assert(frontier::key_of(read@[i].root) == key);
        }
        if exists|i: int| 0 <= i < read@.len() && frontier::key_of((#[trigger] read@[i]).root)
            == key {
            let i = choose|i: int|
                0 <= i < read@.len() && frontier::key_of((#[trigger] read@[i]).root) == key;
            assert(frontier::key_of(found[i]) == key);
        }
    }
    if content@.len() == 0 {
        assert(content@ =~= seq![]);
        assert(lines =~= seq![]);
    }
}

/// The tiles that names stand for are found name by name; a name that is none is passed over.
pub proof fn law_named_tiles_one_by_one(names: Seq<Seq<char>>, name: Seq<char>)
    ensures
        tiles_named(seq![]).len() == 0,
        frontier::parsed_filename(name) matches Some(tile) ==> tiles_named(names.push(name))
            == tiles_named(names).push(tile),
        frontier::parsed_filename(name) is None ==> tiles_named(names.push(name)) == tiles_named(
            names,
        ),
{
    assert(names.push(name).drop_last() =~= names);
}

/// The keys that are found in a directory are those of the tiles that its files are named after.
pub proof fn law_staged_keys_by_name(names: &[String], existing: HashSet<u64>, i: int)
    requires
        call_ensures(scan_existing_encoded, (names,), existing),
    ensures
        0 <= i < names@.len() ==> (frontier::parsed_filename(names@[i]@) matches Some(tile)
            ==> existing@.contains(frontier::key_of(tile))),
        forall|key: u64| #[trigger]
            existing@.contains(key) ==> exists|k: int|
                0 <= k < names@.len() && frontier::parsed_filename((#[trigger] names@[k])@) is Some
                    && frontier::key_of(frontier::parsed_filename(names@[k]@)->0) == key,
{
    let all = texts(names@);
    let tiles = tiles_named(all);
    if 0 <= i < names@.len() && frontier::parsed_filename(names@[i]@) is Some {
        let tile = frontier::parsed_filename(names@[i]@)->0;
        assert(all[i] == names@[i]@);
        coverage::lemma_tiles_named(all, tile);
        let m = choose|m: int| 0 <= m < tiles.len() && tiles[m] == tile;
        assert(frontier::key_of(tiles[m]) == frontier::key_of(tile));
    }
    assert forall|key: u64| #[trigger] existing@.contains(key) implies exists|k: int|
        0 <= k < names@.len() && frontier::parsed_filename((#[trigger] names@[k])@) is Some
            && frontier::key_of(frontier::parsed_filename(names@[k]@)->0) == key by {
        let m = choose|m: int| 0 <= m < tiles.len() && frontier::key_of(#[trigger] tiles[m]) == key;
        assert(tiles.contains(tiles[m]));
        coverage::lemma_tiles_named(all, tiles[m]);
        let k = choose|k: int|
            0 <= k < all.len() && frontier::parsed_filename(#[trigger] all[k]) == Some(tiles[m]);
        assert(frontier::parsed_filename(names@[k]@) == Some(tiles[m]));
    }
}

/// Rules are read line by line: after the tile, three words are the parts of its colour. The first
/// that is missing or no such number is the error; after an error nothing counts.
pub proof fn law_rules_are_read_line_by_line(
    content: &str,
    longer: &str,
    line: &[char],
    read: Result<Vec<UniformFill>, RecordError>,
    more: Result<Vec<UniformFill>, RecordError>,
    words: Vec<Vec<char>>,
    root: Result<TileJob, RecordError>,
    a: &[char],
    b: &[char],
    c: &[char],
    red: Option<u64>,
    green: Option<u64>,
    blue: Option<u64>,
)
    requires
        call_ensures(read_uniform_fills, (content,), read),
        call_ensures(read_uniform_fills, (longer,), more),
        content@.len() == 0 || content@.last() == '\n',
        !line@.contains('\n'),
        longer@ == content@ + line@.push('\n'),
        call_ensures(text::split_words, (line,), words),
        root == tile_of_words(text::contents(words@)),
        words@.len() > 3 ==> a@ == words@[3]@,
        words@.len() > 4 ==> b@ == words@[4]@,
        words@.len() > 5 ==> c@ == words@[5]@,
        call_ensures(text::parse_number, (a, 255u64), red),
        call_ensures(text::parse_number, (b, 255u64), green),
        call_ensures(text::parse_number, (c, 255u64), blue),
    ensures
        read matches Err(e) ==> (more matches Err(f) && f == e),
        read matches Ok(fills) ==> {
            if root is Err {
                more matches Err(f) && f == root->Err_0
            } else if words@.len() <= 3 {
                more matches Err(f) && f == (RecordError::Missing { field: RecordField::R })
            } else if red is None {
                more matches Err(f) && f == (RecordError::Invalid { field: RecordField::R })
            } else if words@.len() <= 4 {
                more matches Err(f) && f == (RecordError::Missing { field: RecordField::G })
            } else if green is None {
                more matches Err(f) && f == (RecordError::Invalid { field: RecordField::G })
            } else if words@.len() <= 5 {
                more matches Err(f) && f == (RecordError::Missing { field: RecordField::B })
            } else if blue is None {
                more matches Err(f) && f == (RecordError::Invalid { field: RecordField::B })
            } else if pipeline::keys_of(roots(fills@)).contains(frontier::key_of(root->Ok_0)) {
                more matches Ok(found) && found@ == fills@
            } else {
                more matches Ok(found) && found@ == fills@.push(
                    UniformFill {
                        root: root->Ok_0,
                        color: [red->0 as u8, green->0 as u8, blue->0 as u8],
                    },
                )
            }
        },
{
    text::lemma_lines_grow(content@, line@);
    let lines = text::lines(content@);
    assert(lines.push(line@).drop_last() =~= lines);
    assert(lines.push(line@).last() == line@);
    let w = text::contents(words@);
    assert(w.len() == words@.len());
    assert(words@.len() > 3 ==> w[3] == a@);
    assert(words@.len() > 4 ==> w[4] == b@);
    assert(words@.len() > 5 ==> w[5] == c@);
    if read is Ok {
        let all = fill_records(lines)->Ok_0;
        lemma_first_rules_keys(all);
        if fill_record(line@) is Ok {
            let fill = fill_record(line@)->Ok_0;
            assert(all.push(fill).drop_last() =~= all);
            assert(all.push(fill).last() == fill);
        }
    }
}

/// The tile of a line is its first three words, read as zoom, column and row in turn.
pub proof fn law_tile_of_words(
    words: Seq<Seq<char>>,
    a: &[char],
    b: &[char],
    c: &[char],
    z: Option<u64>,
    x: Option<u64>,
    y: Option<u64>,
)
    requires
        words.len() > 0 ==> a@ == words[0],
        words.len() > 1 ==> b@ == words[1],
        words.len() > 2 ==> c@ == words[2],
        call_ensures(text::parse_number, (a, 255u64), z),
        call_ensures(text::parse_number, (b, 0xffff_ffffu64), x),
        call_ensures(text::parse_number, (c, 0xffff_ffffu64), y),
    ensures
        tile_of_words(words) == (if words.len() == 0 {
            Err::<TileJob, RecordError>(RecordError::Missing { field: RecordField::Z })
        } else if z is None {
            Err::<TileJob, RecordError>(RecordError::Invalid { field: RecordField::Z })
        } else if words.len() == 1 {
            Err::<TileJob, RecordError>(RecordError::Missing { field: RecordField::X })
        } else if x is None {
            Err::<TileJob, RecordError>(RecordError::Invalid { field: RecordField::X })
        } else if words.len() == 2 {
            Err::<TileJob, RecordError>(RecordError::Missing { field: RecordField::Y })
        } else if y is None {
            Err::<TileJob, RecordError>(RecordError::Invalid { field: RecordField::Y })
        } else {
            Ok::<TileJob, RecordError>(
                TileJob { z: z->0 as u8, x: x->0 as u32, y: y->0 as u32 },
            )
        }),
{
}

} // verus!
