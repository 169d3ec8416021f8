//! What comes back from the processing of a tile, and the tally of a run.

use std::collections::HashSet;

use vstd::prelude::*;
use vstd::string::*;

use crate::frontier;
use crate::frontier::{append_children_in_bounds, tile_key, TileBounds, TileJob};
use crate::text;

verus! {

broadcast use vstd::std_specs::hash::group_hash_axioms;

/// An encoded tile, and its colour where all of it has the same one.
pub struct ProcessedTile {
    pub data: Vec<u8>,
    pub uniform_color: Option<[u8; 3]>,
}

/// What became of one tile.
pub enum TileOutcome {
    Data { coord: TileJob, data: Vec<u8>, uniform_color: Option<[u8; 3]> },
    Empty { coord: TileJob },
    Error { coord: TileJob, error: String },
}

impl TileOutcome {
    /// The tile that the outcome is of.
    pub open spec fn tile(self) -> TileJob {
        match self {
            TileOutcome::Data { coord, .. } => coord,
            TileOutcome::Empty { coord } => coord,
            TileOutcome::Error { coord, .. } => coord,
        }
    }
}

/// The outcome of a tile, from what processing it gave.
pub fn process_tile_job(
    tile: TileJob,
    processed: Result<Option<ProcessedTile>, String>,
) -> (outcome: TileOutcome)
    ensures
        outcome == (match processed {
            Ok(Some(done)) => TileOutcome::Data {
                coord: tile,
                data: done.data,
                uniform_color: done.uniform_color,
            },
            Ok(None) => TileOutcome::Empty { coord: tile },
            Err(error) => TileOutcome::Error { coord: tile, error },
        }),
{
    match processed {
        Ok(Some(done)) => TileOutcome::Data {
            coord: tile,
            data: done.data,
            uniform_color: done.uniform_color,
        },
        Ok(None) => TileOutcome::Empty { coord: tile },
        Err(error) => TileOutcome::Error { coord: tile, error },
    }
}

/// The handling of the outcomes of some tiles, one after another. After the first error the others
/// are let pass, and that error is what comes of it.
pub struct Handling<E> {
    pub error: Option<E>,
}

impl<E> Handling<E> {
    /// No outcome has been handled.
    pub fn new() -> (handling: Handling<E>)
        ensures
            handling.error is None,
    {
        Handling { error: None }
    }

    /// Whether the next outcome is to be handled.
    pub fn goes_on(&self) -> (r: bool)
        ensures
            r == (self.error is None),
    {
        self.error.is_none()
    }

    /// Takes in what came of handling an outcome.
    pub fn take(&mut self, result: Result<(), E>)
        ensures
            final(self).error == (match (old(self).error, result) {
                (Some(first), _) => Some(first),
                (None, Err(error)) => Some(error),
                (None, Ok(_)) => None,
            }),
    {
        if self.error.is_none() {
            if let Err(error) = result {
                self.error = Some(error);
            }
        }
    }

    /// What came of it all.
    pub fn end(self) -> (result: Result<(), E>)
        ensures
            result == (match self.error {
                Some(error) => Err::<(), E>(error),
                None => Ok::<(), E>(()),
            }),
    {
        match self.error {
            Some(error) => Err(error),
            None => Ok(()),
        }
    }
}

/// How far the counters of a tally may have come for one more tile, with everything below it, to
/// be counted in any of them.
pub const TALLY_LIMIT: u64 = 0x7fff_ffff_ffff_fffe;

/// The tally of a run or of one zoom.
#[derive(Clone, Copy, Debug, PartialEq, Eq, Structural)]
pub struct TileStats {
    pub checked: u64,
    pub written: u64,
    pub empty: u64,
    pub errors: u64,
    pub restored: u64,
    pub pruned: u64,
    pub filled: u64,
}

impl Default for TileStats {
    fn default() -> (stats: TileStats)
        ensures
            stats == TileStats::zero(),
    {
        TileStats {
            checked: 0,
            written: 0,
            empty: 0,
            errors: 0,
            restored: 0,
            pruned: 0,
            filled: 0,
        }
    }
}

impl TileStats {
    /// A tally of nothing.
    pub open spec fn zero() -> TileStats {
        TileStats {
            checked: 0,
            written: 0,
            empty: 0,
            errors: 0,
            restored: 0,
            pruned: 0,
            filled: 0,
        }
    }

    /// Whether one more tile can be counted without running over.
    pub open spec fn has_room(self) -> bool {
        &&& self.checked <= TALLY_LIMIT
        &&& self.written <= TALLY_LIMIT
        &&& self.empty <= TALLY_LIMIT
        &&& self.errors <= TALLY_LIMIT
        &&& self.restored <= TALLY_LIMIT
        &&& self.pruned <= TALLY_LIMIT
        &&& self.filled <= TALLY_LIMIT
    }

    /// Whether one more tile can be counted without running over.
    pub fn room(&self) -> (r: bool)
        ensures
            r == self.has_room(),
    {
        self.checked <= TALLY_LIMIT && self.written <= TALLY_LIMIT && self.empty <= TALLY_LIMIT
            && self.errors <= TALLY_LIMIT && self.restored <= TALLY_LIMIT && self.pruned
            <= TALLY_LIMIT && self.filled <= TALLY_LIMIT
    }

    /// Counts a tile that was looked at.
    pub fn add_checked(&mut self)
        requires
            old(self).checked < u64::MAX,
        ensures
            *final(self) == (TileStats { checked: (old(self).checked + 1) as u64, ..*old(self) }),
    {
        self.checked += 1;
    }

    /// Counts a tile of the archive.
    pub fn add_written(&mut self)
        requires
            old(self).written < u64::MAX,
        ensures
            *final(self) == (TileStats { written: (old(self).written + 1) as u64, ..*old(self) }),
    {
        self.written += 1;
    }

    /// Counts several tiles of the archive.
    pub fn add_written_n(&mut self, n: u64)
        requires
            old(self).written + n <= u64::MAX,
        ensures
            *final(self) == (TileStats { written: (old(self).written + n) as u64, ..*old(self) }),
    {
        self.written += n;
    }

    /// Counts a tile without data.
    pub fn add_empty(&mut self)
        requires
            old(self).empty < u64::MAX,
        ensures
            *final(self) == (TileStats { empty: (old(self).empty + 1) as u64, ..*old(self) }),
    {
        self.empty += 1;
    }

    /// Counts a tile that failed.
    pub fn add_error(&mut self)
        requires
            old(self).errors < u64::MAX,
        ensures
            *final(self) == (TileStats { errors: (old(self).errors + 1) as u64, ..*old(self) }),
    {
        self.errors += 1;
    }

    /// Counts a tile that an earlier run had left.
    pub fn add_restored(&mut self)
        requires
            old(self).restored < u64::MAX,
        ensures
            *final(self) == (TileStats { restored: (old(self).restored + 1) as u64, ..*old(self) }),
    {
        self.restored += 1;
    }

    /// Counts descendants that an empty tile rules out.
    pub fn add_pruned(&mut self, n: u64)
        requires
            old(self).pruned + n <= u64::MAX,
        ensures
            *final(self) == (TileStats { pruned: (old(self).pruned + n) as u64, ..*old(self) }),
    {
        self.pruned += n;
    }

    /// Counts descendants that take the colour of a uniform tile.
    pub fn add_filled(&mut self, n: u64)
        requires
            old(self).filled + n <= u64::MAX,
        ensures
            *final(self) == (TileStats { filled: (old(self).filled + n) as u64, ..*old(self) }),
    {
        self.filled += n;
    }
}

/// The keys of some tiles.
pub open spec fn keys_of(tiles: Seq<TileJob>) -> Set<u64> {
    Set::new(
        |key: u64|
            exists|i: int| 0 <= i < tiles.len() && frontier::key_of(#[trigger] tiles[i]) == key,
    )
}

/// The tiles whose key is neither among `keys` nor that of an earlier one.
pub open spec fn fresh(tiles: Seq<TileJob>, keys: Set<u64>) -> Seq<TileJob>
    decreases tiles.len(),
{
    if tiles.len() == 0 {
        seq![]
    } else {
        let head = tiles.drop_last();
        let key = frontier::key_of(tiles.last());
        if keys.contains(key) || keys_of(head).contains(key) {
            fresh(head, keys)
        } else {
            fresh(head, keys).push(tiles.last())
        }
    }
}

/// One more tile adds its key.
pub proof fn lemma_keys_of_push(tiles: Seq<TileJob>, tile: TileJob)
    ensures
        keys_of(tiles.push(tile)) == keys_of(tiles).insert(frontier::key_of(tile)),
{
    let more = tiles.push(tile);
    assert forall|key: u64| keys_of(more).contains(key) == keys_of(tiles).insert(
        frontier::key_of(tile),
    ).contains(key) by {
        if keys_of(tiles).contains(key) {
            let i = choose|i: int|
                0 <= i < tiles.len() && frontier::key_of(#[trigger] tiles[i]) == key;
            assert(more[i] == tiles[i]);
        }
        if key == frontier::key_of(tile) {
            assert(more[tiles.len() as int] == tile);
        }
        if keys_of(more).contains(key) {
            let i = choose|i: int|
                0 <= i < more.len() && frontier::key_of(#[trigger] more[i]) == key;
            if i < tiles.len() {
                assert(tiles[i] == more[i]);
            }
        }
    }
    assert(keys_of(more) =~= keys_of(tiles).insert(frontier::key_of(tile)));
}

/// Appends the children of a tile that lie within the bounds of their zoom and whose key has not
/// been seen, and records their keys.
pub fn append_children_unique_in_bounds(
    tile: TileJob,
    next_frontier: &mut Vec<TileJob>,
    next_keys: &mut HashSet<u64>,
    max_z: u8,
    bounds: &[TileBounds],
)
    requires
        frontier::children_fit(tile, max_z, bounds@),
    ensures
        final(next_frontier)@ == old(next_frontier)@ + fresh(
            frontier::children_in_bounds(tile, max_z, bounds@),
            old(next_keys)@,
        ),
        final(next_keys)@ == old(next_keys)@ + keys_of(
            frontier::children_in_bounds(tile, max_z, bounds@),
        ),
{
    let ghost before = next_frontier@;
    let ghost known = next_keys@;
    let ghost kids = frontier::children_in_bounds(tile, max_z, bounds@);
    let start: usize = next_frontier.len();
    append_children_in_bounds(tile, next_frontier, max_z, bounds);
    let end: usize = next_frontier.len();
    let mut write: usize = start;
    let mut read: usize = start;
    proof {
        assert(kids.take(0) =~= seq![]);
        assert(keys_of(kids.take(0)) =~= Set::empty());
        assert(known + Set::<u64>::empty() =~= known);
        assert(next_frontier@.take(start as int) =~= before + fresh(kids.take(0), known));
    }
    while read < end
        invariant
            start <= write <= read <= end,
            start == before.len(),
            end == start + kids.len(),
            next_frontier@.len() == end,
            forall|i: int| read <= i < end ==> (#[trigger] next_frontier@[i]) == kids[i - start],
            next_frontier@.take(write as int) == before + fresh(kids.take(read - start), known),
            next_keys@ == known + keys_of(kids.take(read - start)),
        decreases end - read,
    {
        let child = next_frontier[read];
        let ghost done = kids.take(read - start);
        let ghost more = kids.take(read - start + 1);
        proof {
            assert(child == kids[read - start]);
            assert(more =~= done.push(child));
            assert(more.drop_last() =~= done);
            lemma_keys_of_push(done, child);
            assert(known + keys_of(more) =~= (known + keys_of(done)).insert(
                frontier::key_of(child),
            ));
        }
        let ghost was = next_frontier@;
        if next_keys.insert(tile_key(child)) {
            next_frontier[write] = child;
            assert(next_frontier@.take(write + 1) =~= was.take(write as int).push(child));
            write += 1;
        }
        read += 1;
    }
    assert(kids.take(kids.len() as int) =~= kids);
    next_frontier.truncate(write);
}

/// How many tiles are processed between two looks at the frontier.
pub const CHUNK_SIZE: usize = 4096;

/// The numbers of a tile with strokes between them.
pub open spec fn tile_label(tile: TileJob) -> Seq<char> {
    text::separated(text::decimals(frontier::tile_numbers(tile)), '/')
}

/// The numbers of a tile with strokes between them.
pub fn tile_label_text(tile: TileJob) -> (label: String)
    ensures
        label@ == tile_label(tile),
{
    let mut label: String = String::new();
    text::push_number(&mut label, tile.z as u64);
    label.append("/");
    text::push_number(&mut label, tile.x as u64);
    label.append("/");
    text::push_number(&mut label, tile.y as u64);
    proof {
        reveal_strlit("/");
        let z = text::decimal(tile.z as nat);
        let x = text::decimal(tile.x as nat);
        let y = text::decimal(tile.y as nat);
        assert(text::decimals(frontier::tile_numbers(tile)) =~= seq![z, x, y]);
        frontier::lemma_three_separated(z, x, y, '/');
        assert(label@ =~= tile_label(tile));
    }
    label
}

/// What is reported of a tile that failed.
pub open spec fn failure_text(tile: TileJob, error: Seq<char>) -> Seq<char> {
    "Warning: tile "@ + tile_label(tile) + " failed: "@ + error
}

/// What is reported of a tile that failed.
pub fn failure_message(tile: TileJob, error: &str) -> (message: String)
    ensures
        message@ == failure_text(tile, error@),
{
    let mut message: String = "Warning: tile ".to_owned();
    message.append(tile_label_text(tile).as_str());
    message.append(" failed: ");
    message.append(error);
    message
}

/// The end of the chunk that starts at a place of a list.
pub open spec fn chunk_end(start: int, len: int) -> int {
    if start + CHUNK_SIZE <= len {
        start + CHUNK_SIZE
    } else {
        len
    }
}

/// The test for the tiles whose key is among some keys.
pub open spec fn among(keys: Set<u64>, wanted: bool) -> spec_fn(TileJob) -> bool {
    |tile: TileJob| keys.contains(frontier::key_of(tile)) == wanted
}

/// Takes a chunk apart: the tiles whose key is among `existing`, and the others.
pub fn split_chunk(chunk: &[TileJob], existing: &HashSet<u64>) -> (parts: (
    Vec<TileJob>,
    Vec<TileJob>,
))
    ensures
        parts.0@ == chunk@.filter(among(existing@, true)),
        parts.1@ == chunk@.filter(among(existing@, false)),
{
    let mut restored: Vec<TileJob> = Vec::new();
    let mut work: Vec<TileJob> = Vec::new();
    let mut i: usize = 0;
    proof {
        reveal(Seq::filter);
        assert(chunk@.take(0) =~= seq![]);
        assert(restored@ =~= seq![]);
        assert(work@ =~= seq![]);
    }
    while i < chunk.len()
        invariant
            i <= chunk.len(),
            restored@ == chunk@.take(i as int).filter(among(existing@, true)),
            work@ == chunk@.take(i as int).filter(among(existing@, false)),
        decreases chunk.len() - i,
    {
        proof {
            reveal(Seq::filter);
            assert(chunk@.take(i + 1).drop_last() =~= chunk@.take(i as int));
        }
        let tile = chunk[i];
        if existing.contains(&tile_key(tile)) {
            restored.push(tile);
        } else {
            work.push(tile);
        }
        i += 1;
    }
    assert(chunk@.take(chunk@.len() as int) =~= chunk@);
    (restored, work)
}

/// Taking a chunk apart loses no tile and doubles none.
pub proof fn law_split_loses_nothing(chunk: Seq<TileJob>, keys: Set<u64>)
    ensures
        (chunk.filter(among(keys, true)) + chunk.filter(among(keys, false))).to_multiset()
            == chunk.to_multiset(),
    decreases chunk.len(),
{
    reveal(Seq::filter);
    let a = chunk.filter(among(keys, true));
    let b = chunk.filter(among(keys, false));
    if chunk.len() == 0 {
        assert(a + b =~= chunk);
    } else {
        let head = chunk.drop_last();
        let last = chunk.last();
        law_split_loses_nothing(head, keys);
        let a1 = head.filter(among(keys, true));
        let b1 = head.filter(among(keys, false));
        assert(head.push(last) =~= chunk);
        head.to_multiset_ensures();
        (a1 + b1).to_multiset_ensures();
        if keys.contains(frontier::key_of(last)) {
            assert(a + b =~= a1 + seq![last] + b1);
            vstd::seq_lib::lemma_multiset_commutative(a1 + seq![last], b1);
            vstd::seq_lib::lemma_multiset_commutative(a1, seq![last]);
            vstd::seq_lib::lemma_multiset_commutative(a1, b1);
            assert(seq![last] =~= Seq::<TileJob>::empty().push(last));
            Seq::<TileJob>::empty().to_multiset_ensures();
            assert((a + b).to_multiset() =~= (a1 + b1).to_multiset().insert(last));
        } else {
            assert(a + b =~= (a1 + b1).push(last));
        }
    }
}

/// Whether no two tiles share a key.
pub open spec fn keys_differ(tiles: Seq<TileJob>) -> bool {
    forall|i: int, j: int|
        0 <= i < j < tiles.len() ==> frontier::key_of(#[trigger] tiles[i]) != frontier::key_of(
            #[trigger] tiles[j],
        )
}

/// The keys of two lists in a row.
pub proof fn lemma_keys_of_add(a: Seq<TileJob>, b: Seq<TileJob>)
    ensures
        keys_of(a + b) == keys_of(a) + keys_of(b),
    decreases b.len(),
{
    if b.len() == 0 {
        assert(a + b =~= a);
        assert(keys_of(b) =~= Set::empty());
        assert(keys_of(a) + keys_of(b) =~= keys_of(a));
    } else {
        let head = b.drop_last();
        lemma_keys_of_add(a, head);
        assert(a + b =~= (a + head).push(b.last()));
        assert(b =~= head.push(b.last()));
        lemma_keys_of_push(a + head, b.last());
        lemma_keys_of_push(head, b.last());
        assert(keys_of(a + b) =~= keys_of(a) + keys_of(b));
    }
}

/// Tiles that are queued only where their key is new are queued once each, and none is missing.
pub proof fn law_fresh_tiles_once(queued: Seq<TileJob>, tiles: Seq<TileJob>)
    ensures
        keys_of(queued + fresh(tiles, keys_of(queued))) == keys_of(queued) + keys_of(tiles),
        keys_differ(queued) ==> keys_differ(queued + fresh(tiles, keys_of(queued))),
    decreases tiles.len(),
{
    let more = fresh(tiles, keys_of(queued));
    if tiles.len() == 0 {
        assert(queued + more =~= queued);
        assert(keys_of(tiles) =~= Set::empty());
        assert(keys_of(queued) + keys_of(tiles) =~= keys_of(queued));
    } else {
        let head = tiles.drop_last();
        let last = tiles.last();
        let key = frontier::key_of(last);
        law_fresh_tiles_once(queued, head);
        let before = fresh(head, keys_of(queued));
        assert(tiles =~= head.push(last));
        lemma_keys_of_push(head, last);
        if keys_of(queued).contains(key) || keys_of(head).contains(key) {
            assert(keys_of(queued) + keys_of(tiles) =~= keys_of(queued) + keys_of(head));
        } else {
            assert(queued + more =~= (queued + before).push(last));
            lemma_keys_of_push(queued + before, last);
            assert(keys_of(queued + more) =~= keys_of(queued) + keys_of(tiles));
            if keys_differ(queued) {
                let all = queued + more;
                let less = queued + before;
                assert forall|i: int, j: int| 0 <= i < j < all.len() implies frontier::key_of(
                    #[trigger] all[i],
                ) != frontier::key_of(#[trigger] all[j]) by {
                    assert(all[i] == less[i]);
                    if j == less.len() {
                        assert(keys_of(less).contains(frontier::key_of(less[i])));
                    } else {
                        assert(all[j] == less[j]);
                    }
                }
            }
        }
    }
}

/// Tiles whose keys are all new are all queued.
pub proof fn law_new_tiles_all_queued(queued: Seq<TileJob>, tiles: Seq<TileJob>)
    requires
        keys_differ(queued + tiles),
    ensures
        fresh(tiles, keys_of(queued)) == tiles,
    decreases tiles.len(),
{
    if tiles.len() > 0 {
        let head = tiles.drop_last();
        let last = tiles.last();
        let key = frontier::key_of(last);
        let all = queued + tiles;
        let n = all.len() - 1;
        assert(all[n] == last);
        assert forall|i: int, j: int| 0 <= i < j < (queued + head).len() implies frontier::key_of(
            #[trigger] (queued + head)[i],
        ) != frontier::key_of(#[trigger] (queued + head)[j]) by {
            assert((queued + head)[i] == all[i]);
            assert((queued + head)[j] == all[j]);
        }
        law_new_tiles_all_queued(queued, head);
        if keys_of(queued).contains(key) {
            let i = choose|i: int|
                0 <= i < queued.len() && frontier::key_of(#[trigger] queued[i]) == key;
            assert(all[i] == queued[i]);
        }
        if keys_of(head).contains(key) {
            let i = choose|i: int| 0 <= i < head.len() && frontier::key_of(#[trigger] head[i]) == key;
            assert(all[queued.len() + i] == head[i]);
        }
        assert(head.push(last) =~= tiles);
    }
}

/// A tile that was processed has data, with its bytes and its colour, or is empty; one whose
/// processing failed says why.
pub proof fn law_outcome_says_what_came(
    tile: TileJob,
    processed: Result<Option<ProcessedTile>, String>,
    outcome: TileOutcome,
)
    requires
        call_ensures(process_tile_job, (tile, processed), outcome),
    ensures
        outcome.tile() == tile,
        processed matches Ok(Some(done)) ==> (outcome matches TileOutcome::Data {
            coord,
            data,
            uniform_color,
        } && coord == tile && data == done.data && uniform_color == done.uniform_color),
        processed matches Ok(None) ==> (outcome matches TileOutcome::Empty { coord } && coord
            == tile),
        processed matches Err(why) ==> (outcome matches TileOutcome::Error { coord, error } && coord
            == tile && error == why),
{
}

/// The outcomes are handled until the first error, and that error is what comes of it.
pub proof fn law_first_error_stays(
    handling: &mut Handling<String>,
    result: Result<(), String>,
    goes_on: bool,
    end: Result<(), String>,
)
    requires
        call_ensures(Handling::<String>::goes_on, (&*old(handling),), goes_on),
        call_ensures(Handling::<String>::take, (handling, result), ()),
        call_ensures(Handling::<String>::end, (*final(handling),), end),
    ensures
        goes_on <==> old(handling).error is None,
        old(handling).error is Some ==> end == Err::<(), String>(old(handling).error->0),
        old(handling).error is None ==> (result is Ok <==> end is Ok),
        old(handling).error is None ==> (result matches Err(e) ==> end == Err::<(), String>(e)),
{
}

/// A tile that is queued was a child within bounds and had a new key; after that the keys of all
/// children are known, and the queue goes on from what it was.
pub proof fn law_children_are_queued_once(
    tile: TileJob,
    next: &mut Vec<TileJob>,
    keys: &mut HashSet<u64>,
    max_z: u8,
    bounds: &[TileBounds],
    child: TileJob,
)
    requires
        frontier::children_fit(tile, max_z, bounds@),
        call_ensures(append_children_unique_in_bounds, (tile, next, keys, max_z, bounds), ()),
        old(keys)@ == keys_of(old(next)@),
    ensures
        final(next)@.len() >= old(next)@.len(),
        final(next)@.take(old(next)@.len() as int) == old(next)@,
        final(keys)@ == keys_of(final(next)@),
        final(next)@.skip(old(next)@.len() as int).contains(child)
            ==> frontier::children_in_bounds(tile, max_z, bounds@).contains(child) && !old(keys)@.contains(frontier::key_of(child)),
        frontier::children_in_bounds(tile, max_z, bounds@).contains(child) ==> final(keys)@.contains(frontier::key_of(child)),
        keys_differ(old(next)@) ==> keys_differ(final(next)@),
{
    let kids = frontier::children_in_bounds(tile, max_z, bounds@);
    let n = old(next)@.len() as int;
    let more = fresh(kids, old(keys)@);
    assert(final(next)@.take(n) =~= old(next)@);
    assert(final(next)@.skip(n) =~= more);
    law_fresh_tiles_once(old(next)@, kids);
    lemma_fresh_members(kids, old(keys)@, child);
    if kids.contains(child) {
        let i = choose|i: int| 0 <= i < kids.len() && kids[i] == child;
        assert(frontier::key_of(kids[i]) == frontier::key_of(child));
        assert(keys_of(kids).contains(frontier::key_of(child)));
    }
}

/// What is queued is one of the tiles, and its key was not known.
proof fn lemma_fresh_members(tiles: Seq<TileJob>, keys: Set<u64>, tile: TileJob)
    ensures
        fresh(tiles, keys).contains(tile) ==> tiles.contains(tile) && !keys.contains(
            frontier::key_of(tile),
        ),
    decreases tiles.len(),
{
    if tiles.len() > 0 {
        let head = tiles.drop_last();
        lemma_fresh_members(head, keys, tile);
        let all = fresh(tiles, keys);
        if all.contains(tile) {
            if fresh(head, keys).contains(tile) {
                let i = choose|i: int| 0 <= i < head.len() && head[i] == tile;
                assert(tiles[i] == tile);
            } else {
                let i = choose|i: int| 0 <= i < all.len() && all[i] == tile;
                assert(tiles[tiles.len() - 1] == tile);
            }
        }
    }
}

/// Whether a key is that of some tile.
pub proof fn law_keys_of_tiles(tiles: Seq<TileJob>, key: u64)
    ensures
        keys_of(tiles).contains(key) <==> exists|i: int|
            0 <= i < tiles.len() && frontier::key_of(#[trigger] tiles[i]) == key,
{
}

/// A tile is named by its zoom, its column and its row, with strokes between them; and a failure by
/// its tile and its reason.
pub proof fn law_failure_names_tile_and_reason(
    tile: TileJob,
    error: &str,
    label: String,
    message: String,
    z: String,
    x: String,
    y: String,
)
    requires
        call_ensures(tile_label_text, (tile,), label),
        call_ensures(failure_message, (tile, error), message),
        call_ensures(text::number_text, (tile.z as u64,), z),
        call_ensures(text::number_text, (tile.x as u64,), x),
        call_ensures(text::number_text, (tile.y as u64,), y),
    ensures
        label@ == z@ + seq!['/'] + x@ + seq!['/'] + y@,
        message@ == "Warning: tile "@ + label@ + " failed: "@ + error@,
{
    assert(text::decimals(frontier::tile_numbers(tile)) =~= seq![z@, x@, y@]);
    frontier::lemma_three_separated(z@, x@, y@, '/');
    assert((z@.push('/') + x@).push('/') + y@ =~= z@ + seq!['/'] + x@ + seq!['/'] + y@);
}

/// The tiles of a chunk whose key is known are passed over, the others are made; each of them is in
/// one part, as often as it was in the chunk.
pub proof fn law_chunk_is_taken_apart(
    chunk: &[TileJob],
    existing: &HashSet<u64>,
    parts: (Vec<TileJob>, Vec<TileJob>),
    tile: TileJob,
)
    requires
        call_ensures(split_chunk, (chunk, existing), parts),
    ensures
        (parts.0@ + parts.1@).to_multiset() == chunk@.to_multiset(),
        parts.0@.contains(tile) <==> chunk@.contains(tile) && existing@.contains(
            frontier::key_of(tile),
        ),
        parts.1@.contains(tile) <==> chunk@.contains(tile) && !existing@.contains(
            frontier::key_of(tile),
        ),
{
    broadcast use vstd::seq_lib::group_filter_ensures;

    law_split_loses_nothing(chunk@, existing@);
    let yes = among(existing@, true);
    let no = among(existing@, false);
    let both = parts.0@ + parts.1@;
    both.to_multiset_ensures();
    chunk@.to_multiset_ensures();
    if chunk@.contains(tile) {
        let i = choose|i: int| 0 <= i < chunk@.len() && chunk@[i] == tile;
        if existing@.contains(frontier::key_of(tile)) {
            assert(yes(chunk@[i]));
            assert(chunk@.filter(yes).contains(chunk@[i]));
        } else {
            assert(no(chunk@[i]));
            assert(chunk@.filter(no).contains(chunk@[i]));
        }
    }
    if parts.0@.contains(tile) {
        let i = choose|i: int| 0 <= i < parts.0@.len() && parts.0@[i] == tile;
        assert(yes(chunk@.filter(yes)[i]));
        assert(both[i] == tile);
        assert(both.contains(tile));
        assert(both.to_multiset().count(tile) > 0);
        assert(chunk@.to_multiset().count(tile) > 0);
        assert(chunk@.contains(tile));
    }
    if parts.1@.contains(tile) {
        let i = choose|i: int| 0 <= i < parts.1@.len() && parts.1@[i] == tile;
        assert(no(chunk@.filter(no)[i]));
        assert(both[parts.0@.len() + i] == tile);
        assert(both.contains(tile));
        assert(both.to_multiset().count(tile) > 0);
        assert(chunk@.to_multiset().count(tile) > 0);
        assert(chunk@.contains(tile));
    }
}

/// A tally of nothing, and one more of each kind: every counter counts for itself.
pub proof fn law_counters_count_for_themselves(stats: &mut TileStats, n: u64)
    requires
        old(stats).has_room(),
        n <= 0x8000_0000_0000_0000,
    ensures
        call_ensures(TileStats::add_written_n, (stats, n), ()) ==> final(stats).written == old(stats).written + n && final(stats).checked == old(stats).checked && final(stats).filled == old(stats).filled && final(stats).pruned == old(stats).pruned,
        call_ensures(TileStats::add_pruned, (stats, n), ()) ==> final(stats).pruned == old(stats).pruned + n && final(stats).checked == old(stats).checked && final(stats).written == old(stats).written && final(stats).filled == old(stats).filled,
        call_ensures(TileStats::add_filled, (stats, n), ()) ==> final(stats).filled == old(stats).filled + n && final(stats).checked == old(stats).checked && final(stats).written == old(stats).written && final(stats).pruned == old(stats).pruned,
        call_ensures(TileStats::add_checked, (stats,), ()) ==> final(stats).checked == old(stats).checked + 1 && final(stats).written == old(stats).written,
        call_ensures(TileStats::add_written, (stats,), ()) ==> final(stats).written == old(stats).written + 1 && final(stats).checked == old(stats).checked,
        call_ensures(TileStats::add_empty, (stats,), ()) ==> final(stats).empty == old(stats).empty
            + 1 && final(stats).errors == old(stats).errors && final(stats).written == old(stats).written,
        call_ensures(TileStats::add_error, (stats,), ()) ==> final(stats).errors == old(stats).errors + 1 && final(stats).empty == old(stats).empty && final(stats).written == old(stats).written,
        call_ensures(TileStats::add_restored, (stats,), ()) ==> final(stats).restored == old(stats).restored + 1 && final(stats).written == old(stats).written,
{
}

/// A chunk of which no key is known is all to be made; one of which all keys are known is all
/// passed over.
pub proof fn lemma_filter_whole(chunk: Seq<TileJob>, keys: Set<u64>)
    ensures
        (forall|i: int|
            0 <= i < chunk.len() ==> !keys.contains(frontier::key_of(#[trigger] chunk[i])))
            ==> chunk.filter(among(keys, false)) == chunk && chunk.filter(among(keys, true)).len()
            == 0,
        (forall|i: int|
            0 <= i < chunk.len() ==> keys.contains(frontier::key_of(#[trigger] chunk[i])))
            ==> chunk.filter(among(keys, true)) == chunk && chunk.filter(among(keys, false)).len()
            == 0,
    decreases chunk.len(),
{
    reveal(Seq::filter);
    if chunk.len() > 0 {
        let head = chunk.drop_last();
        let n = chunk.len() - 1;
        lemma_filter_whole(head, keys);
        assert(head.push(chunk.last()) =~= chunk);
        if forall|i: int|
            0 <= i < chunk.len() ==> !keys.contains(frontier::key_of(#[trigger] chunk[i])) {
            assert(!keys.contains(frontier::key_of(chunk[n])));
            assert forall|i: int| 0 <= i < head.len() implies !keys.contains(
                frontier::key_of(#[trigger] head[i]),
            ) by {
                assert(head[i] == chunk[i]);
            }
        }
        if forall|i: int|
            0 <= i < chunk.len() ==> keys.contains(frontier::key_of(#[trigger] chunk[i])) {
            assert(keys.contains(frontier::key_of(chunk[n])));
            assert forall|i: int| 0 <= i < head.len() implies keys.contains(
                frontier::key_of(#[trigger] head[i]),
            ) by {
                assert(head[i] == chunk[i]);
            }
        }
    }
}

/// A chunk of which no key is known is to be made as it stands, and one of which all are known is
/// passed over as it stands.
pub proof fn law_chunk_keeps_its_order(
    chunk: &[TileJob],
    existing: &HashSet<u64>,
    parts: (Vec<TileJob>, Vec<TileJob>),
)
    requires
        call_ensures(split_chunk, (chunk, existing), parts),
    ensures
        (forall|i: int|
            0 <= i < chunk@.len() ==> !existing@.contains(frontier::key_of(#[trigger] chunk@[i])))
            ==> parts.1@ == chunk@ && parts.0@.len() == 0,
        (forall|i: int|
            0 <= i < chunk@.len() ==> existing@.contains(frontier::key_of(#[trigger] chunk@[i])))
            ==> parts.0@ == chunk@ && parts.1@.len() == 0,
{
    lemma_filter_whole(chunk@, existing@);
}

/// A new tally counts nothing, and there is room in it until a counter is nearly full.
pub proof fn law_tally_has_room(stats: TileStats, r: bool)
    requires
        call_ensures(TileStats::room, (&stats,), r),
    ensures
        stats.checked < 0x7fff_ffff_ffff_ffff && stats.written < 0x7fff_ffff_ffff_ffff && stats.empty
            < 0x7fff_ffff_ffff_ffff && stats.errors < 0x7fff_ffff_ffff_ffff && stats.restored
            < 0x7fff_ffff_ffff_ffff && stats.pruned < 0x7fff_ffff_ffff_ffff && stats.filled
            < 0x7fff_ffff_ffff_ffff <==> r,
{
}

} // verus!
