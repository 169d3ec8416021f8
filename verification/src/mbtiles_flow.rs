//! An MBTiles run: how it starts or is taken up again, how it goes through its zooms chunk by
//! chunk, and what its file says at every moment.

use std::collections::HashSet;

use vstd::prelude::*;
use vstd::string::*;

use crate::frontier;
use crate::frontier::{
    bounded_descendant_count, bounded_descendants, tile_key, TileBounds, TileJob,
};
use crate::generation;
use crate::generation::{Effect, TileEvent};
use crate::mbtiles::ZoomError;
use crate::pipeline;
use crate::pipeline::{
    append_children_unique_in_bounds, failure_message, TileOutcome, TileStats, CHUNK_SIZE,
};
use crate::progress::SingleProgress;
use crate::pyramid;

verus! {

broadcast use vstd::std_specs::hash::group_hash_axioms;

/// How a run starts.
#[derive(Clone, Copy, Debug, PartialEq, Eq, Structural)]
pub enum MbtilesStart {
    /// With a new file.
    Create,
    /// In the middle of a zoom.
    Resume { zoom: u8 },
}

/// How a run starts: a file that says it is in the middle of a zoom is gone on with, any other is
/// made anew.
pub open spec fn start_of(
    exists: bool,
    status: Option<Seq<char>>,
    zoom: Result<Option<u8>, ZoomError>,
) -> Result<MbtilesStart, ZoomError> {
    if exists && status == Some("processing_zoom"@) {
        match zoom {
            Ok(Some(z)) => Ok(MbtilesStart::Resume { zoom: z }),
            Ok(None) => Err(ZoomError::Missing),
            Err(e) => Err(e),
        }
    } else {
        Ok(MbtilesStart::Create)
    }
}

/// How a run starts, given whether its output exists, and the stage and the zoom that it records.
pub fn plan_start(
    exists: bool,
    status: Option<String>,
    zoom: Result<Option<u8>, ZoomError>,
) -> (start: Result<MbtilesStart, ZoomError>)
    ensures
        start == start_of(
            exists,
            match status {
                Some(s) => Some(s@),
                None => None,
            },
            zoom,
        ),
{
    if !exists {
        return Ok(MbtilesStart::Create);
    }
    match status {
        Some(s) => {
            if s.eq(&"processing_zoom".to_owned()) {
                match zoom {
                    Ok(Some(z)) => Ok(MbtilesStart::Resume { zoom: z }),
                    Ok(None) => Err(ZoomError::Missing),
                    Err(e) => Err(e),
                }
            } else {
                Ok(MbtilesStart::Create)
            }
        },
        None => Ok(MbtilesStart::Create),
    }
}

/// The descendants of a uniform tile, and their colour.
pub struct DescendantFill {
    pub color: [u8; 3],
    pub tiles: Vec<TileJob>,
}

/// What an MBTiles run does about the outcome of a tile.
pub enum MbtilesAction {
    /// The bytes are written, and with them, in the same transaction, all descendants of a uniform
    /// tile.
    Write { coord: TileJob, data: Vec<u8>, fill: Option<DescendantFill> },
    /// Nothing is left to do.
    Skip,
    /// The failure is reported.
    Warn { message: String },
}

impl MbtilesAction {
    /// The tiles that it puts into the file.
    pub open spec fn tiles(self) -> Seq<TileJob> {
        match self {
            MbtilesAction::Write { coord, fill, .. } => match fill {
                Some(f) => seq![coord] + f.tiles@,
                None => seq![coord],
            },
            MbtilesAction::Skip => seq![],
            MbtilesAction::Warn { .. } => seq![],
        }
    }
}

/// The tiles that an outcome puts into the file: one with data, and with it all descendants of a
/// uniform one.
pub open spec fn tiles_put(outcome: TileOutcome, bounds: Seq<TileBounds>, max_z: u8) -> Seq<
    TileJob,
> {
    match outcome {
        TileOutcome::Data { coord, uniform_color, .. } => if uniform_color is Some {
            seq![coord] + frontier::descendants(coord, bounds, max_z)
        } else {
            seq![coord]
        },
        TileOutcome::Empty { .. } => seq![],
        TileOutcome::Error { .. } => seq![],
    }
}

/// An MBTiles run in the middle of a zoom.
pub struct MbtilesRun {
    pub max_z: u8,
    pub bounds: Vec<TileBounds>,
    pub z: u8,
    pub frontier: Vec<TileJob>,
    pub taken: usize,
    pub next_frontier: Vec<TileJob>,
    pub next_keys: HashSet<u64>,
    pub total: TileStats,
    pub zoom: TileStats,
    pub progress: SingleProgress,
}

impl MbtilesRun {
    /// The run is within its zooms, has not taken more tiles than there are, knows the keys of the
    /// tiles that it has queued, and its tallies and its progress agree.
    pub open spec fn wf(self) -> bool {
        &&& self.max_z <= 31
        &&& self.taken <= self.frontier@.len()
        &&& self.next_keys@ == pipeline::keys_of(self.next_frontier@)
        &&& generation::balanced(self.total)
        &&& generation::balanced(self.zoom)
        &&& self.progress.wf()
        &&& self.progress.generation_done == crate::progress::capped(
            0,
            generation::accounted(self.total),
            self.progress.generation_total as int,
        )
    }

    /// Whether one more tile can be counted, and its children named.
    pub open spec fn ready_for(self, tile: TileJob) -> bool {
        &&& frontier::children_fit(tile, self.max_z, self.bounds@)
        &&& self.total.has_room()
        &&& self.zoom.has_room()
    }

    /// Whether the run is another after one tile, which had an effect, and otherwise the same. Of
    /// the children those are queued whose key is new.
    pub open spec fn moved(self, after: MbtilesRun, e: Effect) -> bool {
        &&& after.max_z == self.max_z
        &&& after.bounds@ == self.bounds@
        &&& after.z == self.z
        &&& after.frontier@ == self.frontier@
        &&& after.taken == self.taken
        &&& after.next_frontier@ == self.next_frontier@ + pipeline::fresh(
            e.children,
            pipeline::keys_of(self.next_frontier@),
        )
        &&& after.total == generation::counted(self.total, e)
        &&& after.zoom == generation::counted(self.zoom, e)
        &&& after.progress == self.progress.generated(e.advance as int)
    }

    /// A run that starts, or is taken up again, at a zoom.
    pub fn new(
        bounds: Vec<TileBounds>,
        max_z: u8,
        z: u8,
        frontier: Vec<TileJob>,
        candidates: u64,
    ) -> (run: MbtilesRun)
        requires
            max_z <= 31,
        ensures
            run.wf(),
            run.max_z == max_z,
            run.bounds == bounds,
            run.z == z,
            run.frontier == frontier,
            run.taken == 0,
            run.next_frontier@.len() == 0,
            run.total == TileStats::zero(),
            run.zoom == TileStats::zero(),
            run.progress == SingleProgress::fresh(
                candidates,
                crate::progress::MBTILES_GENERATE_WEIGHT,
            ),
    {
        let next_frontier: Vec<TileJob> = Vec::new();
        let next_keys: HashSet<u64> = HashSet::new();
        assert(pipeline::keys_of(next_frontier@) =~= Set::empty());
        MbtilesRun {
            max_z,
            bounds,
            z,
            frontier,
            taken: 0,
            next_frontier,
            next_keys,
            total: TileStats::default(),
            zoom: TileStats::default(),
            progress: SingleProgress::mbtiles(candidates),
        }
    }

    /// Whether the frontier that the file holds for the zoom is wanted: the run has none, and has
    /// not just been taken up with one.
    pub fn wants_saved_frontier(&self, just_resumed: bool) -> (r: bool)
        ensures
            r == (!just_resumed && self.frontier@.len() == 0),
    {
        !just_resumed && self.frontier.len() == 0
    }

    /// Starts a zoom, with the frontier that the file holds for it, if that is wanted, and with
    /// the tiles of the next zoom that are queued already.
    pub fn begin_zoom(&mut self, saved: Option<Vec<TileJob>>, queued: Vec<TileJob>)
        requires
            old(self).wf(),
        ensures
            final(self).wf(),
            final(self).max_z == old(self).max_z,
            final(self).bounds@ == old(self).bounds@,
            final(self).z == old(self).z,
            final(self).frontier@ == (match saved {
                Some(tiles) => tiles@,
                None => old(self).frontier@,
            }),
            final(self).taken == 0,
            final(self).next_frontier@ == queued@,
            final(self).total == old(self).total,
            final(self).zoom == TileStats::zero(),
            final(self).progress == old(self).progress,
    {
        if let Some(tiles) = saved {
            self.taken = 0;
            self.frontier = tiles;
        }
        let mut keys: HashSet<u64> = HashSet::new();
        let mut i: usize = 0;
        assert(pipeline::keys_of(queued@.take(0)) =~= Set::empty());
        while i < queued.len()
            invariant
                i <= queued.len(),
                keys@ == pipeline::keys_of(queued@.take(i as int)),
            decreases queued.len() - i,
        {
            proof {
                assert(queued@.take(i + 1) =~= queued@.take(i as int).push(queued@[i as int]));
                pipeline::lemma_keys_of_push(queued@.take(i as int), queued@[i as int]);
            }
            keys.insert(tile_key(queued[i]));
            i += 1;
        }
        assert(queued@.take(queued@.len() as int) =~= queued@);
        self.next_frontier = queued;
        self.next_keys = keys;
        self.zoom = TileStats::default();
        self.taken = 0;
    }

    /// Whether one more tile can be counted, and its children named.
    pub fn is_ready_for(&self, tile: TileJob) -> (r: bool)
        ensures
            r == self.ready_for(tile),
    {
        let fits: bool = if tile.z < self.max_z {
            match frontier::find_bounds(self.bounds.as_slice(), tile.z + 1) {
                Some(_) => tile.x < 0x8000_0000 && tile.y < 0x8000_0000,
                None => true,
            }
        } else {
            true
        };
        fits && self.total.room() && self.zoom.room()
    }

    /// Takes the next chunk of the frontier.
    pub fn take_chunk(&mut self) -> (chunk: Vec<TileJob>)
        requires
            old(self).wf(),
        ensures
            chunk@ == old(self).frontier@.subrange(
                old(self).taken as int,
                final(self).taken as int,
            ),
            final(self).taken == pipeline::chunk_end(
                old(self).taken as int,
                old(self).frontier@.len() as int,
            ),
            old(self).taken < old(self).frontier@.len() ==> final(self).taken > old(self).taken,
            final(self).wf(),
            final(self).max_z == old(self).max_z,
            final(self).bounds@ == old(self).bounds@,
            final(self).z == old(self).z,
            final(self).frontier@ == old(self).frontier@,
            final(self).next_frontier@ == old(self).next_frontier@,
            final(self).total == old(self).total,
            final(self).zoom == old(self).zoom,
            final(self).progress == old(self).progress,
    {
        let start: usize = self.taken;
        let len: usize = self.frontier.len();
        let end: usize = if len - start >= CHUNK_SIZE {
            start + CHUNK_SIZE
        } else {
            len
        };
        let mut chunk: Vec<TileJob> = Vec::new();
        let mut i: usize = start;
        while i < end
            invariant
                start <= i <= end <= self.frontier@.len(),
                chunk@ == self.frontier@.subrange(start as int, i as int),
            decreases end - i,
        {
            chunk.push(self.frontier[i]);
            i += 1;
            assert(chunk@ =~= self.frontier@.subrange(start as int, i as int));
        }
        self.taken = end;
        chunk
    }

    /// The tiles of the frontier that have not been taken.
    pub fn remaining(&self) -> (tiles: Vec<TileJob>)
        requires
            self.wf(),
        ensures
            tiles@ == self.frontier@.skip(self.taken as int),
    {
        let mut tiles: Vec<TileJob> = Vec::new();
        let mut i: usize = self.taken;
        while i < self.frontier.len()
            invariant
                self.taken <= i <= self.frontier@.len(),
                tiles@ == self.frontier@.subrange(self.taken as int, i as int),
            decreases self.frontier@.len() - i,
        {
            tiles.push(self.frontier[i]);
            i += 1;
            assert(tiles@ =~= self.frontier@.subrange(self.taken as int, i as int));
        }
        assert(tiles@ =~= self.frontier@.skip(self.taken as int));
        tiles
    }

    /// Counts a tile of the frontier that is in the file already, and queues its children.
    pub fn restore(&mut self, tile: TileJob)
        requires
            old(self).wf(),
            old(self).ready_for(tile),
        ensures
            final(self).wf(),
            old(self).moved(
                *final(self),
                generation::restored_effect(tile, false, old(self).bounds@, old(self).max_z),
            ),
    {
        proof {
            pipeline::law_fresh_tiles_once(
                self.next_frontier@,
                frontier::children_in_bounds(tile, self.max_z, self.bounds@),
            );
        }
        append_children_unique_in_bounds(
            tile,
            &mut self.next_frontier,
            &mut self.next_keys,
            self.max_z,
            self.bounds.as_slice(),
        );
        self.total.add_restored();
        self.total.add_written();
        self.total.add_checked();
        self.zoom.add_restored();
        self.zoom.add_written();
        self.zoom.add_checked();
        self.progress.advance_generation(1);
    }

    /// Counts the outcome of a tile of the frontier, and says what is to be done about it.
    pub fn settle(&mut self, outcome: TileOutcome) -> (action: MbtilesAction)
        requires
            old(self).wf(),
            old(self).ready_for(outcome.tile()),
        ensures
            final(self).wf(),
            old(self).moved(
                *final(self),
                generation::outcome_effect(outcome, old(self).bounds@, old(self).max_z),
            ),
            action.tiles() == tiles_put(outcome, old(self).bounds@, old(self).max_z),
            match outcome {
                TileOutcome::Data { coord, data, uniform_color } => {
                    &&& action matches MbtilesAction::Write { coord: c, data: d, fill }
                    &&& c == coord
                    &&& d == data
                    &&& uniform_color is None ==> fill is None
                    &&& uniform_color matches Some(color) ==> {
                        &&& fill matches Some(f)
                        &&& f.color == color
                        &&& f.tiles@ == frontier::descendants(
                            coord,
                            old(self).bounds@,
                            old(self).max_z,
                        )
                    }
                },
                TileOutcome::Empty { .. } => action is Skip,
                TileOutcome::Error { coord, error } => action matches MbtilesAction::Warn {
                    message,
                } && message@ == pipeline::failure_text(coord, error@),
            },
    {
        proof {
            generation::lemma_below_fits(outcome.tile(), self.bounds@, self.max_z);
            pipeline::law_fresh_tiles_once(
                self.next_frontier@,
                frontier::children_in_bounds(outcome.tile(), self.max_z, self.bounds@),
            );
            assert(self.next_frontier@ =~= self.next_frontier@ + pipeline::fresh(
                seq![],
                pipeline::keys_of(self.next_frontier@),
            ));
        }
        self.total.add_checked();
        self.zoom.add_checked();
        match outcome {
            TileOutcome::Data { coord, data, uniform_color } => {
                if let Some(color) = uniform_color {
                    let tiles = bounded_descendants(coord, self.bounds.as_slice(), self.max_z);
                    let filled: u64 = tiles.len() as u64;
                    self.total.add_written_n(1 + filled);
                    self.total.add_filled(filled);
                    self.zoom.add_written_n(1 + filled);
                    self.zoom.add_filled(filled);
                    self.progress.advance_generation(1 + filled);
                    MbtilesAction::Write { coord, data, fill: Some(DescendantFill { color, tiles }) }
                } else {
                    append_children_unique_in_bounds(
                        coord,
                        &mut self.next_frontier,
                        &mut self.next_keys,
                        self.max_z,
                        self.bounds.as_slice(),
                    );
                    self.total.add_written();
                    self.zoom.add_written();
                    self.progress.advance_generation(1);
                    MbtilesAction::Write { coord, data, fill: None }
                }
            },
            TileOutcome::Empty { coord } => {
                let pruned: u64 = bounded_descendant_count(
                    coord,
                    self.bounds.as_slice(),
                    self.max_z,
                );
                self.total.add_empty();
                self.total.add_pruned(pruned);
                self.zoom.add_empty();
                self.zoom.add_pruned(pruned);
                self.progress.advance_generation(1 + pruned);
                MbtilesAction::Skip
            },
            TileOutcome::Error { coord, error } => {
                let message = failure_message(coord, error.as_str());
                self.total.add_error();
                self.zoom.add_error();
                self.progress.advance_generation(1);
                MbtilesAction::Warn { message }
            },
        }
    }
}

/// A change to the file that is done as a whole or not at all.
#[derive(Clone, Copy, Debug, PartialEq, Eq, Structural)]
pub enum MbtilesStep {
    /// The tiles that are queued for a zoom replace its frontier.
    SaveQueued { zoom: u8 },
    /// The tiles that are left of a zoom replace its frontier.
    SaveRemaining { zoom: u8 },
    /// The frontier of a zoom is removed.
    DropFrontier { zoom: u8 },
    /// The zoom that the run is at is recorded.
    SetZoom { zoom: u8 },
}

/// What a resumed run finds: the zoom, if one is recorded, and the frontiers by zoom.
pub struct Checkpoint {
    pub zoom: Option<u8>,
    pub frontiers: Map<u8, Seq<TileJob>>,
}

/// The file after a step, `queued` and `remaining` being what the run holds.
pub open spec fn stepped(
    file: Checkpoint,
    step: MbtilesStep,
    queued: Seq<TileJob>,
    remaining: Seq<TileJob>,
) -> Checkpoint {
    match step {
        MbtilesStep::SaveQueued { zoom } => Checkpoint {
            frontiers: file.frontiers.insert(zoom, queued),
            ..file
        },
        MbtilesStep::SaveRemaining { zoom } => Checkpoint {
            frontiers: file.frontiers.insert(zoom, remaining),
            ..file
        },
        MbtilesStep::DropFrontier { zoom } => Checkpoint {
            frontiers: file.frontiers.insert(zoom, seq![]),
            ..file
        },
        MbtilesStep::SetZoom { zoom } => Checkpoint { zoom: Some(zoom), ..file },
    }
}

/// The file after several steps.
pub open spec fn after_steps(
    file: Checkpoint,
    steps: Seq<MbtilesStep>,
    queued: Seq<TileJob>,
    remaining: Seq<TileJob>,
) -> Checkpoint
    decreases steps.len(),
{
    if steps.len() == 0 {
        file
    } else {
        stepped(
            after_steps(file, steps.drop_last(), queued, remaining),
            steps.last(),
            queued,
            remaining,
        )
    }
}

/// The steps at the start of a run with a new file, what is queued being its first frontier.
pub open spec fn create_steps(min_z: u8) -> Seq<MbtilesStep> {
    seq![MbtilesStep::SaveQueued { zoom: min_z }, MbtilesStep::SetZoom { zoom: min_z }]
}

/// The steps at the start of a run with a new file: the first frontier is saved before the zoom.
pub fn plan_create(min_z: u8) -> (steps: Vec<MbtilesStep>)
    ensures
        steps@ == create_steps(min_z),
{
    let mut steps: Vec<MbtilesStep> = Vec::new();
    steps.push(MbtilesStep::SaveQueued { zoom: min_z });
    steps.push(MbtilesStep::SetZoom { zoom: min_z });
    assert(steps@ =~= create_steps(min_z));
    steps
}

/// The steps before the tiles of a zoom are taken.
pub open spec fn begin_steps(z: u8) -> Seq<MbtilesStep> {
    seq![MbtilesStep::SetZoom { zoom: z }]
}

/// The steps after the tiles of a chunk are in the file.
pub open spec fn chunk_steps(z: u8, max_z: u8) -> Seq<MbtilesStep> {
    if z < max_z {
        seq![
            MbtilesStep::SaveQueued { zoom: (z + 1) as u8 },
            MbtilesStep::SaveRemaining { zoom: z },
            MbtilesStep::SetZoom { zoom: z },
        ]
    } else {
        seq![MbtilesStep::SaveRemaining { zoom: z }, MbtilesStep::SetZoom { zoom: z }]
    }
}

/// The steps at the end of a zoom.
pub open spec fn end_steps(z: u8, max_z: u8) -> Seq<MbtilesStep> {
    if z < max_z {
        seq![
            MbtilesStep::DropFrontier { zoom: z },
            MbtilesStep::SaveQueued { zoom: (z + 1) as u8 },
            MbtilesStep::SetZoom { zoom: (z + 1) as u8 },
        ]
    } else {
        seq![MbtilesStep::DropFrontier { zoom: z }]
    }
}

impl MbtilesRun {
    /// The steps before the tiles of the zoom are taken.
    pub fn plan_zoom(&self) -> (steps: Vec<MbtilesStep>)
        ensures
            steps@ == begin_steps(self.z),
    {
        let mut steps: Vec<MbtilesStep> = Vec::new();
        steps.push(MbtilesStep::SetZoom { zoom: self.z });
        assert(steps@ =~= begin_steps(self.z));
        steps
    }

    /// The steps after the tiles of a chunk are in the file: what the chunk has queued is saved
    /// before the chunk is taken off the frontier.
    pub fn end_chunk(&self) -> (steps: Vec<MbtilesStep>)
        requires
            self.wf(),
        ensures
            steps@ == chunk_steps(self.z, self.max_z),
    {
        let mut steps: Vec<MbtilesStep> = Vec::new();
        if self.z < self.max_z {
            steps.push(MbtilesStep::SaveQueued { zoom: self.z + 1 });
        }
        steps.push(MbtilesStep::SaveRemaining { zoom: self.z });
        steps.push(MbtilesStep::SetZoom { zoom: self.z });
        assert(steps@ =~= chunk_steps(self.z, self.max_z));
        steps
    }

    /// Ends a zoom whose tiles have all been taken: what is queued becomes the frontier, and the
    /// steps that record this are given.
    pub fn finish_zoom(&mut self) -> (steps: Vec<MbtilesStep>)
        requires
            old(self).wf(),
            old(self).z <= old(self).max_z,
            old(self).taken == old(self).frontier@.len(),
        ensures
            final(self).wf(),
            steps@ == end_steps(old(self).z, old(self).max_z),
            final(self).max_z == old(self).max_z,
            final(self).bounds@ == old(self).bounds@,
            final(self).z == (if old(self).z < old(self).max_z {
                (old(self).z + 1) as u8
            } else {
                old(self).z
            }),
            final(self).frontier@ == old(self).next_frontier@,
            final(self).taken == 0,
            final(self).next_frontier@ == Seq::<TileJob>::empty(),
            final(self).total == old(self).total,
            final(self).zoom == TileStats::zero(),
            final(self).progress == old(self).progress,
    {
        let z: u8 = self.z;
        let mut steps: Vec<MbtilesStep> = Vec::new();
        steps.push(MbtilesStep::DropFrontier { zoom: z });
        if z < self.max_z {
            steps.push(MbtilesStep::SaveQueued { zoom: z + 1 });
            steps.push(MbtilesStep::SetZoom { zoom: z + 1 });
            self.z = z + 1;
        }
        assert(steps@ =~= end_steps(z, self.max_z));
        self.zoom = TileStats::default();
        self.taken = 0;
        self.frontier.clear();
        self.frontier.append(&mut self.next_frontier);
        self.next_keys.clear();
        assert(self.frontier@ =~= old(self).next_frontier@);
        assert(pipeline::keys_of(self.next_frontier@) =~= Set::empty());
        steps
    }
}

/// A run that is interrupted anywhere while it starts finds a new file with no zoom, and so begins
/// anew, or finds all of its first frontier.
pub proof fn law_start_is_safe(min_z: u8, first: Seq<TileJob>, k: int)
    requires
        0 <= k <= create_steps(min_z).len(),
    ensures
        ({
            let new = Checkpoint { zoom: None, frontiers: Map::empty() };
            let after = after_steps(new, create_steps(min_z).take(k), first, seq![]);
            &&& k < create_steps(min_z).len() ==> after.zoom is None
            &&& k == create_steps(min_z).len() ==> after.zoom == Some(min_z)
                && after.frontiers.contains_key(min_z) && after.frontiers[min_z] == first
        }),
{
    let steps = create_steps(min_z);
    assert(steps.take(0) =~= seq![]);
    assert(steps.take(1) =~= seq![steps[0]]);
    assert(steps.take(2) =~= steps);
    assert(seq![steps[0]].drop_last() =~= seq![]);
    assert(steps.drop_last() =~= seq![steps[0]]);
    reveal_with_fuel(after_steps, 3);
}

/// To begin a zoom whose frontier is in the file records that zoom and changes nothing else.
pub proof fn law_begin_of_zoom_is_safe(
    file: Checkpoint,
    z: u8,
    queued: Seq<TileJob>,
    remaining: Seq<TileJob>,
    k: int,
)
    requires
        0 <= k <= begin_steps(z).len(),
    ensures
        ({
            let after = after_steps(file, begin_steps(z).take(k), queued, remaining);
            &&& after.frontiers == file.frontiers
            &&& after.zoom == if k == 0 {
                file.zoom
            } else {
                Some(z)
            }
        }),
{
    let steps = begin_steps(z);
    assert(steps.take(0) =~= seq![]);
    assert(steps.take(1) =~= steps);
    assert(steps.drop_last() =~= seq![]);
    reveal_with_fuel(after_steps, 2);
}

/// A run that is interrupted anywhere while a chunk is recorded finds the whole chunk on its
/// frontier again, or everything that the chunk has queued saved with the next zoom.
pub proof fn law_chunk_is_safe(
    file: Checkpoint,
    z: u8,
    max_z: u8,
    unfinished: Seq<TileJob>,
    queued: Seq<TileJob>,
    remaining: Seq<TileJob>,
    k: int,
)
    requires
        z <= max_z,
        file.zoom == Some(z),
        file.frontiers.contains_key(z),
        file.frontiers[z] == unfinished,
        0 <= k <= chunk_steps(z, max_z).len(),
    ensures
        ({
            let after = after_steps(file, chunk_steps(z, max_z).take(k), queued, remaining);
            &&& after.zoom == Some(z)
            &&& after.frontiers.contains_key(z)
            &&& {
                ||| after.frontiers[z] == unfinished
                ||| {
                    &&& after.frontiers[z] == remaining
                    &&& z < max_z ==> after.frontiers.contains_key((z + 1) as u8)
                        && after.frontiers[(z + 1) as u8] == queued
                }
            }
        }),
{
    let steps = chunk_steps(z, max_z);
    assert(steps.take(0) =~= seq![]);
    assert(steps.take(1) =~= seq![steps[0]]);
    assert(steps.take(2) =~= seq![steps[0], steps[1]]);
    assert(seq![steps[0]].drop_last() =~= seq![]);
    assert(seq![steps[0], steps[1]].drop_last() =~= seq![steps[0]]);
    if z < max_z {
        assert(steps.take(3) =~= steps);
        assert(steps.drop_last() =~= seq![steps[0], steps[1]]);
    }
    reveal_with_fuel(after_steps, 4);
}

/// A run that is interrupted anywhere at the end of a zoom, none of whose tiles remains, finds what
/// the zoom has queued saved with the next zoom. At the end of the last zoom it is still at that
/// zoom, and finds its frontier as it was or empty.
pub proof fn law_end_of_zoom_is_safe(
    file: Checkpoint,
    z: u8,
    max_z: u8,
    queued: Seq<TileJob>,
    k: int,
)
    requires
        z <= max_z,
        file.zoom == Some(z),
        z < max_z ==> file.frontiers.contains_key((z + 1) as u8) && file.frontiers[(z + 1) as u8]
            == queued,
        0 <= k <= end_steps(z, max_z).len(),
    ensures
        ({
            let after = after_steps(file, end_steps(z, max_z).take(k), queued, seq![]);
            if z < max_z {
                &&& after.zoom == Some(z) || after.zoom == Some((z + 1) as u8)
                &&& k == end_steps(z, max_z).len() ==> after.zoom == Some((z + 1) as u8)
                &&& after.frontiers.contains_key((z + 1) as u8)
                &&& after.frontiers[(z + 1) as u8] == queued
            } else {
                &&& after.zoom == Some(z)
                &&& k == 0 ==> after.frontiers == file.frontiers
                &&& k == end_steps(z, max_z).len() ==> after.frontiers == file.frontiers.insert(
                    z,
                    seq![],
                )
            }
        }),
{
    let steps = end_steps(z, max_z);
    assert(steps.take(0) =~= seq![]);
    assert(steps.take(1) =~= seq![steps[0]]);
    assert(seq![steps[0]].drop_last() =~= seq![]);
    if z < max_z {
        assert(steps.take(2) =~= seq![steps[0], steps[1]]);
        assert(steps.take(3) =~= steps);
        assert(seq![steps[0], steps[1]].drop_last() =~= seq![steps[0]]);
        assert(steps.drop_last() =~= seq![steps[0], steps[1]]);
    }
    reveal_with_fuel(after_steps, 4);
}

/// The tiles that are queued for the next zoom after some events, those left out whose key is
/// queued already.
pub open spec fn queued_of(
    first: Seq<TileJob>,
    events: Seq<TileEvent>,
    bounds: Seq<TileBounds>,
    max_z: u8,
) -> Seq<TileJob>
    decreases events.len(),
{
    if events.len() == 0 {
        first
    } else {
        let queued = queued_of(first, events.drop_last(), bounds, max_z);
        queued + pipeline::fresh(
            events.last().effect(bounds, max_z).children,
            pipeline::keys_of(queued),
        )
    }
}

/// A zoom queues every child of its tiles, as if none were left out, where keys tell tiles apart. It
/// does so too if it is taken up again with the children of the tiles that were `done` before.
pub proof fn law_queues_every_child(
    done: Seq<TileEvent>,
    events: Seq<TileEvent>,
    bounds: Seq<TileBounds>,
    min_z: u8,
    max_z: u8,
    z: int,
)
    requires
        pyramid::pyramid(bounds, min_z, max_z),
        frontier::keys_fit(bounds),
        generation::frontier_ok(generation::tiles_of(done + events), bounds, z),
    ensures
        queued_of(generation::children_of(done, bounds, max_z), events, bounds, max_z)
            == generation::children_of(done + events, bounds, max_z),
    decreases events.len(),
{
    let first = generation::children_of(done, bounds, max_z);
    if events.len() == 0 {
        assert(done + events =~= done);
    } else {
        let less = events.drop_last();
        let whole = done + events;
        let tiles = generation::tiles_of(whole);
        assert(whole.drop_last() =~= done + less);
        assert(generation::tiles_of(done + less) =~= tiles.drop_last());
        assert forall|i: int| 0 <= i < generation::tiles_of(done + less).len() implies (
        #[trigger] generation::tiles_of(done + less)[i]).z == z && frontier::in_bounds(
            bounds,
            generation::tiles_of(done + less)[i],
        ) by {
            assert(tiles[i] == generation::tiles_of(done + less)[i]);
        }
        law_queues_every_child(done, less, bounds, min_z, max_z, z);
        generation::law_next_frontier_ok(whole, bounds, min_z, max_z, z);
        let queued = queued_of(first, less, bounds, max_z);
        let kids = events.last().effect(bounds, max_z).children;
        let all = generation::children_of(whole, bounds, max_z);
        assert(whole.last() == events.last());
        assert(all =~= queued + kids);
        assert forall|i: int, j: int| 0 <= i < j < all.len() implies frontier::key_of(
            #[trigger] all[i],
        ) != frontier::key_of(#[trigger] all[j]) by {
            lemma_run_tile_key_fits(all[i], bounds, min_z, max_z);
            lemma_run_tile_key_fits(all[j], bounds, min_z, max_z);
            if frontier::key_of(all[i]) == frontier::key_of(all[j]) {
                frontier::law_tile_key_injective(all[i], all[j]);
            }
        }
        pipeline::law_new_tiles_all_queued(queued, kids);
    }
}

/// The tiles of a run fit into keys where its bounds do.
pub proof fn lemma_run_tile_key_fits(
    tile: TileJob,
    bounds: Seq<TileBounds>,
    min_z: u8,
    max_z: u8,
)
    requires
        pyramid::pyramid(bounds, min_z, max_z),
        frontier::keys_fit(bounds),
        frontier::in_bounds(bounds, tile),
    ensures
        frontier::key_fits(tile),
{
    pyramid::lemma_pyramid_at(bounds, min_z, max_z, tile.z);
    assert(bounds[tile.z - min_z].holds(tile));
}

/// Whether a run goes from one state to the next by the event of one tile.
pub open spec fn one_tile(states: Seq<MbtilesRun>, events: Seq<TileEvent>, i: int) -> bool {
    &&& states[i].wf()
    &&& states[i].ready_for(events[i].tile())
    &&& states[i].moved(
        states[i + 1],
        events[i].effect(states[i].bounds@, states[i].max_z),
    )
}

/// Over the events of a zoom, in whatever order, a run queues those of their children that are not
/// queued yet and accounts for what they advance, in its tally and in its progress.
pub proof fn law_zoom_follows_its_events(states: Seq<MbtilesRun>, events: Seq<TileEvent>)
    requires
        states.len() == events.len() + 1,
        forall|i: int| 0 <= i < events.len() ==> #[trigger] one_tile(states, events, i),
        states[0].progress.wf(),
    ensures
        ({
            let before = states[0];
            let after = states.last();
            let advance = generation::advance_of(events, before.bounds@, before.max_z);
            &&& after.bounds@ == before.bounds@
            &&& after.max_z == before.max_z
            &&& after.next_frontier@ == queued_of(
                before.next_frontier@,
                events,
                before.bounds@,
                before.max_z,
            )
            &&& generation::accounted(after.total) == generation::accounted(before.total) + advance
            &&& after.progress == before.progress.generated(advance as int)
        }),
    decreases events.len(),
{
    let before = states[0];
    if events.len() == 0 {
        assert(before.progress.generated(0) == before.progress);
    } else {
        let n = events.len() - 1;
        let less = events.drop_last();
        let fewer = states.drop_last();
        assert forall|i: int| 0 <= i < less.len() implies #[trigger] one_tile(
            fewer,
            less,
            i,
        ) by {
            assert(one_tile(states, events, i));
            assert(fewer[i] == states[i] && fewer[i + 1] == states[i + 1] && less[i] == events[i]);
        }
        law_zoom_follows_its_events(fewer, less);
        assert(one_tile(states, events, n));
        let last = events.last();
        let e = last.effect(before.bounds@, before.max_z);
        let advance = generation::advance_of(less, before.bounds@, before.max_z);
        generation::law_tally_stays_balanced(
            states[n].total,
            last,
            before.bounds@,
            before.max_z,
        );
        crate::progress::law_advances_add_up(before.progress, advance as int, e.advance as int);
    }
}

/// A file that records the middle of a zoom is gone on with at that very zoom. If it records none,
/// or what is no zoom, the run fails. Any other file is made anew.
pub proof fn law_goes_on_where_it_stopped(
    exists: bool,
    status: Option<String>,
    zoom: Result<Option<u8>, ZoomError>,
    start: Result<MbtilesStart, ZoomError>,
)
    requires
        call_ensures(plan_start, (exists, status, zoom), start),
    ensures
        (exists && status is Some && status->0@ == "processing_zoom"@) ==> match zoom {
            Ok(Some(z)) => start == Ok::<MbtilesStart, ZoomError>(MbtilesStart::Resume { zoom: z }),
            Ok(None) => start == Err::<MbtilesStart, ZoomError>(ZoomError::Missing),
            Err(e) => start == Err::<MbtilesStart, ZoomError>(e),
        },
        !(exists && status is Some && status->0@ == "processing_zoom"@) ==> start == Ok::<
            MbtilesStart,
            ZoomError,
        >(MbtilesStart::Create),
{
}

/// A run that stops after a chunk is recorded is taken up at the zoom whose remaining tiles were
/// saved, and finds exactly those, with everything queued for the next zoom.
pub proof fn law_resumes_with_what_remains(
    run: MbtilesRun,
    steps: Vec<MbtilesStep>,
    file: Checkpoint,
    queued: Seq<TileJob>,
    remaining: Seq<TileJob>,
    status: Option<String>,
    start: Result<MbtilesStart, ZoomError>,
)
    requires
        run.z <= run.max_z,
        call_ensures(MbtilesRun::end_chunk, (&run,), steps),
        status is Some && status->0@ == "processing_zoom"@,
        call_ensures(
            plan_start,
            (
                true,
                status,
                Ok::<Option<u8>, ZoomError>(
                    after_steps(file, steps@, queued, remaining).zoom,
                ),
            ),
            start,
        ),
    ensures
        start == Ok::<MbtilesStart, ZoomError>(MbtilesStart::Resume { zoom: run.z }),
        after_steps(file, steps@, queued, remaining).frontiers.contains_key(run.z),
        after_steps(file, steps@, queued, remaining).frontiers[run.z] == remaining,
        run.z < run.max_z ==> after_steps(file, steps@, queued, remaining).frontiers.contains_key(
            (run.z + 1) as u8,
        ) && after_steps(file, steps@, queued, remaining).frontiers[(run.z + 1) as u8] == queued,
{
    let all = steps@;
    assert(all.drop_last() =~= all.take(all.len() - 1));
    reveal_with_fuel(after_steps, 4);
    if run.z < run.max_z {
        assert(all.drop_last() =~= seq![all[0], all[1]]);
        assert(all.drop_last().drop_last() =~= seq![all[0]]);
        assert(all.drop_last().drop_last().drop_last() =~= seq![]);
    } else {
        assert(all.drop_last() =~= seq![all[0]]);
        assert(all.drop_last().drop_last() =~= seq![]);
    }
}

/// A run that has finished a zoom stands at the next with what was queued, and so does its file; the
/// frontier of the finished zoom is gone. The last zoom is not left.
pub proof fn law_zoom_is_left_for_the_next(
    run: &mut MbtilesRun,
    steps: Vec<MbtilesStep>,
    file: Checkpoint,
)
    requires
        old(run).z <= old(run).max_z,
        call_ensures(MbtilesRun::finish_zoom, (run,), steps),
    ensures
        final(run).frontier@ == old(run).next_frontier@,
        final(run).taken == 0,
        final(run).next_frontier@.len() == 0,
        final(run).bounds@ == old(run).bounds@,
        final(run).total == old(run).total,
        final(run).progress == old(run).progress,
        ({
            let after = after_steps(file, steps@, final(run).frontier@, seq![]);
            &&& after.frontiers.contains_key(old(run).z)
            &&& after.frontiers[old(run).z].len() == 0
            &&& old(run).z < old(run).max_z ==> {
                &&& final(run).z == old(run).z + 1
                &&& after.zoom == Some(final(run).z)
                &&& after.frontiers.contains_key(final(run).z)
                &&& after.frontiers[final(run).z] == old(run).next_frontier@
            }
            &&& old(run).z == old(run).max_z ==> final(run).z == old(run).z && after.zoom
                == file.zoom
        }),
{
    let all = steps@;
    reveal_with_fuel(after_steps, 4);
    if old(run).z < old(run).max_z {
        assert(all.drop_last() =~= seq![all[0], all[1]]);
        assert(all.drop_last().drop_last() =~= seq![all[0]]);
        assert(all.drop_last().drop_last().drop_last() =~= seq![]);
    } else {
        assert(all.drop_last() =~= seq![]);
    }
}

/// A run that starts records its first frontier, then its first zoom; one that begins a zoom
/// records that zoom.
pub proof fn law_start_records_frontier_and_zoom(
    min_z: u8,
    steps: Vec<MbtilesStep>,
    run: MbtilesRun,
    begin: Vec<MbtilesStep>,
)
    requires
        call_ensures(plan_create, (min_z,), steps),
        call_ensures(MbtilesRun::plan_zoom, (&run,), begin),
    ensures
        steps@.len() == 2,
        steps@[0] == (MbtilesStep::SaveQueued { zoom: min_z }),
        steps@[1] == (MbtilesStep::SetZoom { zoom: min_z }),
        begin@.len() == 1,
        begin@[0] == (MbtilesStep::SetZoom { zoom: run.z }),
{
}

/// A chunk is the next 4096 tiles of the frontier, or what is left of it.
pub proof fn law_chunk_is_what_comes_next(run: &mut MbtilesRun, chunk: Vec<TileJob>, i: int)
    requires
        old(run).wf(),
        call_ensures(MbtilesRun::take_chunk, (run,), chunk),
    ensures
        old(run).frontier@.len() - old(run).taken >= 4096 ==> chunk@.len() == 4096,
        old(run).frontier@.len() - old(run).taken < 4096 ==> chunk@.len() == old(run).frontier@.len() - old(run).taken,
        0 <= i < chunk@.len() ==> chunk@[i] == old(run).frontier@[old(run).taken + i],
        final(run).taken == old(run).taken + chunk@.len(),
        final(run).frontier@ == old(run).frontier@,
        final(run).next_frontier@ == old(run).next_frontier@,
        final(run).total == old(run).total,
{
}

/// What remains of a frontier is what has not been taken.
pub proof fn law_remaining_is_not_taken(run: MbtilesRun, tiles: Vec<TileJob>, i: int)
    requires
        run.wf(),
        call_ensures(MbtilesRun::remaining, (&run,), tiles),
    ensures
        tiles@.len() == run.frontier@.len() - run.taken,
        0 <= i < tiles@.len() ==> tiles@[i] == run.frontier@[run.taken + i],
{
}

/// A tile with data is written as it is and queues its children. A uniform one is written with all
/// its descendants in its colour and queues nothing. An empty one rules out its descendants. A
/// failed one is reported. Each is counted once, in the run and in the zoom.
pub proof fn law_outcome_is_dealt_with(
    run: &mut MbtilesRun,
    outcome: TileOutcome,
    action: MbtilesAction,
    below: nat,
)
    requires
        old(run).wf(),
        old(run).ready_for(outcome.tile()),
        call_ensures(MbtilesRun::settle, (run, outcome), action),
        below == frontier::descendants(outcome.tile(), old(run).bounds@, old(run).max_z).len(),
    ensures
        final(run).z == old(run).z,
        final(run).max_z == old(run).max_z,
        final(run).bounds@ == old(run).bounds@,
        final(run).frontier@ == old(run).frontier@,
        final(run).taken == old(run).taken,
        final(run).total.checked == old(run).total.checked + 1,
        final(run).zoom.checked == old(run).zoom.checked + 1,
        final(run).total.restored == old(run).total.restored,
        outcome matches TileOutcome::Data { coord, data, uniform_color } ==> {
            &&& action matches MbtilesAction::Write { coord: c, data: d, fill } && c == coord && d
                == data && (fill is Some <==> uniform_color is Some) && (fill matches Some(f)
                ==> f.color == uniform_color->0 && f.tiles@ == frontier::descendants(
                coord,
                old(run).bounds@,
                old(run).max_z,
            ))
            &&& final(run).total.empty == old(run).total.empty
            &&& final(run).total.errors == old(run).total.errors
            &&& final(run).total.pruned == old(run).total.pruned
            &&& uniform_color is Some ==> {
                &&& final(run).total.written == old(run).total.written + 1 + below
                &&& final(run).total.filled == old(run).total.filled + below
                &&& final(run).zoom.written == old(run).zoom.written + 1 + below
                &&& final(run).zoom.filled == old(run).zoom.filled + below
                &&& final(run).next_frontier@ == old(run).next_frontier@
            }
            &&& uniform_color is None ==> {
                &&& final(run).total.written == old(run).total.written + 1
                &&& final(run).total.filled == old(run).total.filled
                &&& final(run).zoom.written == old(run).zoom.written + 1
                &&& final(run).zoom.filled == old(run).zoom.filled
                &&& final(run).next_frontier@ == old(run).next_frontier@ + pipeline::fresh(
                    frontier::children_in_bounds(coord, old(run).max_z, old(run).bounds@),
                    pipeline::keys_of(old(run).next_frontier@),
                )
            }
        },
        outcome is Empty ==> {
            &&& action is Skip
            &&& final(run).total.empty == old(run).total.empty + 1
            &&& final(run).total.pruned == old(run).total.pruned + below
            &&& final(run).zoom.empty == old(run).zoom.empty + 1
            &&& final(run).zoom.pruned == old(run).zoom.pruned + below
            &&& final(run).total.written == old(run).total.written
            &&& final(run).total.filled == old(run).total.filled
            &&& final(run).total.errors == old(run).total.errors
            &&& final(run).next_frontier@ == old(run).next_frontier@
        },
        outcome is Error ==> {
            &&& action is Warn
            &&& final(run).total.errors == old(run).total.errors + 1
            &&& final(run).zoom.errors == old(run).zoom.errors + 1
            &&& final(run).total.empty == old(run).total.empty
            &&& final(run).total.pruned == old(run).total.pruned
            &&& final(run).total.written == old(run).total.written
            &&& final(run).total.filled == old(run).total.filled
            &&& final(run).next_frontier@ == old(run).next_frontier@
        },
{
    generation::lemma_below_fits(outcome.tile(), old(run).bounds@, old(run).max_z);
    let queue = old(run).next_frontier@;
    assert(pipeline::fresh(seq![], pipeline::keys_of(queue)) =~= seq![]);
    assert(queue + Seq::<TileJob>::empty() =~= queue);
}

/// A tile that is in the file already counts as written and restored, and queues its children.
pub proof fn law_restored_tile_goes_on(run: &mut MbtilesRun, tile: TileJob)
    requires
        old(run).wf(),
        old(run).ready_for(tile),
        call_ensures(MbtilesRun::restore, (run, tile), ()),
    ensures
        final(run).total.checked == old(run).total.checked + 1,
        final(run).total.written == old(run).total.written + 1,
        final(run).total.restored == old(run).total.restored + 1,
        final(run).total.filled == old(run).total.filled,
        final(run).total.pruned == old(run).total.pruned,
        final(run).total.empty == old(run).total.empty,
        final(run).total.errors == old(run).total.errors,
        final(run).zoom.checked == old(run).zoom.checked + 1,
        final(run).zoom.written == old(run).zoom.written + 1,
        final(run).next_frontier@ == old(run).next_frontier@ + pipeline::fresh(
            frontier::children_in_bounds(tile, old(run).max_z, old(run).bounds@),
            pipeline::keys_of(old(run).next_frontier@),
        ),
        final(run).frontier@ == old(run).frontier@,
        final(run).taken == old(run).taken,
        final(run).z == old(run).z,
{
}

/// A run starts at its zoom with its frontier, none of it taken, and with nothing counted.
pub proof fn law_run_starts_with_its_frontier(
    bounds: Vec<TileBounds>,
    max_z: u8,
    z: u8,
    frontier: Vec<TileJob>,
    candidates: u64,
    run: MbtilesRun,
)
    requires
        call_ensures(MbtilesRun::new, (bounds, max_z, z, frontier, candidates), run),
    ensures
        run.z == z && run.max_z == max_z,
        run.bounds@ == bounds@,
        run.frontier@ == frontier@,
        run.taken == 0 && run.next_frontier@.len() == 0,
        run.total.checked == 0 && run.total.written == 0 && run.total.empty == 0,
        run.total.errors == 0 && run.total.pruned == 0 && run.total.filled == 0,
        run.progress.generation_done == 0,
        candidates >= 1 ==> run.progress.generation_total == candidates,
{
}

/// A zoom is begun with the frontier that was saved, if it is wanted, and with what is queued
/// already; its own tally starts anew. It is wanted where the run has none and was not just taken
/// up.
pub proof fn law_zoom_begins_with_what_is_saved(
    run: &mut MbtilesRun,
    saved: Option<Vec<TileJob>>,
    queued: Vec<TileJob>,
    just_resumed: bool,
    wants: bool,
)
    requires
        call_ensures(MbtilesRun::begin_zoom, (run, saved, queued), ()),
        call_ensures(MbtilesRun::wants_saved_frontier, (&*old(run), just_resumed), wants),
    ensures
        wants <==> old(run).frontier@.len() == 0 && !just_resumed,
        saved matches Some(tiles) ==> final(run).frontier@ == tiles@,
        saved is None ==> final(run).frontier@ == old(run).frontier@,
        final(run).next_frontier@ == queued@,
        final(run).taken == 0,
        final(run).z == old(run).z,
        final(run).total == old(run).total,
        final(run).zoom.checked == 0 && final(run).zoom.written == 0 && final(run).zoom.filled == 0,
{
}

/// The progress of a run moves by the tile and, where it is empty or uniform, by all its
/// descendants; never past its total. What failed is reported with its reason.
pub proof fn law_outcome_moves_the_progress(
    run: &mut MbtilesRun,
    outcome: TileOutcome,
    action: MbtilesAction,
    below: nat,
)
    requires
        old(run).wf(),
        old(run).ready_for(outcome.tile()),
        call_ensures(MbtilesRun::settle, (run, outcome), action),
        below == frontier::descendants(outcome.tile(), old(run).bounds@, old(run).max_z).len(),
    ensures
        ({
            let skips = outcome is Empty || (outcome matches TileOutcome::Data {
                uniform_color,
                ..
            } && uniform_color is Some);
            let done = old(run).progress.generation_done + 1 + if skips {
                below as int
            } else {
                0
            };
            let total = old(run).progress.generation_total as int;
            &&& done <= total ==> final(run).progress.generation_done == done
            &&& done > total ==> final(run).progress.generation_done == total
            &&& final(run).progress.generation_total == total
            &&& final(run).progress.build_done == old(run).progress.build_done
        }),
        outcome matches TileOutcome::Error { coord, error } ==> (
        action matches MbtilesAction::Warn { message } && message@ == pipeline::failure_text(
            coord,
            error@,
        )),
{
    generation::lemma_below_fits(outcome.tile(), old(run).bounds@, old(run).max_z);
}

/// One more tile can be dealt with unless a counter is nearly full or the numbers of its children
/// are too large.
pub proof fn law_ready_unless_full(run: MbtilesRun, tile: TileJob, r: bool)
    requires
        call_ensures(MbtilesRun::is_ready_for, (&run, tile), r),
        run.total.checked < 0x4000_0000_0000_0000 && run.zoom.checked < 0x4000_0000_0000_0000,
        run.total.written < 0x4000_0000_0000_0000 && run.zoom.written < 0x4000_0000_0000_0000,
        run.total.empty < 0x4000_0000_0000_0000 && run.zoom.empty < 0x4000_0000_0000_0000,
        run.total.errors < 0x4000_0000_0000_0000 && run.zoom.errors < 0x4000_0000_0000_0000,
        run.total.restored < 0x4000_0000_0000_0000 && run.zoom.restored < 0x4000_0000_0000_0000,
        run.total.pruned < 0x4000_0000_0000_0000 && run.zoom.pruned < 0x4000_0000_0000_0000,
        run.total.filled < 0x4000_0000_0000_0000 && run.zoom.filled < 0x4000_0000_0000_0000,
    ensures
        tile.x < 0x8000_0000 && tile.y < 0x8000_0000 ==> r,
        tile.z >= run.max_z ==> r,
{
}

/// The tally of a zoom moves as that of the run does, counter by counter.
pub proof fn law_zoom_is_counted_like_the_run(
    run: &mut MbtilesRun,
    outcome: TileOutcome,
    action: MbtilesAction,
)
    requires
        old(run).wf(),
        old(run).ready_for(outcome.tile()),
        call_ensures(MbtilesRun::settle, (run, outcome), action),
    ensures
        final(run).zoom.checked - old(run).zoom.checked == final(run).total.checked - old(run).total.checked,
        final(run).zoom.written - old(run).zoom.written == final(run).total.written - old(run).total.written,
        final(run).zoom.empty - old(run).zoom.empty == final(run).total.empty - old(run).total.empty,
        final(run).zoom.errors - old(run).zoom.errors == final(run).total.errors - old(run).total.errors,
        final(run).zoom.restored - old(run).zoom.restored == final(run).total.restored - old(run).total.restored,
        final(run).zoom.pruned - old(run).zoom.pruned == final(run).total.pruned - old(run).total.pruned,
        final(run).zoom.filled - old(run).zoom.filled == final(run).total.filled - old(run).total.filled,
{
    generation::lemma_below_fits(outcome.tile(), old(run).bounds@, old(run).max_z);
}

/// A tile that an earlier run had left moves the zoom as it moves the run, and the progress by what
/// it stands for; never past its total.
pub proof fn law_restored_tile_is_counted(run: &mut MbtilesRun, tile: TileJob)
    requires
        old(run).wf(),
        old(run).ready_for(tile),
        call_ensures(MbtilesRun::restore, (run, tile), ()),
    ensures
        final(run).zoom.checked == old(run).zoom.checked + 1,
        final(run).zoom.restored == old(run).zoom.restored + 1,
        final(run).zoom.written - old(run).zoom.written == final(run).total.written - old(run).total.written,
        final(run).zoom.filled - old(run).zoom.filled == final(run).total.filled - old(run).total.filled,
        final(run).zoom.empty == old(run).zoom.empty,
        final(run).zoom.errors == old(run).zoom.errors,
        final(run).zoom.pruned == old(run).zoom.pruned,
        ({
            let done = old(run).progress.generation_done + 1;
            let total = old(run).progress.generation_total as int;
            &&& done <= total ==> final(run).progress.generation_done == done
            &&& done > total ==> final(run).progress.generation_done == total
            &&& final(run).progress.generation_total == total
        }),
{
    generation::lemma_below_fits(tile, old(run).bounds@, old(run).max_z);
}

} // verus!
