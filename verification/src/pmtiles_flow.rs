//! A PMTiles run: how it starts or is taken up again, how it goes through its zooms, and what it
//! leaves on disk at every moment.

use std::collections::HashSet;

use vstd::prelude::*;
use vstd::string::*;

use crate::frontier;
use crate::frontier::{
    append_children_in_bounds, bounded_descendant_count, tile_key, TileBounds, TileJob,
};
use crate::generation;
use crate::generation::{Effect, TileEvent};
use crate::pipeline;
use crate::pipeline::{
    failure_message, split_chunk, tile_label_text, TileOutcome, TileStats, CHUNK_SIZE,
};
use crate::progress::SingleProgress;
use crate::pyramid;
use crate::spool::{ResumeState, UniformFill};

verus! {

broadcast use vstd::std_specs::hash::group_hash_axioms;

/// The stages of a run.
#[derive(Clone, Copy, Debug, PartialEq, Eq, Structural)]
pub enum RunStatus {
    ProcessingZoom,
    AllTilesDone,
    WritingPmtiles,
    Done,
}

impl RunStatus {
    /// The word for a stage in the state file.
    pub open spec fn word(self) -> Seq<char> {
        match self {
            RunStatus::ProcessingZoom => "processing_zoom"@,
            RunStatus::AllTilesDone => "all_tiles_done"@,
            RunStatus::WritingPmtiles => "writing_pmtiles"@,
            RunStatus::Done => "done"@,
        }
    }

    /// The word for a stage in the state file.
    pub fn name(&self) -> (word: &'static str)
        ensures
            word@ == self.word(),
    {
        match self {
            RunStatus::ProcessingZoom => "processing_zoom",
            RunStatus::AllTilesDone => "all_tiles_done",
            RunStatus::WritingPmtiles => "writing_pmtiles",
            RunStatus::Done => "done",
        }
    }

    /// The stage for a word of the state file.
    pub fn from_name(word: &String) -> (status: Option<RunStatus>)
        ensures
            status matches Some(s) ==> s.word() == word@,
            status is None ==> !is_word(word@),
    {
        if word.eq(&"processing_zoom".to_owned()) {
            Some(RunStatus::ProcessingZoom)
        } else if word.eq(&"all_tiles_done".to_owned()) {
            Some(RunStatus::AllTilesDone)
        } else if word.eq(&"writing_pmtiles".to_owned()) {
            Some(RunStatus::WritingPmtiles)
        } else if word.eq(&"done".to_owned()) {
            Some(RunStatus::Done)
        } else {
            None
        }
    }
}

/// Whether a word is that of a stage.
pub open spec fn is_word(word: Seq<char>) -> bool {
    exists|s: RunStatus| #[trigger] s.word() == word
}

/// No two stages share a word.
pub proof fn law_status_words_differ(a: RunStatus, b: RunStatus)
    requires
        a.word() == b.word(),
    ensures
        a == b,
{
    reveal_strlit("processing_zoom");
    reveal_strlit("all_tiles_done");
    reveal_strlit("writing_pmtiles");
    reveal_strlit("done");
    assert("processing_zoom"@[0] == 'p');
    assert("all_tiles_done"@[0] == 'a');
    assert("writing_pmtiles"@[0] == 'w');
    assert("done"@[0] == 'd');
}

/// Whether a state is one of a run with these zooms and this output.
pub open spec fn state_matches(
    state: ResumeState,
    min_z: u8,
    max_z: u8,
    output: Seq<char>,
) -> bool {
    &&& state.version == 1
    &&& state.format@ == "pmtiles"@
    &&& state.min_zoom == min_z
    &&& state.max_zoom == max_z
    &&& state.output@ == output
}

/// The state of a run.
pub fn state_for(
    min_z: u8,
    max_z: u8,
    output: &str,
    status: RunStatus,
    current_zoom: u8,
) -> (state: ResumeState)
    ensures
        state_matches(state, min_z, max_z, output@),
        state.status@ == status.word(),
        state.current_zoom == current_zoom,
{
    ResumeState {
        version: 1,
        format: "pmtiles".to_owned(),
        status: status.name().to_owned(),
        min_zoom: min_z,
        max_zoom: max_z,
        current_zoom,
        output: output.to_owned(),
    }
}

/// Why a run cannot be taken up again.
pub enum ResumeError {
    /// The state is that of another run.
    Mismatch,
    /// The state names a stage that there is not.
    UnknownStatus { status: String },
}

/// Whether a state is one of the run that is asked for.
pub fn validate_state(min_z: u8, max_z: u8, output: &str, state: &ResumeState) -> (r: Result<
    (),
    ResumeError,
>)
    ensures
        r is Ok <==> state_matches(*state, min_z, max_z, output@),
        r matches Err(e) ==> e is Mismatch,
{
    if state.version != 1 || !state.format.eq(&"pmtiles".to_owned()) || state.min_zoom != min_z
        || state.max_zoom != max_z || !state.output.eq(&output.to_owned()) {
        return Err(ResumeError::Mismatch);
    }
    Ok(())
}

/// How a run starts.
#[derive(Clone, Copy, Debug, PartialEq, Eq, Structural)]
pub enum Resume {
    /// From nothing.
    Fresh,
    /// In the middle of a zoom.
    AtZoom { zoom: u8 },
    /// With the archive; `drop_partial` if the writing of it had begun.
    Build { drop_partial: bool },
    /// Not at all: everything is done.
    Finished,
}

/// How a run that is at a stage is taken up again.
pub open spec fn resume_of(status: RunStatus, zoom: u8) -> Resume {
    match status {
        RunStatus::ProcessingZoom => Resume::AtZoom { zoom },
        RunStatus::AllTilesDone => Resume::Build { drop_partial: false },
        RunStatus::WritingPmtiles => Resume::Build { drop_partial: true },
        RunStatus::Done => Resume::Finished,
    }
}

/// Whether a run is taken up so that is at the stage of a word.
pub open spec fn resumes_as(how: Resume, word: Seq<char>, zoom: u8) -> bool {
    forall|s: RunStatus| #[trigger] s.word() == word ==> how == resume_of(s, zoom)
}

/// How a run starts, given the state that was found, if any.
pub fn plan_resume(
    min_z: u8,
    max_z: u8,
    output: &str,
    state: Option<&ResumeState>,
) -> (resume: Result<Resume, ResumeError>)
    ensures
        state is None ==> resume == Ok::<Resume, ResumeError>(Resume::Fresh),
        state matches Some(found) ==> match resume {
            Ok(how) => {
                &&& state_matches(*found, min_z, max_z, output@)
                &&& is_word(found.status@)
                &&& resumes_as(how, found.status@, found.current_zoom)
            },
            Err(ResumeError::Mismatch) => !state_matches(*found, min_z, max_z, output@),
            Err(ResumeError::UnknownStatus { status }) => {
                &&& state_matches(*found, min_z, max_z, output@)
                &&& status@ == found.status@
                &&& !is_word(found.status@)
            },
        },
{
    let found = match state {
        Some(found) => found,
        None => {
            return Ok(Resume::Fresh);
        },
    };
    if let Err(e) = validate_state(min_z, max_z, output, found) {
        return Err(e);
    }
    match RunStatus::from_name(&found.status) {
        Some(status) => {
            proof {
                assert forall|s: RunStatus| #[trigger] s.word() == found.status@ implies s
                    == status by {
                    law_status_words_differ(s, status);
                }
            }
            Ok(
                match status {
                    RunStatus::ProcessingZoom => Resume::AtZoom { zoom: found.current_zoom },
                    RunStatus::AllTilesDone => Resume::Build { drop_partial: false },
                    RunStatus::WritingPmtiles => Resume::Build { drop_partial: true },
                    RunStatus::Done => Resume::Finished,
                },
            )
        },
        None => Err(ResumeError::UnknownStatus { status: found.status.clone() }),
    }
}

/// Why an archive cannot be built from what is staged.
pub enum BuildError {
    /// There is no staging directory.
    NothingStaged,
    /// It is that of another run.
    Mismatch,
}

/// Whether an archive can be built from what is staged, given whether the staging directory exists
/// and the state that it holds, if any.
pub fn plan_build_from_temp(
    min_z: u8,
    max_z: u8,
    output: &str,
    staged: bool,
    state: Option<&ResumeState>,
) -> (r: Result<(), BuildError>)
    ensures
        match r {
            Ok(_) => staged && (state matches Some(found) ==> state_matches(
                *found,
                min_z,
                max_z,
                output@,
            )),
            Err(BuildError::NothingStaged) => !staged,
            Err(BuildError::Mismatch) => staged && (state matches Some(found) && !state_matches(
                *found,
                min_z,
                max_z,
                output@,
            )),
        },
{
    if !staged {
        return Err(BuildError::NothingStaged);
    }
    if let Some(found) = state {
        if validate_state(min_z, max_z, output, found).is_err() {
            return Err(BuildError::Mismatch);
        }
    }
    Ok(())
}

/// What a PMTiles run does about the outcome of a tile.
pub enum TileAction {
    /// The bytes are staged, and the fill rule, if there is one, is recorded after them.
    Stage { coord: TileJob, data: Vec<u8>, fill: Option<UniformFill> },
    /// Nothing is left to do.
    Skip,
    /// The failure is reported.
    Warn { message: String },
}

/// A PMTiles run in the middle of a zoom.
pub struct PmtilesRun {
    pub max_z: u8,
    pub bounds: Vec<TileBounds>,
    pub z: u8,
    pub frontier: Vec<TileJob>,
    pub taken: usize,
    pub existing: HashSet<u64>,
    pub fill_roots: HashSet<u64>,
    pub next_frontier: Vec<TileJob>,
    pub total: TileStats,
    pub zoom: TileStats,
    pub progress: SingleProgress,
}

/// The fill rule of a tile: it has one if it is uniform and has descendants.
pub open spec fn fill_rule(
    tile: TileJob,
    uniform_color: Option<[u8; 3]>,
    bounds: Seq<TileBounds>,
    max_z: u8,
) -> Option<UniformFill> {
    if uniform_color is Some && frontier::descendant_count(tile, bounds, max_z) > 0 {
        Some(UniformFill { root: tile, color: uniform_color->0 })
    } else {
        None
    }
}

impl PmtilesRun {
    /// The run is within its zooms, has not taken more tiles than there are, and its tallies and
    /// its progress agree.
    pub open spec fn wf(self) -> bool {
        &&& self.max_z <= 31
        &&& self.taken <= self.frontier@.len()
        &&& generation::balanced(self.total)
        &&& generation::balanced(self.zoom)
        &&& self.progress.wf()
        &&& self.progress.generation_done == crate::progress::capped(
            0,
            generation::accounted(self.total),
            self.progress.generation_total as int,
        )
    }

    /// Whether one more tile can be counted, and its children named.
    pub open spec fn ready_for(self, tile: TileJob) -> bool {
        &&& frontier::children_fit(tile, self.max_z, self.bounds@)
        &&& self.total.has_room()
        &&& self.zoom.has_room()
    }

    /// Whether the run is another after one tile, which had an effect, and otherwise the same.
    pub open spec fn moved(self, after: PmtilesRun, e: Effect) -> bool {
        &&& after.max_z == self.max_z
        &&& after.bounds@ == self.bounds@
        &&& after.z == self.z
        &&& after.frontier@ == self.frontier@
        &&& after.taken == self.taken
        &&& after.existing@ == self.existing@
        &&& after.next_frontier@ == self.next_frontier@ + e.children
        &&& after.total == generation::counted(self.total, e)
        &&& after.zoom == generation::counted(self.zoom, e)
        &&& after.progress == self.progress.generated(e.advance as int)
    }

    /// A run that starts, or is taken up again, at a zoom. `existing` holds the keys of the tiles
    /// of that zoom that are staged already, `fill_roots` those of the uniform tiles whose rule is
    /// recorded, and `candidates` is the number of tiles that the progress counts up to.
    pub fn new(
        bounds: Vec<TileBounds>,
        max_z: u8,
        z: u8,
        frontier: Vec<TileJob>,
        existing: HashSet<u64>,
        fill_roots: HashSet<u64>,
        candidates: u64,
    ) -> (run: PmtilesRun)
        requires
            max_z <= 31,
        ensures
            run.wf(),
            run.max_z == max_z,
            run.bounds == bounds,
            run.z == z,
            run.frontier == frontier,
            run.taken == 0,
            run.existing == existing,
            run.fill_roots == fill_roots,
            run.next_frontier@.len() == 0,
            run.total == TileStats::zero(),
            run.zoom == TileStats::zero(),
            run.progress == SingleProgress::fresh(
                candidates,
                crate::progress::PMTILES_GENERATE_WEIGHT,
            ),
    {
        PmtilesRun {
            max_z,
            bounds,
            z,
            frontier,
            taken: 0,
            existing,
            fill_roots,
            next_frontier: Vec::new(),
            total: TileStats::default(),
            zoom: TileStats::default(),
            progress: SingleProgress::pmtiles(candidates),
        }
    }

    /// Whether one more tile can be counted, and its children named.
    pub fn is_ready_for(&self, tile: TileJob) -> (r: bool)
        ensures
            r == self.ready_for(tile),
    {
        let fits: bool = if tile.z < self.max_z {
            match frontier::find_bounds(self.bounds.as_slice(), tile.z + 1) {
                Some(_) => tile.x < 0x8000_0000 && tile.y < 0x8000_0000,
                None => true,
            }
        } else {
            true
        };
        fits && self.total.room() && self.zoom.room()
    }

    /// Takes the next chunk of the frontier apart into the tiles that are staged already and those
    /// that are still to be made.
    pub fn take_chunk(&mut self) -> (parts: (Vec<TileJob>, Vec<TileJob>))
        requires
            old(self).wf(),
        ensures
            ({
                let start = old(self).taken as int;
                let end = pipeline::chunk_end(start, old(self).frontier@.len() as int);
                let chunk = old(self).frontier@.subrange(start, end);
                &&& parts.0@ == chunk.filter(pipeline::among(old(self).existing@, true))
                &&& parts.1@ == chunk.filter(pipeline::among(old(self).existing@, false))
                &&& final(self).taken == end
            }),
            old(self).taken < old(self).frontier@.len() ==> final(self).taken > old(self).taken,
            final(self).wf(),
            final(self).max_z == old(self).max_z,
            final(self).bounds@ == old(self).bounds@,
            final(self).z == old(self).z,
            final(self).frontier@ == old(self).frontier@,
            final(self).existing@ == old(self).existing@,
            final(self).fill_roots@ == old(self).fill_roots@,
            final(self).next_frontier@ == old(self).next_frontier@,
            final(self).total == old(self).total,
            final(self).zoom == old(self).zoom,
            final(self).progress == old(self).progress,
    {
        let start: usize = self.taken;
        let len: usize = self.frontier.len();
        let end: usize = if len - start >= CHUNK_SIZE {
            start + CHUNK_SIZE
        } else {
            len
        };
        let chunk = vstd::slice::slice_subrange(self.frontier.as_slice(), start, end);
        let parts = split_chunk(chunk, &self.existing);
        self.taken = end;
        parts
    }

    /// Counts a tile of the frontier that is staged already: one whose fill rule is recorded stands
    /// for all its descendants, any other goes on to its children.
    pub fn restore(&mut self, tile: TileJob)
        requires
            old(self).wf(),
            old(self).ready_for(tile),
        ensures
            final(self).wf(),
            old(self).moved(
                *final(self),
                generation::restored_effect(
                    tile,
                    old(self).fill_roots@.contains(frontier::key_of(tile)),
                    old(self).bounds@,
                    old(self).max_z,
                ),
            ),
            final(self).fill_roots@ == old(self).fill_roots@,
    {
        proof {
            generation::lemma_below_fits(tile, self.bounds@, self.max_z);
        }
        let ghost before = *self;
        let uniform: bool = self.fill_roots.contains(&tile_key(tile));
        let filled: u64 = if uniform {
            bounded_descendant_count(tile, self.bounds.as_slice(), self.max_z)
        } else {
            append_children_in_bounds(
                tile,
                &mut self.next_frontier,
                self.max_z,
                self.bounds.as_slice(),
            );
            0
        };
        self.total.add_restored();
        self.total.add_written_n(1 + filled);
        self.total.add_filled(filled);
        self.total.add_checked();
        self.zoom.add_restored();
        self.zoom.add_written_n(1 + filled);
        self.zoom.add_filled(filled);
        self.zoom.add_checked();
        self.progress.advance_generation(1 + filled);
        assert(self.next_frontier@ =~= before.next_frontier@ + generation::restored_effect(
            tile,
            uniform,
            before.bounds@,
            before.max_z,
        ).children);
    }

    /// Counts the outcome of a tile of the frontier, and says what is to be done about it.
    pub fn settle(&mut self, outcome: TileOutcome) -> (action: TileAction)
        requires
            old(self).wf(),
            old(self).ready_for(outcome.tile()),
        ensures
            final(self).wf(),
            old(self).moved(
                *final(self),
                generation::outcome_effect(outcome, old(self).bounds@, old(self).max_z),
            ),
            match outcome {
                TileOutcome::Data { coord, data, uniform_color } => {
                    let fill = fill_rule(
                        coord,
                        uniform_color,
                        old(self).bounds@,
                        old(self).max_z,
                    );
                    &&& action == (TileAction::Stage { coord, data, fill })
                    &&& final(self).fill_roots@ == (if fill is Some {
                        old(self).fill_roots@.insert(frontier::key_of(coord))
                    } else {
                        old(self).fill_roots@
                    })
                },
                TileOutcome::Empty { .. } => action is Skip && final(self).fill_roots@ == old(self).fill_roots@,
                TileOutcome::Error { coord, error } => {
                    &&& action matches TileAction::Warn { message } && message@
                        == pipeline::failure_text(coord, error@)
                    &&& final(self).fill_roots@ == old(self).fill_roots@
                },
            },
    {
        proof {
            generation::lemma_below_fits(outcome.tile(), self.bounds@, self.max_z);
        }
        let ghost before = *self;
        self.total.add_checked();
        self.zoom.add_checked();
        match outcome {
            TileOutcome::Data { coord, data, uniform_color } => {
                if let Some(color) = uniform_color {
                    let filled: u64 = bounded_descendant_count(
                        coord,
                        self.bounds.as_slice(),
                        self.max_z,
                    );
                    let fill: Option<UniformFill> = if filled > 0 {
                        self.fill_roots.insert(tile_key(coord));
                        Some(UniformFill { root: coord, color })
                    } else {
                        None
                    };
                    self.total.add_written_n(1 + filled);
                    self.total.add_filled(filled);
                    self.zoom.add_written_n(1 + filled);
                    self.zoom.add_filled(filled);
                    self.progress.advance_generation(1 + filled);
                    assert(self.next_frontier@ =~= before.next_frontier@ + Seq::<TileJob>::empty());
                    TileAction::Stage { coord, data, fill }
                } else {
                    append_children_in_bounds(
                        coord,
                        &mut self.next_frontier,
                        self.max_z,
                        self.bounds.as_slice(),
                    );
                    self.total.add_written();
                    self.zoom.add_written();
                    self.progress.advance_generation(1);
                    TileAction::Stage { coord, data, fill: None }
                }
            },
            TileOutcome::Empty { coord } => {
                let pruned: u64 = bounded_descendant_count(
                    coord,
                    self.bounds.as_slice(),
                    self.max_z,
                );
                self.total.add_empty();
                self.total.add_pruned(pruned);
                self.zoom.add_empty();
                self.zoom.add_pruned(pruned);
                self.progress.advance_generation(1 + pruned);
                assert(self.next_frontier@ =~= before.next_frontier@ + Seq::<TileJob>::empty());
                TileAction::Skip
            },
            TileOutcome::Error { coord, error } => {
                let message = failure_message(coord, error.as_str());
                self.total.add_error();
                self.zoom.add_error();
                self.progress.advance_generation(1);
                assert(self.next_frontier@ =~= before.next_frontier@ + Seq::<TileJob>::empty());
                TileAction::Warn { message }
            },
        }
    }
}

/// A change to the staging directory that is done as a whole or not at all, but for `Clear`.
#[derive(Clone, Copy, Debug, PartialEq, Eq, Structural)]
pub enum SpoolStep {
    /// Everything is removed, one thing after another.
    Clear,
    /// The frontier of a zoom is written.
    SaveFrontier { zoom: u8 },
    /// The state is written.
    SaveState { status: RunStatus, zoom: u8 },
    /// The frontier of a zoom is removed, if it is there.
    DropFrontier { zoom: u8 },
    /// A place is made for the tiles of a zoom, and for those that are not written to their end.
    PrepareTiles { zoom: u8 },
    /// The tiles of a zoom that were not written to their end are removed.
    DropUnfinishedTiles { zoom: u8 },
    /// The frontiers that were not written to their end are removed.
    DropUnfinishedFrontiers,
}

/// What a resumed run finds: the state, and the frontiers by zoom.
pub struct Spool {
    pub state: Option<(RunStatus, u8)>,
    pub frontiers: Map<u8, Seq<TileJob>>,
}

/// The directory after a step, `tiles` being the frontier that a step saves.
pub open spec fn stepped(spool: Spool, step: SpoolStep, tiles: Seq<TileJob>) -> Spool {
    match step {
        SpoolStep::Clear => Spool { state: None, frontiers: Map::empty() },
        SpoolStep::SaveFrontier { zoom } => Spool {
            frontiers: spool.frontiers.insert(zoom, tiles),
            ..spool
        },
        SpoolStep::SaveState { status, zoom } => Spool { state: Some((status, zoom)), ..spool },
        SpoolStep::DropFrontier { zoom } => Spool {
            frontiers: spool.frontiers.remove(zoom),
            ..spool
        },
        SpoolStep::PrepareTiles { .. } => spool,
        SpoolStep::DropUnfinishedTiles { .. } => spool,
        SpoolStep::DropUnfinishedFrontiers => spool,
    }
}

/// The directory after several steps.
pub open spec fn after_steps(spool: Spool, steps: Seq<SpoolStep>, tiles: Seq<TileJob>) -> Spool
    decreases steps.len(),
{
    if steps.len() == 0 {
        spool
    } else {
        stepped(after_steps(spool, steps.drop_last(), tiles), steps.last(), tiles)
    }
}

/// Whether the directory is what a removal of everything leaves that was begun: each thing is gone,
/// or is as it was.
pub open spec fn partly_cleared(before: Spool, after: Spool) -> bool {
    &&& after.state is None || after.state == before.state
    &&& after.frontiers.submap_of(before.frontiers)
}

/// Whether the directory may be found like this where steps are interrupted: the first `k` of them
/// are done and, if the next removes everything, that is done in part.
pub open spec fn interrupted(
    spool: Spool,
    steps: Seq<SpoolStep>,
    tiles: Seq<TileJob>,
    k: int,
    found: Spool,
) -> bool {
    let done = after_steps(spool, steps.take(k), tiles);
    &&& 0 <= k <= steps.len()
    &&& {
        ||| found == done
        ||| k < steps.len() && steps[k] is Clear && partly_cleared(done, found)
    }
}

/// Whether a run that was interrupted here is taken up with these tiles of this zoom.
pub open spec fn resumes_with(spool: Spool, zoom: u8, tiles: Seq<TileJob>) -> bool {
    &&& spool.state == Some((RunStatus::ProcessingZoom, zoom))
    &&& spool.frontiers.contains_key(zoom)
    &&& spool.frontiers[zoom] == tiles
}

/// The steps at the start of a run.
pub open spec fn start_steps(min_z: u8) -> Seq<SpoolStep> {
    seq![
        SpoolStep::Clear,
        SpoolStep::SaveFrontier { zoom: min_z },
        SpoolStep::SaveState { status: RunStatus::ProcessingZoom, zoom: min_z },
    ]
}

/// The steps when a run is taken up again in the middle of a zoom.
pub open spec fn restore_steps(zoom: u8) -> Seq<SpoolStep> {
    seq![
        SpoolStep::DropUnfinishedTiles { zoom },
        SpoolStep::DropUnfinishedFrontiers,
        SpoolStep::DropFrontier {
            zoom: if zoom < u8::MAX {
                (zoom + 1) as u8
            } else {
                zoom
            },
        },
    ]
}

/// The steps at the end of a zoom.
pub open spec fn end_steps(z: u8, max_z: u8) -> Seq<SpoolStep> {
    if z < max_z {
        seq![
            SpoolStep::SaveFrontier { zoom: (z + 1) as u8 },
            SpoolStep::SaveState { status: RunStatus::ProcessingZoom, zoom: (z + 1) as u8 },
            SpoolStep::DropFrontier { zoom: z },
        ]
    } else {
        seq![
            SpoolStep::SaveState { status: RunStatus::AllTilesDone, zoom: z },
            SpoolStep::DropFrontier { zoom: z },
        ]
    }
}

/// The steps before the tiles of a zoom are taken.
pub open spec fn begin_steps(z: u8) -> Seq<SpoolStep> {
    seq![
        SpoolStep::SaveState { status: RunStatus::ProcessingZoom, zoom: z },
        SpoolStep::PrepareTiles { zoom: z },
    ]
}

/// The steps before the archive is written.
pub open spec fn build_steps(max_z: u8) -> Seq<SpoolStep> {
    seq![SpoolStep::SaveState { status: RunStatus::WritingPmtiles, zoom: max_z }]
}

/// The steps before the archive is written: that it is being written is recorded.
pub fn plan_build(max_z: u8) -> (steps: Vec<SpoolStep>)
    ensures
        steps@ == build_steps(max_z),
{
    let mut steps: Vec<SpoolStep> = Vec::new();
    steps.push(SpoolStep::SaveState { status: RunStatus::WritingPmtiles, zoom: max_z });
    assert(steps@ =~= build_steps(max_z));
    steps
}

/// The steps once the archive is complete.
pub open spec fn finish_steps(max_z: u8, keeps_temp: bool) -> Seq<SpoolStep> {
    let done = SpoolStep::SaveState { status: RunStatus::Done, zoom: max_z };
    if keeps_temp {
        seq![done]
    } else {
        seq![done, SpoolStep::Clear]
    }
}

/// The steps once the archive is complete: this is recorded, and what was staged is removed unless
/// it is to be kept.
pub fn plan_finish(max_z: u8, keeps_temp: bool) -> (steps: Vec<SpoolStep>)
    ensures
        steps@ == finish_steps(max_z, keeps_temp),
{
    let mut steps: Vec<SpoolStep> = Vec::new();
    steps.push(SpoolStep::SaveState { status: RunStatus::Done, zoom: max_z });
    if !keeps_temp {
        steps.push(SpoolStep::Clear);
    }
    assert(steps@ =~= finish_steps(max_z, keeps_temp));
    steps
}

/// The steps once an archive is complete that was built from what was staged before: this is
/// recorded, and what was staged stays, whatever the archive lacks.
pub fn plan_finish_from_temp(max_z: u8) -> (steps: Vec<SpoolStep>)
    ensures
        steps@ == finish_steps(max_z, true),
{
    plan_finish(max_z, true)
}

/// The steps at the start of a run.
pub fn plan_start(min_z: u8) -> (steps: Vec<SpoolStep>)
    ensures
        steps@ == start_steps(min_z),
{
    let mut steps: Vec<SpoolStep> = Vec::new();
    steps.push(SpoolStep::Clear);
    steps.push(SpoolStep::SaveFrontier { zoom: min_z });
    steps.push(SpoolStep::SaveState { status: RunStatus::ProcessingZoom, zoom: min_z });
    assert(steps@ =~= start_steps(min_z));
    steps
}

/// The steps when a run is taken up again in the middle of a zoom.
pub fn plan_restore(zoom: u8) -> (steps: Vec<SpoolStep>)
    ensures
        steps@ == restore_steps(zoom),
{
    let mut steps: Vec<SpoolStep> = Vec::new();
    steps.push(SpoolStep::DropUnfinishedTiles { zoom });
    steps.push(SpoolStep::DropUnfinishedFrontiers);
    let next: u8 = if zoom < u8::MAX {
        zoom + 1
    } else {
        zoom
    };
    steps.push(SpoolStep::DropFrontier { zoom: next });
    assert(steps@ =~= restore_steps(zoom));
    steps
}

impl PmtilesRun {
    /// The steps before the tiles of the zoom are taken.
    pub fn begin_zoom(&self) -> (steps: Vec<SpoolStep>)
        ensures
            steps@ == begin_steps(self.z),
    {
        let mut steps: Vec<SpoolStep> = Vec::new();
        steps.push(SpoolStep::SaveState { status: RunStatus::ProcessingZoom, zoom: self.z });
        steps.push(SpoolStep::PrepareTiles { zoom: self.z });
        assert(steps@ =~= begin_steps(self.z));
        steps
    }

    /// Ends a zoom whose tiles have all been taken: the children become the frontier, and the steps
    /// that record this are given.
    pub fn finish_zoom(&mut self) -> (steps: Vec<SpoolStep>)
        requires
            old(self).wf(),
            old(self).z <= old(self).max_z,
            old(self).taken == old(self).frontier@.len(),
        ensures
            final(self).wf(),
            steps@ == end_steps(old(self).z, old(self).max_z),
            final(self).max_z == old(self).max_z,
            final(self).bounds@ == old(self).bounds@,
            final(self).z == (if old(self).z < old(self).max_z {
                (old(self).z + 1) as u8
            } else {
                old(self).z
            }),
            final(self).frontier@ == old(self).next_frontier@,
            final(self).taken == 0,
            final(self).existing@ == Set::<u64>::empty(),
            final(self).fill_roots@ == old(self).fill_roots@,
            final(self).next_frontier@ == Seq::<TileJob>::empty(),
            final(self).total == old(self).total,
            final(self).zoom == TileStats::zero(),
            final(self).progress == old(self).progress,
    {
        let z: u8 = self.z;
        let mut steps: Vec<SpoolStep> = Vec::new();
        if z < self.max_z {
            steps.push(SpoolStep::SaveFrontier { zoom: z + 1 });
            steps.push(SpoolStep::SaveState { status: RunStatus::ProcessingZoom, zoom: z + 1 });
            self.z = z + 1;
        } else {
            steps.push(SpoolStep::SaveState { status: RunStatus::AllTilesDone, zoom: z });
        }
        steps.push(SpoolStep::DropFrontier { zoom: z });
        assert(steps@ =~= end_steps(z, self.max_z));
        self.existing.clear();
        self.zoom = TileStats::default();
        self.taken = 0;
        self.frontier.clear();
        self.frontier.append(&mut self.next_frontier);
        assert(self.frontier@ =~= old(self).next_frontier@);
        steps
    }
}

/// A run that is interrupted anywhere while it starts, in the middle of the removal of what was
/// there too, begins anew, or is taken up with all of its first frontier. Until everything is
/// removed it finds no more than was there.
pub proof fn law_start_is_safe(
    spool: Spool,
    min_z: u8,
    first: Seq<TileJob>,
    k: int,
    found: Spool,
)
    requires
        k == 0 ==> spool.state is None,
        interrupted(spool, start_steps(min_z), first, k, found),
    ensures
        found.state is None || resumes_with(found, min_z, first),
        k == 0 ==> partly_cleared(spool, found),
        k == start_steps(min_z).len() ==> resumes_with(found, min_z, first),
{
    let steps = start_steps(min_z);
    assert(steps.take(0) =~= seq![]);
    assert(steps.take(1) =~= seq![steps[0]]);
    assert(steps.take(2) =~= seq![steps[0], steps[1]]);
    assert(steps.take(3) =~= steps);
    assert(seq![steps[0]].drop_last() =~= seq![]);
    assert(seq![steps[0], steps[1]].drop_last() =~= seq![steps[0]]);
    assert(steps.drop_last() =~= seq![steps[0], steps[1]]);
    reveal_with_fuel(after_steps, 4);
}

/// A run that is interrupted anywhere while it begins a zoom is taken up with all tiles of that
/// zoom.
pub proof fn law_begin_of_zoom_is_safe(spool: Spool, z: u8, tiles: Seq<TileJob>, k: int)
    requires
        resumes_with(spool, z, tiles),
        0 <= k <= begin_steps(z).len(),
    ensures
        resumes_with(after_steps(spool, begin_steps(z).take(k), tiles), z, tiles),
{
    let steps = begin_steps(z);
    assert(steps.take(0) =~= seq![]);
    assert(steps.take(1) =~= seq![steps[0]]);
    assert(steps.take(2) =~= steps);
    assert(seq![steps[0]].drop_last() =~= seq![]);
    assert(steps.drop_last() =~= seq![steps[0]]);
    reveal_with_fuel(after_steps, 3);
}

/// Whether a run that was interrupted here is taken up with the archive: its tiles are all made.
pub open spec fn resumes_with_build(spool: Spool) -> bool {
    spool.state matches Some((status, zoom)) && resume_of(status, zoom) is Build
}

/// A run whose tiles are all made and that is interrupted anywhere before its archive is complete
/// is taken up with the archive. What was written of the archive is dropped exactly if that it was
/// being written is recorded.
pub proof fn law_build_is_safe(spool: Spool, max_z: u8, k: int)
    requires
        resumes_with_build(spool),
        0 <= k <= build_steps(max_z).len(),
    ensures
        ({
            let after = after_steps(spool, build_steps(max_z).take(k), seq![]);
            &&& resumes_with_build(after)
            &&& k == 0 ==> after.state == spool.state
            &&& k == build_steps(max_z).len() ==> after.state == Some(
                (RunStatus::WritingPmtiles, max_z),
            )
            &&& after.frontiers == spool.frontiers
        }),
{
    let steps = build_steps(max_z);
    assert(steps.take(0) =~= seq![]);
    assert(steps.take(1) =~= steps);
    assert(steps.drop_last() =~= seq![]);
    reveal_with_fuel(after_steps, 2);
}

/// A run that is interrupted anywhere at the end of a zoom is taken up with all tiles of that zoom,
/// or with all tiles of the next, or, after the last zoom, with the archive.
pub proof fn law_end_of_zoom_is_safe(
    spool: Spool,
    z: u8,
    max_z: u8,
    tiles: Seq<TileJob>,
    next: Seq<TileJob>,
    k: int,
)
    requires
        z <= max_z,
        resumes_with(spool, z, tiles),
        0 <= k <= end_steps(z, max_z).len(),
    ensures
        ({
            let after = after_steps(spool, end_steps(z, max_z).take(k), next);
            ||| resumes_with(after, z, tiles)
            ||| z < max_z && resumes_with(after, (z + 1) as u8, next)
            ||| z == max_z && after.state == Some((RunStatus::AllTilesDone, z))
        }),
{
    let steps = end_steps(z, max_z);
    assert(steps.take(0) =~= seq![]);
    assert(steps.take(1) =~= seq![steps[0]]);
    assert(steps.take(2) =~= seq![steps[0], steps[1]]);
    assert(seq![steps[0]].drop_last() =~= seq![]);
    assert(seq![steps[0], steps[1]].drop_last() =~= seq![steps[0]]);
    if z < max_z {
        assert(steps.take(3) =~= steps);
        assert(steps.drop_last() =~= seq![steps[0], steps[1]]);
    }
    reveal_with_fuel(after_steps, 4);
}

/// A run that is interrupted anywhere once its archive is complete, in the middle of the removal of
/// what was staged too, writes the archive again, or has nothing left to do, or, where what was
/// staged is to go, begins anew. It finds no frontier that was not there. What is to be kept is as
/// it was.
pub proof fn law_finish_is_safe(
    spool: Spool,
    max_z: u8,
    keeps_temp: bool,
    k: int,
    found: Spool,
)
    requires
        spool.state == Some((RunStatus::WritingPmtiles, max_z)),
        interrupted(spool, finish_steps(max_z, keeps_temp), seq![], k, found),
    ensures
        ({
            ||| found.state == Some((RunStatus::WritingPmtiles, max_z))
            ||| found.state == Some((RunStatus::Done, max_z))
            ||| !keeps_temp && found.state is None
        }),
        found.frontiers.submap_of(spool.frontiers),
        keeps_temp ==> found.frontiers == spool.frontiers,
        k == finish_steps(max_z, keeps_temp).len() ==> found == if keeps_temp {
            Spool { state: Some((RunStatus::Done, max_z)), frontiers: spool.frontiers }
        } else {
            Spool { state: None, frontiers: Map::empty() }
        },
{
    let steps = finish_steps(max_z, keeps_temp);
    assert(steps.take(0) =~= seq![]);
    assert(steps.take(1) =~= seq![steps[0]]);
    assert(seq![steps[0]].drop_last() =~= seq![]);
    if !keeps_temp {
        assert(steps.take(2) =~= steps);
        assert(steps.drop_last() =~= seq![steps[0]]);
    }
    reveal_with_fuel(after_steps, 3);
}

/// Taking a run up again, and being interrupted in doing so, keeps what it is taken up with.
pub proof fn law_restore_is_safe(spool: Spool, zoom: u8, tiles: Seq<TileJob>, k: int)
    requires
        zoom < u8::MAX,
        resumes_with(spool, zoom, tiles),
        0 <= k <= restore_steps(zoom).len(),
    ensures
        resumes_with(after_steps(spool, restore_steps(zoom).take(k), tiles), zoom, tiles),
{
    let steps = restore_steps(zoom);
    assert(steps.take(0) =~= seq![]);
    assert(steps.take(1) =~= seq![steps[0]]);
    assert(steps.take(2) =~= seq![steps[0], steps[1]]);
    assert(steps.take(3) =~= steps);
    assert(seq![steps[0]].drop_last() =~= seq![]);
    assert(seq![steps[0], steps[1]].drop_last() =~= seq![steps[0]]);
    assert(steps.drop_last() =~= seq![steps[0], steps[1]]);
    reveal_with_fuel(after_steps, 4);
}

/// A tile that is staged, with its fill rule recorded where it had one, adds to a resumed run what
/// it added when it was made: the same tiles written and filled, the same advance, the same
/// children.
pub proof fn law_restored_like_made(
    outcome: TileOutcome,
    roots: Set<u64>,
    bounds: Seq<TileBounds>,
    min_z: u8,
    max_z: u8,
)
    requires
        pyramid::pyramid(bounds, min_z, max_z),
        frontier::in_bounds(bounds, outcome.tile()),
        outcome is Data,
        roots.contains(frontier::key_of(outcome.tile())) <==> outcome->uniform_color is Some
            && frontier::descendant_count(outcome.tile(), bounds, max_z) > 0,
    ensures
        generation::restored_effect(
            outcome.tile(),
            roots.contains(frontier::key_of(outcome.tile())),
            bounds,
            max_z,
        ) == (Effect { restored: 1, ..generation::outcome_effect(outcome, bounds, max_z) }),
{
    let tile = outcome.tile();
    generation::lemma_in_bounds_fits(tile, bounds, min_z, max_z);
    pyramid::law_children_share_descendants(tile, bounds, min_z, max_z);
    let children = frontier::children_in_bounds(tile, max_z, bounds);
    if frontier::descendant_count(tile, bounds, max_z) == 0 {
        assert(children.len() == 0);
        assert(children =~= seq![]);
    }
}

/// The first tile whose zoom is not one of the run.
pub open spec fn first_outside(tiles: Seq<TileJob>, min_z: u8, max_z: u8) -> Option<TileJob>
    decreases tiles.len(),
{
    if tiles.len() == 0 {
        None
    } else if tiles[0].z < min_z || tiles[0].z > max_z {
        Some(tiles[0])
    } else {
        first_outside(tiles.drop_first(), min_z, max_z)
    }
}

/// The first of the tiles to be repaired whose zoom is not one of the run.
fn find_outside(tiles: &[TileJob], min_z: u8, max_z: u8) -> (found: Option<TileJob>)
    ensures
        found == first_outside(tiles@, min_z, max_z),
{
    let mut i: usize = 0;
    assert(tiles@.skip(0) =~= tiles@);
    while i < tiles.len()
        invariant
            i <= tiles.len(),
            first_outside(tiles@, min_z, max_z) == first_outside(
                tiles@.skip(i as int),
                min_z,
                max_z,
            ),
        decreases tiles.len() - i,
    {
        let tile = tiles[i];
        assert(tiles@.skip(i as int).drop_first() =~= tiles@.skip(i + 1));
        if tile.z < min_z || tile.z > max_z {
            return Some(tile);
        }
        i += 1;
    }
    None
}

/// Whether some tile is of a zoom.
pub open spec fn has_zoom(tiles: Seq<TileJob>, z: int) -> bool {
    exists|i: int| 0 <= i < tiles.len() && (#[trigger] tiles[i]).z == z
}

/// The zooms, in order, from the first of a run to the last, that some tile is of.
pub open spec fn zooms_with_tiles(tiles: Seq<TileJob>, min_z: int, z: int) -> Seq<u8>
    decreases z - min_z + 1,
{
    if z < min_z {
        seq![]
    } else if has_zoom(tiles, z) {
        zooms_with_tiles(tiles, min_z, z - 1).push(z as u8)
    } else {
        zooms_with_tiles(tiles, min_z, z - 1)
    }
}

/// The zooms of the tiles to be repaired, in order.
fn zooms_to_prepare(tiles: &[TileJob], min_z: u8, max_z: u8) -> (zooms: Vec<u8>)
    ensures
        zooms@ == zooms_with_tiles(tiles@, min_z as int, max_z as int),
{
    let mut zooms: Vec<u8> = Vec::new();
    if min_z > max_z {
        return zooms;
    }
    let mut next: u16 = min_z as u16;
    while next <= max_z as u16
        invariant
            min_z <= next <= max_z + 1,
            zooms@ == zooms_with_tiles(tiles@, min_z as int, next - 1),
        decreases max_z + 1 - next,
    {
        let mut found: bool = false;
        let mut i: usize = 0;
        while i < tiles.len()
            invariant
                i <= tiles.len(),
                found ==> has_zoom(tiles@, next as int),
                !found ==> forall|j: int| 0 <= j < i ==> (#[trigger] tiles@[j]).z != next,
            decreases tiles.len() - i,
        {
            if tiles[i].z as u16 == next {
                assert(tiles@[i as int].z == next);
                found = true;
            }
            i += 1;
        }
        if found {
            zooms.push(next as u8);
        }
        next += 1;
    }
    zooms
}

/// What a repair does.
pub enum RepairPlan {
    /// Nothing: no tile was skipped.
    Nothing,
    /// The tiles are made again, into the directories of these zooms.
    Repair { zooms: Vec<u8> },
}

/// Why a repair cannot be done.
#[derive(Clone, Copy, Debug, PartialEq, Eq, Structural)]
pub enum RepairError {
    /// A skipped tile is not of a zoom of the run.
    OutsideZooms { tile: TileJob },
    /// There is no staging directory.
    NothingStaged,
}

/// What a repair does, given the skipped tiles and whether the staging directory exists.
pub fn plan_repair(tiles: &[TileJob], min_z: u8, max_z: u8, staged: bool) -> (plan: Result<
    RepairPlan,
    RepairError,
>)
    ensures
        match plan {
            Ok(RepairPlan::Nothing) => tiles@.len() == 0,
            Ok(RepairPlan::Repair { zooms }) => {
                &&& tiles@.len() > 0
                &&& first_outside(tiles@, min_z, max_z) is None
                &&& staged
                &&& zooms@ == zooms_with_tiles(tiles@, min_z as int, max_z as int)
            },
            Err(RepairError::OutsideZooms { tile }) => first_outside(tiles@, min_z, max_z) == Some(
                tile,
            ),
            Err(RepairError::NothingStaged) => {
                &&& tiles@.len() > 0
                &&& first_outside(tiles@, min_z, max_z) is None
                &&& !staged
            },
        },
{
    if tiles.len() == 0 {
        return Ok(RepairPlan::Nothing);
    }
    if let Some(tile) = find_outside(tiles, min_z, max_z) {
        return Err(RepairError::OutsideZooms { tile });
    }
    if !staged {
        return Err(RepairError::NothingStaged);
    }
    Ok(RepairPlan::Repair { zooms: zooms_to_prepare(tiles, min_z, max_z) })
}

/// What a repair does about the outcome of a tile.
pub enum RepairAction {
    /// The bytes are staged.
    Stage { coord: TileJob, data: Vec<u8> },
    /// It is reported why there are none.
    Warn { message: String },
}

/// What is reported of a repaired tile that is empty.
pub open spec fn repair_empty_text(tile: TileJob) -> Seq<char> {
    "Warning: regenerated skipped PMTiles tile "@ + pipeline::tile_label(tile)
        + " is empty; not written"@
}

/// What is reported of a tile that failed again.
pub open spec fn repair_failure_text(tile: TileJob, error: Seq<char>) -> Seq<char> {
    "Warning: skipped PMTiles tile "@ + pipeline::tile_label(tile) + " failed again: "@ + error
}

/// Counts the outcome of a repaired tile, and says what is to be done about it.
pub fn settle_repair(stats: &mut TileStats, outcome: TileOutcome) -> (action: RepairAction)
    requires
        old(stats).has_room(),
    ensures
        match outcome {
            TileOutcome::Data { coord, data, .. } => {
                &&& action == (RepairAction::Stage { coord, data })
                &&& *final(stats) == (TileStats {
                    checked: (old(stats).checked + 1) as u64,
                    written: (old(stats).written + 1) as u64,
                    ..*old(stats)
                })
            },
            TileOutcome::Empty { coord } => {
                &&& action matches RepairAction::Warn { message } && message@ == repair_empty_text(
                    coord,
                )
                &&& *final(stats) == (TileStats {
                    checked: (old(stats).checked + 1) as u64,
                    empty: (old(stats).empty + 1) as u64,
                    ..*old(stats)
                })
            },
            TileOutcome::Error { coord, error } => {
                &&& action matches RepairAction::Warn { message } && message@
                    == repair_failure_text(coord, error@)
                &&& *final(stats) == (TileStats {
                    checked: (old(stats).checked + 1) as u64,
                    errors: (old(stats).errors + 1) as u64,
                    ..*old(stats)
                })
            },
        },
{
    stats.add_checked();
    match outcome {
        TileOutcome::Data { coord, data, .. } => {
            stats.add_written();
            RepairAction::Stage { coord, data }
        },
        TileOutcome::Empty { coord } => {
            stats.add_empty();
            let mut message: String = "Warning: regenerated skipped PMTiles tile ".to_owned();
            message.append(tile_label_text(coord).as_str());
            message.append(" is empty; not written");
            RepairAction::Warn { message }
        },
        TileOutcome::Error { coord, error } => {
            stats.add_error();
            let mut message: String = "Warning: skipped PMTiles tile ".to_owned();
            message.append(tile_label_text(coord).as_str());
            message.append(" failed again: ");
            message.append(error.as_str());
            RepairAction::Warn { message }
        },
    }
}

/// Whether a run goes from one state to the next by the event of one tile.
pub open spec fn one_tile(states: Seq<PmtilesRun>, events: Seq<TileEvent>, i: int) -> bool {
    &&& states[i].wf()
    &&& states[i].ready_for(events[i].tile())
    &&& states[i].moved(
        states[i + 1],
        events[i].effect(states[i].bounds@, states[i].max_z),
    )
}

/// Over the events of a zoom, in whatever order, a run queues their children and accounts for what
/// they advance, in its tally and in its progress.
pub proof fn law_zoom_follows_its_events(states: Seq<PmtilesRun>, events: Seq<TileEvent>)
    requires
        states.len() == events.len() + 1,
        forall|i: int| 0 <= i < events.len() ==> #[trigger] one_tile(states, events, i),
        states[0].progress.wf(),
    ensures
        ({
            let before = states[0];
            let after = states.last();
            let advance = generation::advance_of(events, before.bounds@, before.max_z);
            &&& after.bounds@ == before.bounds@
            &&& after.max_z == before.max_z
            &&& after.next_frontier@ == before.next_frontier@ + generation::children_of(
                events,
                before.bounds@,
                before.max_z,
            )
            &&& generation::accounted(after.total) == generation::accounted(before.total) + advance
            &&& after.progress == before.progress.generated(advance as int)
        }),
    decreases events.len(),
{
    let before = states[0];
    if events.len() == 0 {
        assert(before.next_frontier@ =~= before.next_frontier@ + Seq::<TileJob>::empty());
        assert(before.progress.generated(0) == before.progress);
    } else {
        let n = events.len() - 1;
        let less = events.drop_last();
        let fewer = states.drop_last();
        assert forall|i: int| 0 <= i < less.len() implies #[trigger] one_tile(
            fewer,
            less,
            i,
        ) by {
            assert(one_tile(states, events, i));
            assert(fewer[i] == states[i] && fewer[i + 1] == states[i + 1] && less[i] == events[i]);
        }
        law_zoom_follows_its_events(fewer, less);
        assert(one_tile(states, events, n));
        let last = events.last();
        let e = last.effect(before.bounds@, before.max_z);
        let advance = generation::advance_of(less, before.bounds@, before.max_z);
        generation::law_tally_stays_balanced(
            states[n].total,
            last,
            before.bounds@,
            before.max_z,
        );
        crate::progress::law_advances_add_up(before.progress, advance as int, e.advance as int);
        let kids = generation::children_of(less, before.bounds@, before.max_z);
        assert(before.next_frontier@ + kids + e.children =~= before.next_frontier@ + (kids
            + e.children));
    }
}

/// The words for the stages.
pub proof fn law_words_of_the_stages(status: RunStatus, word: &'static str)
    requires
        call_ensures(RunStatus::name, (&status,), word),
    ensures
        status == RunStatus::ProcessingZoom ==> word@ == "processing_zoom"@,
        status == RunStatus::AllTilesDone ==> word@ == "all_tiles_done"@,
        status == RunStatus::WritingPmtiles ==> word@ == "writing_pmtiles"@,
        status == RunStatus::Done ==> word@ == "done"@,
{
}

/// A word of the state file is read as the stage that is written so.
pub proof fn law_stage_is_read_back(
    word: &String,
    found: Option<RunStatus>,
    status: RunStatus,
    name: &'static str,
)
    requires
        call_ensures(RunStatus::from_name, (word,), found),
        call_ensures(RunStatus::name, (&status,), name),
    ensures
        found == Some(status) <==> word@ == name@,
{
    if word@ == name@ {
        assert(status.word() == word@);
        law_status_words_differ(found->0, status);
    }
}

/// A run without a state begins anew. A state of other zooms or another output, or of another kind
/// or version, is refused. One of the same run is gone on with where it stopped: at its zoom, with
/// the archive, or not at all.
pub proof fn law_taken_up_where_it_stopped(
    min_z: u8,
    max_z: u8,
    output: &str,
    state: Option<&ResumeState>,
    resume: Result<Resume, ResumeError>,
)
    requires
        call_ensures(plan_resume, (min_z, max_z, output, state), resume),
    ensures
        state is None ==> resume == Ok::<Resume, ResumeError>(Resume::Fresh),
        state matches Some(s) ==> (s.version != 1 || s.format@ != "pmtiles"@ || s.min_zoom != min_z
            || s.max_zoom != max_z || s.output@ != output@ ==> (resume matches Err(
            ResumeError::Mismatch,
        ))),
        state matches Some(s) ==> (s.version == 1 && s.format@ == "pmtiles"@ && s.min_zoom == min_z
            && s.max_zoom == max_z && s.output@ == output@ ==> {
            &&& s.status@ == "processing_zoom"@ ==> resume == Ok::<Resume, ResumeError>(
                Resume::AtZoom { zoom: s.current_zoom },
            )
            &&& s.status@ == "all_tiles_done"@ ==> resume == Ok::<Resume, ResumeError>(
                Resume::Build { drop_partial: false },
            )
            &&& s.status@ == "writing_pmtiles"@ ==> resume == Ok::<Resume, ResumeError>(
                Resume::Build { drop_partial: true },
            )
            &&& s.status@ == "done"@ ==> resume == Ok::<Resume, ResumeError>(Resume::Finished)
            &&& s.status@ != "processing_zoom"@ && s.status@ != "all_tiles_done"@ && s.status@
                != "writing_pmtiles"@ && s.status@ != "done"@ ==> (resume matches Err(
                ResumeError::UnknownStatus { status },
            ) && status@ == s.status@)
        }),
{
    if let Some(s) = state {
        assert(RunStatus::ProcessingZoom.word() == "processing_zoom"@);
        assert(RunStatus::AllTilesDone.word() == "all_tiles_done"@);
        assert(RunStatus::WritingPmtiles.word() == "writing_pmtiles"@);
        assert(RunStatus::Done.word() == "done"@);
    }
}

/// A state that a run wrote is taken up by the same run: in the middle of a zoom at that very zoom,
/// and otherwise with what is left to do.
pub proof fn law_own_state_is_taken_up(
    min_z: u8,
    max_z: u8,
    output: &str,
    status: RunStatus,
    zoom: u8,
    state: ResumeState,
    resume: Result<Resume, ResumeError>,
)
    requires
        call_ensures(state_for, (min_z, max_z, output, status, zoom), state),
        call_ensures(plan_resume, (min_z, max_z, output, Some(&state)), resume),
    ensures
        status == RunStatus::ProcessingZoom ==> resume == Ok::<Resume, ResumeError>(
            Resume::AtZoom { zoom },
        ),
        status == RunStatus::AllTilesDone ==> resume == Ok::<Resume, ResumeError>(
            Resume::Build { drop_partial: false },
        ),
        status == RunStatus::WritingPmtiles ==> resume == Ok::<Resume, ResumeError>(
            Resume::Build { drop_partial: true },
        ),
        status == RunStatus::Done ==> resume == Ok::<Resume, ResumeError>(Resume::Finished),
{
    law_taken_up_where_it_stopped(min_z, max_z, output, Some(&state), resume);
}

/// An archive is built from what is staged exactly if something is staged and the state, if there
/// is one, is that of the same run.
pub proof fn law_built_from_its_own_tiles(
    min_z: u8,
    max_z: u8,
    output: &str,
    staged: bool,
    state: Option<&ResumeState>,
    r: Result<(), BuildError>,
)
    requires
        call_ensures(plan_build_from_temp, (min_z, max_z, output, staged, state), r),
    ensures
        !staged ==> (r matches Err(BuildError::NothingStaged)),
        staged && state is None ==> r is Ok,
        staged ==> (state matches Some(s) ==> if s.version == 1 && s.format@ == "pmtiles"@
            && s.min_zoom == min_z && s.max_zoom == max_z && s.output@ == output@ {
            r is Ok
        } else {
            r matches Err(BuildError::Mismatch)
        }),
{
}

/// What is done at the start of a run, of a zoom, of a build and at the end of the run, step by
/// step.
pub proof fn law_steps_of_a_run(
    z: u8,
    keeps_temp: bool,
    run: PmtilesRun,
    start: Vec<SpoolStep>,
    begin: Vec<SpoolStep>,
    build: Vec<SpoolStep>,
    finish: Vec<SpoolStep>,
    finish_staged: Vec<SpoolStep>,
)
    requires
        call_ensures(plan_start, (z,), start),
        call_ensures(PmtilesRun::begin_zoom, (&run,), begin),
        call_ensures(plan_build, (z,), build),
        call_ensures(plan_finish, (z, keeps_temp), finish),
        call_ensures(plan_finish_from_temp, (z,), finish_staged),
    ensures
        start@.len() == 3 && start@[0] == SpoolStep::Clear,
        start@[1] == (SpoolStep::SaveFrontier { zoom: z }),
        start@[2] == (SpoolStep::SaveState { status: RunStatus::ProcessingZoom, zoom: z }),
        begin@.len() == 2,
        begin@[0] == (SpoolStep::SaveState { status: RunStatus::ProcessingZoom, zoom: run.z }),
        begin@[1] == (SpoolStep::PrepareTiles { zoom: run.z }),
        build@.len() == 1,
        build@[0] == (SpoolStep::SaveState { status: RunStatus::WritingPmtiles, zoom: z }),
        finish@[0] == (SpoolStep::SaveState { status: RunStatus::Done, zoom: z }),
        keeps_temp ==> finish@.len() == 1,
        !keeps_temp ==> finish@.len() == 2 && finish@[1] == SpoolStep::Clear,
        finish_staged@.len() == 1,
        finish_staged@[0] == (SpoolStep::SaveState { status: RunStatus::Done, zoom: z }),
{
}

/// A run that is taken up in the middle of a zoom drops what was not written to its end, and the
/// frontier of the next zoom, which it makes again; the frontier of its zoom it keeps.
pub proof fn law_steps_of_a_resumed_run(zoom: u8, steps: Vec<SpoolStep>)
    requires
        call_ensures(plan_restore, (zoom,), steps),
    ensures
        steps@.contains(SpoolStep::DropUnfinishedTiles { zoom }),
        steps@.contains(SpoolStep::DropUnfinishedFrontiers),
        zoom < 255 ==> steps@.contains(SpoolStep::DropFrontier { zoom: (zoom + 1) as u8 }),
        zoom < 255 ==> forall|i: int|
            0 <= i < steps@.len() ==> #[trigger] steps@[i] != (SpoolStep::DropFrontier { zoom }),
        steps@.len() == 3,
{
    assert(steps@[0] == SpoolStep::DropUnfinishedTiles { zoom });
    assert(steps@[1] == SpoolStep::DropUnfinishedFrontiers);
    assert(zoom < 255 ==> steps@[2] == (SpoolStep::DropFrontier { zoom: (zoom + 1) as u8 }));
}

/// A run that has finished a zoom stands at the next with the children of its tiles, and so does
/// its directory; after the last zoom the directory says that all tiles are made. The frontier of
/// the finished zoom is gone.
pub proof fn law_zoom_is_left_for_the_next(
    run: &mut PmtilesRun,
    steps: Vec<SpoolStep>,
    spool: Spool,
)
    requires
        old(run).z <= old(run).max_z,
        call_ensures(PmtilesRun::finish_zoom, (run,), steps),
    ensures
        final(run).frontier@ == old(run).next_frontier@,
        final(run).taken == 0,
        final(run).next_frontier@.len() == 0,
        final(run).existing@.is_empty(),
        final(run).fill_roots@ == old(run).fill_roots@,
        final(run).bounds@ == old(run).bounds@,
        final(run).total == old(run).total,
        final(run).progress == old(run).progress,
        ({
            let after = after_steps(spool, steps@, final(run).frontier@);
            &&& !after.frontiers.contains_key(old(run).z)
            &&& old(run).z < old(run).max_z ==> {
                &&& final(run).z == old(run).z + 1
                &&& after.state == Some((RunStatus::ProcessingZoom, final(run).z))
                &&& after.frontiers.contains_key(final(run).z)
                &&& after.frontiers[final(run).z] == old(run).next_frontier@
            }
            &&& old(run).z == old(run).max_z ==> final(run).z == old(run).z && after.state == Some(
                (RunStatus::AllTilesDone, old(run).z),
            )
        }),
{
    let all = steps@;
    reveal_with_fuel(after_steps, 4);
    if old(run).z < old(run).max_z {
        assert(all.drop_last() =~= seq![all[0], all[1]]);
        assert(all.drop_last().drop_last() =~= seq![all[0]]);
        assert(all.drop_last().drop_last().drop_last() =~= seq![]);
    } else {
        assert(all.drop_last() =~= seq![all[0]]);
        assert(all.drop_last().drop_last() =~= seq![]);
    }
}

/// A chunk is the next 4096 tiles of the frontier, or what is left of it. Each of its tiles is
/// passed over exactly if its key is among those of the staged tiles, and made otherwise.
pub proof fn law_chunk_is_what_comes_next(
    run: &mut PmtilesRun,
    parts: (Vec<TileJob>, Vec<TileJob>),
    tile: TileJob,
)
    requires
        old(run).wf(),
        call_ensures(PmtilesRun::take_chunk, (run,), parts),
    ensures
        old(run).frontier@.len() - old(run).taken >= 4096 ==> final(run).taken == old(run).taken
            + 4096,
        old(run).frontier@.len() - old(run).taken < 4096 ==> final(run).taken == old(run).frontier@.len(),
        (parts.0@ + parts.1@).to_multiset() == old(run).frontier@.subrange(
            old(run).taken as int,
            final(run).taken as int,
        ).to_multiset(),
        parts.0@.contains(tile) ==> old(run).existing@.contains(frontier::key_of(tile)),
        parts.1@.contains(tile) ==> !old(run).existing@.contains(frontier::key_of(tile)),
        final(run).frontier@ == old(run).frontier@,
        final(run).next_frontier@ == old(run).next_frontier@,
        final(run).total == old(run).total,
{
    broadcast use vstd::seq_lib::group_filter_ensures;

    let chunk = old(run).frontier@.subrange(old(run).taken as int, final(run).taken as int);
    pipeline::law_split_loses_nothing(chunk, old(run).existing@);
    if parts.0@.contains(tile) {
        let i = choose|i: int| 0 <= i < parts.0@.len() && parts.0@[i] == tile;
        assert(pipeline::among(old(run).existing@, true)(parts.0@[i]));
    }
    if parts.1@.contains(tile) {
        let i = choose|i: int| 0 <= i < parts.1@.len() && parts.1@[i] == tile;
        assert(pipeline::among(old(run).existing@, false)(parts.1@[i]));
    }
}

/// A tile with data is staged as it is and queues its children. A uniform one is staged with a rule
/// that gives its descendants its colour, where it has any, and queues nothing. An empty one rules
/// out its descendants. A failed one is reported. Each is counted once, in the run and in the zoom.
pub proof fn law_outcome_is_dealt_with(
    run: &mut PmtilesRun,
    outcome: TileOutcome,
    action: TileAction,
    below: nat,
)
    requires
        old(run).wf(),
        old(run).ready_for(outcome.tile()),
        call_ensures(PmtilesRun::settle, (run, outcome), action),
        below == frontier::descendants(outcome.tile(), old(run).bounds@, old(run).max_z).len(),
    ensures
        final(run).z == old(run).z,
        final(run).max_z == old(run).max_z,
        final(run).bounds@ == old(run).bounds@,
        final(run).frontier@ == old(run).frontier@,
        final(run).taken == old(run).taken,
        final(run).total.checked == old(run).total.checked + 1,
        final(run).zoom.checked == old(run).zoom.checked + 1,
        final(run).total.restored == old(run).total.restored,
        outcome matches TileOutcome::Data { coord, data, uniform_color } ==> {
            &&& action matches TileAction::Stage { coord: c, data: d, fill } && c == coord && d
                == data && (fill is Some <==> uniform_color is Some && below > 0) && (
            fill matches Some(f) ==> f.root == coord && f.color == uniform_color->0)
            &&& final(run).total.empty == old(run).total.empty
            &&& final(run).total.errors == old(run).total.errors
            &&& final(run).total.pruned == old(run).total.pruned
            &&& uniform_color is Some ==> {
                &&& final(run).total.written == old(run).total.written + 1 + below
                &&& final(run).total.filled == old(run).total.filled + below
                &&& final(run).zoom.written == old(run).zoom.written + 1 + below
                &&& final(run).zoom.filled == old(run).zoom.filled + below
                &&& final(run).next_frontier@ == old(run).next_frontier@
                &&& below > 0 ==> final(run).fill_roots@.contains(frontier::key_of(coord))
            }
            &&& uniform_color is None ==> {
                &&& final(run).total.written == old(run).total.written + 1
                &&& final(run).total.filled == old(run).total.filled
                &&& final(run).zoom.written == old(run).zoom.written + 1
                &&& final(run).zoom.filled == old(run).zoom.filled
                &&& final(run).next_frontier@ == old(run).next_frontier@
                    + frontier::children_in_bounds(coord, old(run).max_z, old(run).bounds@)
                &&& final(run).fill_roots@ == old(run).fill_roots@
            }
        },
        outcome is Empty ==> {
            &&& action is Skip
            &&& final(run).total.empty == old(run).total.empty + 1
            &&& final(run).total.pruned == old(run).total.pruned + below
            &&& final(run).zoom.empty == old(run).zoom.empty + 1
            &&& final(run).zoom.pruned == old(run).zoom.pruned + below
            &&& final(run).total.written == old(run).total.written
            &&& final(run).total.filled == old(run).total.filled
            &&& final(run).total.errors == old(run).total.errors
            &&& final(run).next_frontier@ == old(run).next_frontier@
            &&& final(run).fill_roots@ == old(run).fill_roots@
        },
        outcome matches TileOutcome::Error { coord, error } ==> {
            &&& action matches TileAction::Warn { message } && message@ == pipeline::failure_text(
                coord,
                error@,
            )
            &&& final(run).total.errors == old(run).total.errors + 1
            &&& final(run).zoom.errors == old(run).zoom.errors + 1
            &&& final(run).total.empty == old(run).total.empty
            &&& final(run).total.pruned == old(run).total.pruned
            &&& final(run).total.written == old(run).total.written
            &&& final(run).total.filled == old(run).total.filled
            &&& final(run).next_frontier@ == old(run).next_frontier@
            &&& final(run).fill_roots@ == old(run).fill_roots@
        },
{
    generation::lemma_below_fits(outcome.tile(), old(run).bounds@, old(run).max_z);
    let queue = old(run).next_frontier@;
    assert(queue + Seq::<TileJob>::empty() =~= queue);
}

/// The progress of a run moves by the tile and, where it is empty or uniform, by all its
/// descendants; never past its total.
pub proof fn law_outcome_moves_the_progress(
    run: &mut PmtilesRun,
    outcome: TileOutcome,
    action: TileAction,
    below: nat,
)
    requires
        old(run).wf(),
        old(run).ready_for(outcome.tile()),
        call_ensures(PmtilesRun::settle, (run, outcome), action),
        below == frontier::descendants(outcome.tile(), old(run).bounds@, old(run).max_z).len(),
    ensures
        ({
            let skips = outcome is Empty || (outcome matches TileOutcome::Data {
                uniform_color,
                ..
            } && uniform_color is Some);
            let done = old(run).progress.generation_done + 1 + if skips {
                below as int
            } else {
                0
            };
            let total = old(run).progress.generation_total as int;
            &&& done <= total ==> final(run).progress.generation_done == done
            &&& done > total ==> final(run).progress.generation_done == total
            &&& final(run).progress.generation_total == total
            &&& final(run).progress.build_done == old(run).progress.build_done
        }),
{
    generation::lemma_below_fits(outcome.tile(), old(run).bounds@, old(run).max_z);
}

/// A staged tile counts as written and restored. If its rule is recorded, its descendants count as
/// filled and nothing is queued; otherwise its children are queued.
pub proof fn law_restored_tile_goes_on(run: &mut PmtilesRun, tile: TileJob, below: nat)
    requires
        old(run).wf(),
        old(run).ready_for(tile),
        call_ensures(PmtilesRun::restore, (run, tile), ()),
        below == frontier::descendants(tile, old(run).bounds@, old(run).max_z).len(),
    ensures
        final(run).total.checked == old(run).total.checked + 1,
        final(run).total.restored == old(run).total.restored + 1,
        final(run).total.pruned == old(run).total.pruned,
        final(run).total.empty == old(run).total.empty,
        final(run).total.errors == old(run).total.errors,
        final(run).zoom.checked == old(run).zoom.checked + 1,
        final(run).frontier@ == old(run).frontier@,
        final(run).taken == old(run).taken,
        final(run).z == old(run).z,
        old(run).fill_roots@.contains(frontier::key_of(tile)) ==> {
            &&& final(run).total.written == old(run).total.written + 1 + below
            &&& final(run).total.filled == old(run).total.filled + below
            &&& final(run).next_frontier@ == old(run).next_frontier@
        },
        !old(run).fill_roots@.contains(frontier::key_of(tile)) ==> {
            &&& final(run).total.written == old(run).total.written + 1
            &&& final(run).total.filled == old(run).total.filled
            &&& final(run).next_frontier@ == old(run).next_frontier@ + frontier::children_in_bounds(
                tile,
                old(run).max_z,
                old(run).bounds@,
            )
        },
{
    generation::lemma_below_fits(tile, old(run).bounds@, old(run).max_z);
    let queue = old(run).next_frontier@;
    assert(queue + Seq::<TileJob>::empty() =~= queue);
}

/// A run starts at its zoom with its frontier, none of it taken, and with nothing counted.
pub proof fn law_run_starts_with_its_frontier(
    bounds: Vec<TileBounds>,
    max_z: u8,
    z: u8,
    frontier: Vec<TileJob>,
    existing: HashSet<u64>,
    fill_roots: HashSet<u64>,
    candidates: u64,
    run: PmtilesRun,
)
    requires
        call_ensures(
            PmtilesRun::new,
            (bounds, max_z, z, frontier, existing, fill_roots, candidates),
            run,
        ),
    ensures
        run.z == z && run.max_z == max_z,
        run.bounds@ == bounds@,
        run.frontier@ == frontier@,
        run.existing@ == existing@,
        run.fill_roots@ == fill_roots@,
        run.taken == 0 && run.next_frontier@.len() == 0,
        run.total.checked == 0 && run.total.written == 0 && run.total.empty == 0,
        run.total.errors == 0 && run.total.pruned == 0 && run.total.filled == 0,
        run.progress.generation_done == 0,
        candidates >= 1 ==> run.progress.generation_total == candidates,
{
}

/// One more tile can be dealt with unless a counter is nearly full or the numbers of its children
/// are too large.
pub proof fn law_ready_unless_full(run: PmtilesRun, tile: TileJob, r: bool)
    requires
        call_ensures(PmtilesRun::is_ready_for, (&run, tile), r),
        run.total.checked < 0x4000_0000_0000_0000 && run.zoom.checked < 0x4000_0000_0000_0000,
        run.total.written < 0x4000_0000_0000_0000 && run.zoom.written < 0x4000_0000_0000_0000,
        run.total.empty < 0x4000_0000_0000_0000 && run.zoom.empty < 0x4000_0000_0000_0000,
        run.total.errors < 0x4000_0000_0000_0000 && run.zoom.errors < 0x4000_0000_0000_0000,
        run.total.restored < 0x4000_0000_0000_0000 && run.zoom.restored < 0x4000_0000_0000_0000,
        run.total.pruned < 0x4000_0000_0000_0000 && run.zoom.pruned < 0x4000_0000_0000_0000,
        run.total.filled < 0x4000_0000_0000_0000 && run.zoom.filled < 0x4000_0000_0000_0000,
    ensures
        tile.x < 0x8000_0000 && tile.y < 0x8000_0000 ==> r,
        tile.z >= run.max_z ==> r,
{
}

/// The first tile outside some zooms is one of the list that lies outside, and none before it does.
/// If there is none, all tiles lie within, the first and the last zoom among them.
pub proof fn law_first_outside_exact(tiles: Seq<TileJob>, min_z: u8, max_z: u8)
    ensures
        first_outside(tiles, min_z, max_z) is None <==> forall|i: int|
            0 <= i < tiles.len() ==> min_z <= (#[trigger] tiles[i]).z <= max_z,
        first_outside(tiles, min_z, max_z) matches Some(tile) ==> exists|i: int|
            0 <= i < tiles.len() && (#[trigger] tiles[i]) == tile && !(min_z <= tile.z <= max_z)
                && forall|j: int| 0 <= j < i ==> min_z <= (#[trigger] tiles[j]).z <= max_z,
    decreases tiles.len(),
{
    if tiles.len() > 0 {
        let rest = tiles.drop_first();
        law_first_outside_exact(rest, min_z, max_z);
        assert(forall|i: int| 0 <= i < rest.len() ==> #[trigger] rest[i] == tiles[i + 1]);
        if tiles[0].z < min_z || tiles[0].z > max_z {
            assert(tiles[0] == first_outside(tiles, min_z, max_z)->0);
        } else if first_outside(rest, min_z, max_z) is Some {
            let tile = first_outside(rest, min_z, max_z)->0;
            let i = choose|i: int|
                0 <= i < rest.len() && (#[trigger] rest[i]) == tile && !(min_z <= tile.z <= max_z)
                    && forall|j: int| 0 <= j < i ==> min_z <= (#[trigger] rest[j]).z <= max_z;
            assert(tiles[i + 1] == tile);
            assert forall|j: int| 0 <= j < i + 1 implies min_z <= (#[trigger] tiles[j]).z
                <= max_z by {
                if j > 0 {
                    assert(tiles[j] == rest[j - 1]);
                }
            }
        } else {
            assert forall|j: int| 0 <= j < tiles.len() implies min_z <= (#[trigger] tiles[j]).z
                <= max_z by {
                if j > 0 {
                    assert(tiles[j] == rest[j - 1]);
                }
            }
        }
    }
}

/// The zooms that some tiles are of are listed once each, in order, and no others.
pub proof fn law_zooms_with_tiles_exact(tiles: Seq<TileJob>, min_z: int, z: int, w: u8)
    requires
        0 <= min_z,
        z <= 255,
    ensures
        zooms_with_tiles(tiles, min_z, z).contains(w) <==> min_z <= w <= z && exists|i: int|
            0 <= i < tiles.len() && (#[trigger] tiles[i]).z == w,
        forall|a: int, b: int|
            0 <= a < b < zooms_with_tiles(tiles, min_z, z).len() ==> (#[trigger] zooms_with_tiles(
                tiles,
                min_z,
                z,
            )[a]) < (#[trigger] zooms_with_tiles(tiles, min_z, z)[b]),
        forall|a: int|
            0 <= a < zooms_with_tiles(tiles, min_z, z).len() ==> min_z <= (
            #[trigger] zooms_with_tiles(tiles, min_z, z)[a]) <= z,
    decreases z - min_z + 1,
{
    let all = zooms_with_tiles(tiles, min_z, z);
    if z >= min_z {
        law_zooms_with_tiles_exact(tiles, min_z, z - 1, w);
        let head = zooms_with_tiles(tiles, min_z, z - 1);
        if has_zoom(tiles, z) {
            assert(all == head.push(z as u8));
            assert(all[head.len() as int] == z as u8);
            if head.contains(w) {
                let i = choose|i: int| 0 <= i < head.len() && head[i] == w;
                assert(all[i] == w);
            }
            if all.contains(w) && w != z {
                let i = choose|i: int| 0 <= i < all.len() && all[i] == w;
                assert(head[i] == w);
            }
        }
        if exists|i: int| 0 <= i < tiles.len() && (#[trigger] tiles[i]).z == w {
            if w == z {
                assert(has_zoom(tiles, z));
            }
        }
    }
}

/// A repair has nothing to do exactly if no tile was skipped. It fails for a tile of another zoom,
/// the first such one, and else if nothing is staged. Otherwise it makes the tiles of exactly
/// their zooms.
pub proof fn law_repair_takes_the_zooms_of_the_run(
    tiles: &[TileJob],
    min_z: u8,
    max_z: u8,
    staged: bool,
    plan: Result<RepairPlan, RepairError>,
    w: u8,
)
    requires
        call_ensures(plan_repair, (tiles, min_z, max_z, staged), plan),
    ensures
        (plan matches Ok(RepairPlan::Nothing)) <==> tiles@.len() == 0,
        (plan matches Ok(RepairPlan::Repair { .. })) <==> tiles@.len() > 0 && staged && forall|
            i: int,
        |
            0 <= i < tiles@.len() ==> min_z <= (#[trigger] tiles@[i]).z <= max_z,
        plan matches Ok(RepairPlan::Repair { zooms }) ==> (zooms@.contains(w) <==> exists|i: int|
            0 <= i < tiles@.len() && (#[trigger] tiles@[i]).z == w),
        plan matches Ok(RepairPlan::Repair { zooms }) ==> forall|a: int, b: int|
            0 <= a < b < zooms@.len() ==> (#[trigger] zooms@[a]) < (#[trigger] zooms@[b]),
        plan matches Err(RepairError::OutsideZooms { tile }) ==> tiles@.contains(tile) && (tile.z
            < min_z || tile.z > max_z),
        (plan matches Err(RepairError::NothingStaged)) <==> tiles@.len() > 0 && !staged && forall|
            i: int,
        |
            0 <= i < tiles@.len() ==> min_z <= (#[trigger] tiles@[i]).z <= max_z,
{
    law_first_outside_exact(tiles@, min_z, max_z);
    law_zooms_with_tiles_exact(tiles@, min_z as int, max_z as int, w);
}

/// A repaired tile with data is staged as it is; an empty one and one that failed again are
/// reported. Each is counted once.
pub proof fn law_repaired_tile_is_dealt_with(
    stats: &mut TileStats,
    outcome: TileOutcome,
    action: RepairAction,
)
    requires
        old(stats).has_room(),
        call_ensures(settle_repair, (stats, outcome), action),
    ensures
        final(stats).checked == old(stats).checked + 1,
        final(stats).restored == old(stats).restored,
        final(stats).pruned == old(stats).pruned,
        final(stats).filled == old(stats).filled,
        final(stats).written == old(stats).written + if outcome is Data {
            1int
        } else {
            0
        },
        final(stats).empty == old(stats).empty + if outcome is Empty {
            1int
        } else {
            0
        },
        final(stats).errors == old(stats).errors + if outcome is Error {
            1int
        } else {
            0
        },
        outcome matches TileOutcome::Data { coord, data, .. } ==> (
        action matches RepairAction::Stage { coord: c, data: d } && c == coord && d == data),
        outcome matches TileOutcome::Empty { coord } ==> (
        action matches RepairAction::Warn { message } && message@
            == "Warning: regenerated skipped PMTiles tile "@ + pipeline::tile_label(coord)
            + " is empty; not written"@),
        outcome matches TileOutcome::Error { coord, error } ==> (
        action matches RepairAction::Warn { message } && message@
            == "Warning: skipped PMTiles tile "@ + pipeline::tile_label(coord)
            + " failed again: "@ + error@),
{
}

/// The tally of a zoom moves as that of the run does, counter by counter.
pub proof fn law_zoom_is_counted_like_the_run(
    run: &mut PmtilesRun,
    outcome: TileOutcome,
    action: TileAction,
)
    requires
        old(run).wf(),
        old(run).ready_for(outcome.tile()),
        call_ensures(PmtilesRun::settle, (run, outcome), action),
    ensures
        final(run).zoom.checked - old(run).zoom.checked == final(run).total.checked - old(run).total.checked,
        final(run).zoom.written - old(run).zoom.written == final(run).total.written - old(run).total.written,
        final(run).zoom.empty - old(run).zoom.empty == final(run).total.empty - old(run).total.empty,
        final(run).zoom.errors - old(run).zoom.errors == final(run).total.errors - old(run).total.errors,
        final(run).zoom.restored - old(run).zoom.restored == final(run).total.restored - old(run).total.restored,
        final(run).zoom.pruned - old(run).zoom.pruned == final(run).total.pruned - old(run).total.pruned,
        final(run).zoom.filled - old(run).zoom.filled == final(run).total.filled - old(run).total.filled,
{
    generation::lemma_below_fits(outcome.tile(), old(run).bounds@, old(run).max_z);
}

/// A tile that an earlier run had left moves the zoom as it moves the run, and the progress by what
/// it stands for; never past its total.
pub proof fn law_restored_tile_is_counted(run: &mut PmtilesRun, tile: TileJob)
    requires
        old(run).wf(),
        old(run).ready_for(tile),
        call_ensures(PmtilesRun::restore, (run, tile), ()),
    ensures
        final(run).zoom.checked == old(run).zoom.checked + 1,
        final(run).zoom.restored == old(run).zoom.restored + 1,
        final(run).zoom.written - old(run).zoom.written == final(run).total.written - old(run).total.written,
        final(run).zoom.filled - old(run).zoom.filled == final(run).total.filled - old(run).total.filled,
        final(run).zoom.empty == old(run).zoom.empty,
        final(run).zoom.errors == old(run).zoom.errors,
        final(run).zoom.pruned == old(run).zoom.pruned,
        ({
            let done = old(run).progress.generation_done + 1 + if old(run).fill_roots@.contains(
                frontier::key_of(tile),
            ) {
                frontier::descendants(tile, old(run).bounds@, old(run).max_z).len() as int
            } else {
                0
            };
            let total = old(run).progress.generation_total as int;
            &&& done <= total ==> final(run).progress.generation_done == done
            &&& done > total ==> final(run).progress.generation_done == total
            &&& final(run).progress.generation_total == total
        }),
{
    generation::lemma_below_fits(tile, old(run).bounds@, old(run).max_z);
}

/// A root that is known stays known. A uniform tile becomes one exactly if it has descendants; no
/// other tile does.
pub proof fn law_roots_stay_known(
    run: &mut PmtilesRun,
    outcome: TileOutcome,
    action: TileAction,
    key: u64,
)
    requires
        old(run).wf(),
        old(run).ready_for(outcome.tile()),
        call_ensures(PmtilesRun::settle, (run, outcome), action),
    ensures
        old(run).fill_roots@.contains(key) ==> final(run).fill_roots@.contains(key),
        final(run).fill_roots@.contains(key) && !old(run).fill_roots@.contains(key) ==> key
            == frontier::key_of(outcome.tile()) && (outcome matches TileOutcome::Data {
            uniform_color,
            ..
        } && uniform_color is Some) && frontier::descendants(
            outcome.tile(),
            old(run).bounds@,
            old(run).max_z,
        ).len() > 0,
        final(run).existing@ == old(run).existing@,
{
}

/// Where nothing is staged, a chunk is made as it stands.
pub proof fn law_fresh_chunk_is_made_as_it_stands(
    run: &mut PmtilesRun,
    parts: (Vec<TileJob>, Vec<TileJob>),
)
    requires
        old(run).wf(),
        old(run).existing@.is_empty(),
        call_ensures(PmtilesRun::take_chunk, (run,), parts),
    ensures
        parts.0@.len() == 0,
        parts.1@ == old(run).frontier@.subrange(old(run).taken as int, final(run).taken as int),
{
    let chunk = old(run).frontier@.subrange(old(run).taken as int, final(run).taken as int);
    assert forall|t: TileJob| !#[trigger] old(run).existing@.contains(frontier::key_of(t)) by {}
    pipeline::lemma_filter_whole(chunk, old(run).existing@);
}

} // verus!
