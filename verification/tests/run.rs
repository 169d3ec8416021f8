use std::collections::{HashMap, HashSet};

use massif::archive::{build_pmtiles_from_temp, BuildStep, TileSource};
use massif::frontier::{
    bounds_by_zoom, initial_frontier, tile_filename, tile_key, TileBounds, TileJob, TileSpan,
};
use massif::mbtiles_flow::{
    plan_create, plan_start, MbtilesAction, MbtilesRun, MbtilesStart, MbtilesStep,
};
use massif::pipeline::{split_chunk, TileOutcome};
use massif::pmtiles_flow::{PmtilesRun, TileAction};
use massif::pyramid::{is_pyramid, upper_bound_tiles};
use massif::spool::{
    append_uniform_fill, read_frontier, read_uniform_fills, scan_existing_encoded,
    uniform_fill_roots, write_frontier, write_temp_tile,
};

const MIN_Z: u8 = 2;
const MAX_Z: u8 = 5;

/// An area that does not end at the edges of tiles.
fn areas() -> Vec<TileSpan> {
    (MIN_Z..=MAX_Z)
        .map(|z| {
            let d = MAX_Z - z;
            TileSpan { x0: 5 >> d, x1: 22 >> d, y0: 9 >> d, y1: 30 >> d }
        })
        .collect()
}

fn all_bounds() -> Vec<TileBounds> {
    bounds_by_zoom(&areas(), MIN_Z, MAX_Z)
}

/// What becomes of a tile, by its place alone.
fn outcome(t: TileJob) -> TileOutcome {
    match (t.x * 7 + t.y * 5 + t.z as u32 * 3) % 6 {
        0 => TileOutcome::Empty { coord: t },
        1 => TileOutcome::Data { coord: t, data: vec![1], uniform_color: Some([t.z, 2, 3]) },
        _ => TileOutcome::Data { coord: t, data: vec![1], uniform_color: None },
    }
}

fn covers(above: TileJob, below: TileJob) -> bool {
    above.z < below.z
        && below.x >> (below.z - above.z) == above.x
        && below.y >> (below.z - above.z) == above.y
}

/// What a run leaves: the files of each zoom, the rule file, and the tiles it looked at.
#[derive(Default, Clone)]
struct Staged {
    names: HashMap<u8, Vec<String>>,
    rules: String,
    looked_at: Vec<TileJob>,
}

impl Staged {
    fn settle(&mut self, run: &mut PmtilesRun, t: TileJob) {
        self.looked_at.push(t);
        assert!(run.is_ready_for(t));
        if let TileAction::Stage { coord, data, fill } = run.settle(outcome(t)) {
            assert!(write_temp_tile("out.tmp", coord, &data).is_ok());
            self.names.entry(coord.z).or_default().push(tile_filename(coord));
            if let Some(fill) = fill {
                self.rules += &append_uniform_fill(fill);
            }
        }
    }

    fn names(&self) -> Vec<Vec<String>> {
        (MIN_Z..=MAX_Z).map(|z| self.names.get(&z).cloned().unwrap_or_default()).collect()
    }

    fn archive(&self) -> Vec<BuildStep> {
        let rules = read_uniform_fills(&self.rules).unwrap();
        build_pmtiles_from_temp(&self.names(), &rules, &all_bounds(), MIN_Z, MAX_Z).unwrap().steps
    }
}

fn start() -> PmtilesRun {
    let bounds = all_bounds();
    let candidates = upper_bound_tiles(&bounds);
    let first = initial_frontier(areas()[0], MIN_Z);
    PmtilesRun::new(bounds, MAX_Z, MIN_Z, first, HashSet::new(), HashSet::new(), candidates)
}

fn finish(run: &mut PmtilesRun, staged: &mut Staged) {
    loop {
        while run.taken < run.frontier.len() {
            let (restored, work) = run.take_chunk();
            for t in restored {
                run.restore(t);
            }
            for t in work.into_iter().rev() {
                staged.settle(run, t);
            }
        }
        let last = run.z == run.max_z;
        let _ = run.finish_zoom();
        let distinct: HashSet<TileJob> = run.frontier.iter().copied().collect();
        assert_eq!(distinct.len(), run.frontier.len());
        if last {
            return;
        }
    }
}

fn whole_run() -> (PmtilesRun, Staged) {
    let mut run = start();
    let mut staged = Staged::default();
    finish(&mut run, &mut staged);
    (run, staged)
}

fn candidates() -> Vec<TileJob> {
    areas()
        .into_iter()
        .zip(MIN_Z..)
        .flat_map(|(area, z)| initial_frontier(area, z))
        .collect()
}

fn answers(t: TileJob) -> bool {
    !matches!(outcome(t), TileOutcome::Data { uniform_color: None, .. })
}

#[test]
fn area_makes_a_pyramid() {
    assert!(is_pyramid(&all_bounds(), MIN_Z, MAX_Z));
    assert_eq!(upper_bound_tiles(&all_bounds()), candidates().len() as u64);
}

#[test]
fn every_candidate_is_looked_at_or_answered_for() {
    let (_, staged) = whole_run();
    let distinct: HashSet<TileJob> = staged.looked_at.iter().copied().collect();
    assert_eq!(distinct.len(), staged.looked_at.len());
    for t in candidates() {
        let answered = staged.looked_at.iter().filter(|a| answers(**a) && covers(**a, t)).count();
        assert_eq!(answered + distinct.contains(&t) as usize, 1, "{:?}", t);
    }
}

#[test]
fn progress_ends_at_its_total() {
    let (run, _) = whole_run();
    let total = run.total;
    assert_eq!(total.checked + total.pruned + total.filled, candidates().len() as u64);
    assert_eq!(total.written + total.empty + total.errors, total.checked + total.filled);
    assert_eq!(run.progress.generation_done, candidates().len() as u64);
}

#[test]
fn archive_holds_what_was_made_and_what_was_filled() {
    let (run, staged) = whole_run();
    let steps = staged.archive();
    assert!(steps.windows(2).all(|pair| pair[0].id < pair[1].id));
    let held: HashSet<TileJob> = steps.iter().map(|step| step.tile).collect();
    for t in candidates() {
        let made =
            staged.looked_at.contains(&t) && !matches!(outcome(t), TileOutcome::Empty { .. });
        let root = staged.looked_at.iter().find(|a| {
            covers(**a, t)
                && matches!(outcome(**a), TileOutcome::Data { uniform_color: Some(_), .. })
        });
        assert_eq!(held.contains(&t), made || root.is_some(), "{:?}", t);
        if made {
            let step = steps.iter().find(|step| step.tile == t).unwrap();
            match step.source {
                TileSource::File { zoom, index } => {
                    assert_eq!(zoom, t.z);
                    assert_eq!(staged.names()[(zoom - MIN_Z) as usize][index], tile_filename(t));
                }
                TileSource::Color { .. } => panic!("a made tile"),
            }
        }
        if let Some(root) = root {
            let step = steps.iter().find(|step| step.tile == t).unwrap();
            match step.source {
                TileSource::Color { color } => assert_eq!(color, [root.z, 2, 3]),
                TileSource::File { .. } => panic!("a filled tile"),
            }
        }
    }
    assert_eq!(steps.len() as u64, run.total.written);
}

#[test]
fn interrupted_run_makes_the_same_archive() {
    let (_, uninterrupted) = whole_run();
    // Stop in the middle of the second zoom.
    let mut run = start();
    let mut staged = Staged::default();
    let (_, work) = run.take_chunk();
    for t in work {
        staged.settle(&mut run, t);
    }
    let _ = run.finish_zoom();
    let saved = write_frontier(&run.frontier);
    let (_, work) = run.take_chunk();
    for t in &work[..work.len() / 2] {
        staged.settle(&mut run, *t);
    }

    // Take it up again from what it left.
    let bounds = all_bounds();
    let mut again = PmtilesRun::new(
        bounds,
        MAX_Z,
        MIN_Z + 1,
        read_frontier(&saved).unwrap(),
        scan_existing_encoded(&staged.names()[1]),
        uniform_fill_roots(&staged.rules).unwrap(),
        candidates().len() as u64,
    );
    finish(&mut again, &mut staged);
    assert!(again.total.restored > 0);
    let tiles = |steps: Vec<BuildStep>| -> Vec<(u64, TileJob)> {
        steps.into_iter().map(|step| (step.id, step.tile)).collect()
    };
    assert_eq!(tiles(staged.archive()), tiles(uninterrupted.archive()));
}

#[test]
fn both_containers_visit_the_same_tiles() {
    let (_, staged) = whole_run();
    let mut run = MbtilesRun::new(
        all_bounds(),
        MAX_Z,
        MIN_Z,
        initial_frontier(areas()[0], MIN_Z),
        candidates().len() as u64,
    );
    let mut looked_at = HashSet::new();
    for _ in MIN_Z..=MAX_Z {
        run.begin_zoom(None, vec![]);
        while run.taken < run.frontier.len() {
            for t in run.take_chunk() {
                assert!(looked_at.insert(t));
                let _ = run.settle(outcome(t));
            }
        }
        let _ = run.finish_zoom();
    }
    assert_eq!(looked_at, staged.looked_at.into_iter().collect());
    assert_eq!(run.progress.position(), 10_000);
}

#[test]
fn different_tiles_are_staged_in_different_files() {
    let paths: HashSet<String> = candidates()
        .into_iter()
        .map(|t| write_temp_tile("out.tmp", t, &[1]).unwrap().path)
        .collect();
    assert_eq!(paths.len(), candidates().len());
}

/// An MBTiles file that is pulled away after some changes.
struct File {
    tiles: HashMap<TileJob, Option<[u8; 3]>>,
    frontiers: HashMap<u8, Vec<TileJob>>,
    zoom: Option<u8>,
    changes_left: usize,
}

impl File {
    /// Whether one more change goes through.
    fn changes(&mut self) -> bool {
        if self.changes_left == 0 {
            return false;
        }
        self.changes_left -= 1;
        true
    }

    fn load(&self, z: u8) -> Vec<TileJob> {
        self.frontiers.get(&z).cloned().unwrap_or_default()
    }

    fn apply(
        &mut self,
        steps: Vec<MbtilesStep>,
        queued: &[TileJob],
        remaining: &[TileJob],
    ) -> bool {
        for step in steps {
            if !self.changes() {
                return false;
            }
            match step {
                MbtilesStep::SaveQueued { zoom } => {
                    self.frontiers.insert(zoom, queued.to_vec());
                }
                MbtilesStep::SaveRemaining { zoom } => {
                    self.frontiers.insert(zoom, remaining.to_vec());
                }
                MbtilesStep::DropFrontier { zoom } => {
                    self.frontiers.remove(&zoom);
                }
                MbtilesStep::SetZoom { zoom } => self.zoom = Some(zoom),
            }
        }
        true
    }

    /// Runs until the end, or until the file is pulled away. Whether the end was reached.
    fn run(&mut self) -> bool {
        let status = self.zoom.map(|_| "processing_zoom".to_owned());
        let start = plan_start(true, status, Ok(self.zoom)).unwrap();
        let mut resumed = false;
        let (z, first) = match start {
            MbtilesStart::Resume { zoom } => {
                resumed = true;
                (zoom, self.load(zoom))
            }
            MbtilesStart::Create => {
                self.tiles.clear();
                self.frontiers.clear();
                let first = initial_frontier(areas()[0], MIN_Z);
                if !self.apply(plan_create(MIN_Z), &first, &[]) {
                    return false;
                }
                (MIN_Z, first)
            }
        };
        let mut run = MbtilesRun::new(all_bounds(), MAX_Z, z, first, candidates().len() as u64);
        loop {
            if !self.apply(run.plan_zoom(), &[], &[]) {
                return false;
            }
            let z = run.z;
            let saved =
                if run.wants_saved_frontier(resumed) { Some(self.load(z)) } else { None };
            resumed = false;
            let queued = if z < MAX_Z { self.load(z + 1) } else { vec![] };
            run.begin_zoom(saved, queued);
            while run.taken < run.frontier.len() {
                let chunk = run.take_chunk();
                let there: HashSet<u64> = self.tiles.keys().map(|t| tile_key(*t)).collect();
                let (restored, work) = split_chunk(&chunk, &there);
                for t in restored {
                    run.restore(t);
                }
                let mut written = HashMap::new();
                for t in work.into_iter().rev() {
                    if let MbtilesAction::Write { coord, fill, .. } = run.settle(outcome(t)) {
                        assert!(written.insert(coord, None).is_none());
                        if let Some(fill) = fill {
                            for below in fill.tiles {
                                assert!(written.insert(below, Some(fill.color)).is_none());
                            }
                        }
                    }
                }
                if !self.changes() {
                    return false;
                }
                self.tiles.extend(written);
                if !self.apply(run.end_chunk(), &run.next_frontier, &run.remaining()) {
                    return false;
                }
            }
            let last = z == MAX_Z;
            let steps = run.finish_zoom();
            if !self.apply(steps, &run.frontier, &[]) {
                return false;
            }
            if last {
                return true;
            }
        }
    }
}

fn new_file(changes_left: usize) -> File {
    File { tiles: HashMap::new(), frontiers: HashMap::new(), zoom: None, changes_left }
}

#[test]
fn file_holds_what_was_made_and_what_was_filled() {
    let mut file = new_file(usize::MAX);
    assert!(file.run());
    let (_, staged) = whole_run();
    for t in candidates() {
        let made =
            staged.looked_at.contains(&t) && !matches!(outcome(t), TileOutcome::Empty { .. });
        let root = staged.looked_at.iter().find(|a| {
            covers(**a, t)
                && matches!(outcome(**a), TileOutcome::Data { uniform_color: Some(_), .. })
        });
        let expected = if made { Some(None) } else { root.map(|root| Some([root.z, 2, 3])) };
        assert_eq!(file.tiles.get(&t).copied(), expected, "{:?}", t);
    }
}

#[test]
fn file_is_the_same_wherever_the_run_is_interrupted() {
    let mut whole = new_file(usize::MAX);
    assert!(whole.run());
    let mut interruptions = 0;
    loop {
        let mut file = new_file(interruptions);
        if file.run() {
            break;
        }
        // Each tile has its parent in the file, however far the run came.
        for t in file.tiles.keys().filter(|t| t.z > MIN_Z) {
            let parent = TileJob { z: t.z - 1, x: t.x / 2, y: t.y / 2 };
            assert!(file.tiles.contains_key(&parent), "{:?}", t);
        }
        // Once more, and then to the end.
        file.changes_left = interruptions % 7;
        if !file.run() {
            file.changes_left = usize::MAX;
            assert!(file.run());
        }
        assert_eq!(file.tiles, whole.tiles, "{}", interruptions);
        interruptions += 1;
    }
    assert!(interruptions > 20);
}
