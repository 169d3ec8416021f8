use std::collections::HashSet;

use massif::frontier::{initial_frontier, tile_key, TileBounds, TileJob, TileSpan};
use massif::pipeline::{TileOutcome, TileStats};
use massif::pmtiles_flow::{
    plan_build, plan_build_from_temp, plan_finish, plan_finish_from_temp, plan_repair, plan_restore, plan_resume, plan_start,
    settle_repair,
    state_for, validate_state, BuildError, PmtilesRun, RepairAction, RepairError, RepairPlan,
    Resume, ResumeError, RunStatus, SpoolStep, TileAction,
};
use massif::pyramid::upper_bound_tiles;

fn tile(z: u8, x: u32, y: u32) -> TileJob {
    TileJob { z, x, y }
}

fn whole(z: u8) -> TileBounds {
    let last = (1u32 << z) - 1;
    TileBounds { z, x0: 0, x1: last, y0: 0, y1: last }
}

fn data(coord: TileJob) -> TileOutcome {
    TileOutcome::Data { coord, data: vec![1], uniform_color: None }
}

fn uniform(coord: TileJob) -> TileOutcome {
    TileOutcome::Data { coord, data: vec![1], uniform_color: Some([5, 6, 7]) }
}

fn keys(tiles: &[TileJob]) -> HashSet<u64> {
    tiles.iter().map(|t| tile_key(*t)).collect()
}

fn run_at(z: u8, frontier: Vec<TileJob>, existing: &[TileJob], roots: &[TileJob]) -> PmtilesRun {
    let bounds = vec![whole(1), whole(2), whole(3)];
    let candidates = upper_bound_tiles(&bounds);
    PmtilesRun::new(bounds, 3, z, frontier, keys(existing), keys(roots), candidates)
}

#[test]
fn state_of_a_run() {
    let state = state_for(5, 12, "out.pmtiles", RunStatus::ProcessingZoom, 7);
    assert_eq!(state.version, 1);
    assert_eq!(state.format, "pmtiles");
    assert_eq!(state.status, "processing_zoom");
    assert_eq!((state.min_zoom, state.max_zoom, state.current_zoom), (5, 12, 7));
    assert_eq!(state.output, "out.pmtiles");
    assert_eq!(RunStatus::AllTilesDone.name(), "all_tiles_done");
    assert_eq!(RunStatus::WritingPmtiles.name(), "writing_pmtiles");
    assert_eq!(RunStatus::Done.name(), "done");
}

#[test]
fn state_of_another_run_is_refused() {
    let state = || state_for(5, 12, "out.pmtiles", RunStatus::Done, 12);
    assert!(validate_state(5, 12, "out.pmtiles", &state()).is_ok());
    assert!(validate_state(4, 12, "out.pmtiles", &state()).is_err());
    assert!(validate_state(5, 13, "out.pmtiles", &state()).is_err());
    assert!(validate_state(5, 12, "other.pmtiles", &state()).is_err());
    let mut newer = state();
    newer.version = 2;
    assert!(matches!(
        validate_state(5, 12, "out.pmtiles", &newer),
        Err(ResumeError::Mismatch)
    ));
    let mut foreign = state();
    foreign.format = "mbtiles".to_owned();
    assert!(validate_state(5, 12, "out.pmtiles", &foreign).is_err());
}

#[test]
fn run_is_taken_up_where_it_stood() {
    let resume = |status, zoom| {
        let state = state_for(5, 12, "out", status, zoom);
        plan_resume(5, 12, "out", Some(&state)).ok()
    };
    assert_eq!(resume(RunStatus::ProcessingZoom, 8), Some(Resume::AtZoom { zoom: 8 }));
    assert_eq!(resume(RunStatus::AllTilesDone, 12), Some(Resume::Build { drop_partial: false }));
    assert_eq!(resume(RunStatus::WritingPmtiles, 12), Some(Resume::Build { drop_partial: true }));
    assert_eq!(resume(RunStatus::Done, 12), Some(Resume::Finished));
    assert_eq!(plan_resume(5, 12, "out", None).ok(), Some(Resume::Fresh));
}

#[test]
fn run_that_cannot_be_taken_up() {
    let mut state = state_for(5, 12, "out", RunStatus::Done, 12);
    assert!(matches!(plan_resume(5, 11, "out", Some(&state)), Err(ResumeError::Mismatch)));
    state.status = "paused".to_owned();
    match plan_resume(5, 12, "out", Some(&state)) {
        Err(ResumeError::UnknownStatus { status }) => assert_eq!(status, "paused"),
        _ => panic!("an unknown stage"),
    }
}

#[test]
fn archive_from_what_is_staged() {
    let state = state_for(5, 12, "out", RunStatus::AllTilesDone, 12);
    assert!(plan_build_from_temp(5, 12, "out", true, Some(&state)).is_ok());
    assert!(plan_build_from_temp(5, 12, "out", true, None).is_ok());
    assert!(matches!(
        plan_build_from_temp(5, 12, "out", false, None),
        Err(BuildError::NothingStaged)
    ));
    assert!(matches!(
        plan_build_from_temp(5, 10, "out", true, Some(&state)),
        Err(BuildError::Mismatch)
    ));
}

#[test]
fn tile_with_data_is_staged_and_expanded() {
    let mut run = run_at(1, vec![tile(1, 0, 0)], &[], &[]);
    match run.settle(data(tile(1, 0, 0))) {
        TileAction::Stage { coord, data, fill } => {
            assert_eq!((coord, data, fill.is_none()), (tile(1, 0, 0), vec![1], true));
        }
        _ => panic!("staged"),
    }
    assert_eq!(
        run.next_frontier,
        vec![tile(2, 0, 0), tile(2, 1, 0), tile(2, 0, 1), tile(2, 1, 1)]
    );
    assert_eq!((run.total.checked, run.total.written), (1, 1));
    assert_eq!(run.progress.generation_done, 1);
}

#[test]
fn empty_tile_prunes_what_lies_below() {
    let mut run = run_at(1, vec![tile(1, 0, 0)], &[], &[]);
    assert!(matches!(run.settle(TileOutcome::Empty { coord: tile(1, 0, 0) }), TileAction::Skip));
    assert!(run.next_frontier.is_empty());
    assert_eq!((run.total.empty, run.total.pruned), (1, 4 + 16));
    assert_eq!(run.progress.generation_done, 1 + 4 + 16);
    assert_eq!(run.zoom, run.total);
}

#[test]
fn uniform_tile_fills_what_lies_below() {
    let mut run = run_at(1, vec![tile(1, 0, 0)], &[], &[]);
    match run.settle(uniform(tile(1, 0, 0))) {
        TileAction::Stage { fill: Some(fill), .. } => {
            assert_eq!((fill.root, fill.color), (tile(1, 0, 0), [5, 6, 7]));
        }
        _ => panic!("staged with a rule"),
    }
    assert!(run.next_frontier.is_empty());
    assert!(run.fill_roots.contains(&tile_key(tile(1, 0, 0))));
    assert_eq!((run.total.written, run.total.filled), (21, 20));
    assert_eq!(run.progress.generation_done, 21);
}

#[test]
fn uniform_tile_of_the_last_zoom_needs_no_rule() {
    let mut run = run_at(3, vec![tile(3, 0, 0)], &[], &[]);
    assert!(matches!(
        run.settle(uniform(tile(3, 0, 0))),
        TileAction::Stage { fill: None, .. }
    ));
    assert!(run.fill_roots.is_empty());
    assert_eq!((run.total.written, run.total.filled), (1, 0));
}

#[test]
fn failed_tile_is_reported() {
    let mut run = run_at(1, vec![tile(1, 0, 0)], &[], &[]);
    let failed = TileOutcome::Error { coord: tile(1, 0, 0), error: "bad block".to_owned() };
    match run.settle(failed) {
        TileAction::Warn { message } => {
            assert_eq!(message, "Warning: tile 1/0/0 failed: bad block")
        }
        _ => panic!("a warning"),
    }
    assert_eq!((run.total.errors, run.total.checked), (1, 1));
    assert_eq!(run.progress.generation_done, 1);
    assert!(run.next_frontier.is_empty());
}

#[test]
fn restored_tile_counts_as_when_it_was_made() {
    for (root, outcome) in [(false, data(tile(1, 1, 0))), (true, uniform(tile(1, 1, 0)))] {
        let mut made = run_at(1, vec![tile(1, 1, 0)], &[], &[]);
        let _ = made.settle(outcome);
        let roots = if root { vec![tile(1, 1, 0)] } else { vec![] };
        let mut again = run_at(1, vec![tile(1, 1, 0)], &[tile(1, 1, 0)], &roots);
        let (restored, work) = again.take_chunk();
        assert_eq!((restored.len(), work.len()), (1, 0));
        again.restore(restored[0]);
        assert_eq!(again.next_frontier, made.next_frontier);
        assert_eq!(again.progress, made.progress);
        assert_eq!(again.total, TileStats { restored: 1, ..made.total });
    }
}

#[test]
fn restored_uniform_tile_without_its_rule_is_expanded() {
    let mut run = run_at(2, vec![tile(2, 0, 0)], &[tile(2, 0, 0)], &[]);
    run.restore(tile(2, 0, 0));
    assert_eq!(run.next_frontier.len(), 4);
    assert_eq!(run.total.filled, 0);
}

#[test]
fn frontier_is_taken_in_chunks() {
    let bounds = vec![TileBounds { z: 10, x0: 0, x1: 1023, y0: 0, y1: 1023 }];
    let tiles = initial_frontier(TileSpan { x0: 0, x1: 8, y0: 0, y1: 999 }, 10);
    let existing = keys(&tiles[..3]);
    let mut run = PmtilesRun::new(bounds, 10, 10, tiles.clone(), existing, HashSet::new(), 9_000);
    let (restored, work) = run.take_chunk();
    assert_eq!(restored, tiles[..3]);
    assert_eq!(work, tiles[3..4096]);
    assert_eq!(run.take_chunk().1, tiles[4096..8192]);
    assert_eq!(run.take_chunk().1, tiles[8192..]);
    assert_eq!(run.taken, 9_000);
    assert!(run.take_chunk().1.is_empty());
}

#[test]
fn zoom_ends_with_the_next_frontier_saved_first() {
    let mut run = run_at(1, vec![tile(1, 0, 0)], &[tile(1, 0, 0)], &[]);
    let (restored, _) = run.take_chunk();
    run.restore(restored[0]);
    let next = run.next_frontier.clone();
    let steps = run.finish_zoom();
    assert_eq!(
        steps,
        vec![
            SpoolStep::SaveFrontier { zoom: 2 },
            SpoolStep::SaveState { status: RunStatus::ProcessingZoom, zoom: 2 },
            SpoolStep::DropFrontier { zoom: 1 },
        ]
    );
    assert_eq!((run.z, run.frontier, run.taken), (2, next, 0));
    assert!(run.existing.is_empty());
    assert!(run.next_frontier.is_empty());
    assert_eq!(run.zoom, TileStats::default());
    assert_eq!(run.total.restored, 1);
}

#[test]
fn last_zoom_ends_generation() {
    let mut run = run_at(3, vec![], &[], &[]);
    assert_eq!(
        run.finish_zoom(),
        vec![
            SpoolStep::SaveState { status: RunStatus::AllTilesDone, zoom: 3 },
            SpoolStep::DropFrontier { zoom: 3 },
        ]
    );
    assert_eq!(run.z, 3);
}

#[test]
fn run_starts_with_its_frontier_before_its_state() {
    assert_eq!(
        plan_start(5),
        vec![
            SpoolStep::Clear,
            SpoolStep::SaveFrontier { zoom: 5 },
            SpoolStep::SaveState { status: RunStatus::ProcessingZoom, zoom: 5 },
        ]
    );
}

#[test]
fn run_ends_with_its_state_before_it_is_cleared() {
    let done = SpoolStep::SaveState { status: RunStatus::Done, zoom: 12 };
    assert_eq!(plan_finish(12, true), vec![done]);
    assert_eq!(plan_finish(12, false), vec![done, SpoolStep::Clear]);
}

#[test]
fn archive_is_announced_before_it_is_written() {
    let writing = SpoolStep::SaveState { status: RunStatus::WritingPmtiles, zoom: 12 };
    assert_eq!(plan_build(12), vec![writing]);
}

#[test]
fn build_from_staged_tiles_keeps_them() {
    let done = SpoolStep::SaveState { status: RunStatus::Done, zoom: 12 };
    assert_eq!(plan_finish_from_temp(12), vec![done]);
}

#[test]
fn zoom_begins_with_its_state_and_a_place_for_its_tiles() {
    assert_eq!(
        run_at(2, vec![], &[], &[]).begin_zoom(),
        vec![
            SpoolStep::SaveState { status: RunStatus::ProcessingZoom, zoom: 2 },
            SpoolStep::PrepareTiles { zoom: 2 },
        ]
    );
}

#[test]
fn run_is_cleaned_up_before_it_is_taken_up() {
    assert_eq!(
        plan_restore(7),
        vec![
            SpoolStep::DropUnfinishedTiles { zoom: 7 },
            SpoolStep::DropUnfinishedFrontiers,
            SpoolStep::DropFrontier { zoom: 8 },
        ]
    );
    assert_eq!(plan_restore(255)[2], SpoolStep::DropFrontier { zoom: 255 });
}

#[test]
fn whole_run_accounts_for_every_candidate() {
    let mut run = run_at(1, vec![tile(1, 0, 0), tile(1, 0, 1), tile(1, 1, 0), tile(1, 1, 1)], &[], &[]);
    for z in 1..=3u8 {
        assert_eq!(run.z, z);
        while run.taken < run.frontier.len() {
            let (_, mut work) = run.take_chunk();
            work.reverse();
            for t in work {
                assert!(run.is_ready_for(t));
                let outcome = match (t.x + t.y) % 3 {
                    0 => data(t),
                    1 => TileOutcome::Empty { coord: t },
                    _ => uniform(t),
                };
                let _ = run.settle(outcome);
            }
        }
        let _ = run.finish_zoom();
    }
    assert!(run.frontier.is_empty());
    let total = run.total;
    assert_eq!(total.checked + total.pruned + total.filled, 4 + 16 + 64);
    assert_eq!(total.written + total.empty, total.checked + total.filled);
    assert_eq!(run.progress.generation_done, run.progress.generation_total);
    assert_eq!(run.progress.position(), 9_000);
}

#[test]
fn full_tally_takes_no_more() {
    let mut run = run_at(1, vec![tile(1, 0, 0)], &[], &[]);
    assert!(run.is_ready_for(tile(1, 0, 0)));
    assert!(!run.is_ready_for(tile(1, 1 << 31, 0)));
    assert!(run.is_ready_for(tile(3, u32::MAX, 0)));
    run.total.add_filled(u64::MAX);
    assert!(!run.is_ready_for(tile(1, 0, 0)));
}

#[test]
fn repair_makes_skipped_tiles_again() {
    let skipped = [tile(7, 0, 0), tile(5, 1, 1), tile(7, 3, 3)];
    match plan_repair(&skipped, 5, 12, true) {
        Ok(RepairPlan::Repair { zooms }) => assert_eq!(zooms, vec![5, 7]),
        _ => panic!("a repair"),
    }
    assert!(matches!(plan_repair(&[], 5, 12, false), Ok(RepairPlan::Nothing)));
}

#[test]
fn repair_that_cannot_be_done() {
    let skipped = [tile(7, 0, 0), tile(4, 1, 1), tile(13, 3, 3)];
    assert_eq!(
        plan_repair(&skipped, 5, 12, false).err(),
        Some(RepairError::OutsideZooms { tile: tile(4, 1, 1) })
    );
    assert_eq!(
        plan_repair(&skipped[2..], 5, 12, true).err(),
        Some(RepairError::OutsideZooms { tile: tile(13, 3, 3) })
    );
    assert_eq!(plan_repair(&skipped[..1], 5, 12, false).err(), Some(RepairError::NothingStaged));
}

#[test]
fn repaired_tiles_are_counted() {
    let mut stats = TileStats::default();
    match settle_repair(&mut stats, uniform(tile(7, 0, 0))) {
        RepairAction::Stage { coord, data } => assert_eq!((coord, data), (tile(7, 0, 0), vec![1])),
        _ => panic!("staged"),
    }
    match settle_repair(&mut stats, TileOutcome::Empty { coord: tile(7, 1, 0) }) {
        RepairAction::Warn { message } => assert_eq!(
            message,
            "Warning: regenerated skipped PMTiles tile 7/1/0 is empty; not written"
        ),
        _ => panic!("a warning"),
    }
    let failed = TileOutcome::Error { coord: tile(7, 2, 0), error: "no".to_owned() };
    match settle_repair(&mut stats, failed) {
        RepairAction::Warn { message } => {
            assert_eq!(message, "Warning: skipped PMTiles tile 7/2/0 failed again: no")
        }
        _ => panic!("a warning"),
    }
    assert_eq!(
        stats,
        TileStats { checked: 3, written: 1, empty: 1, errors: 1, ..TileStats::default() }
    );
}
