use massif::frontier::{TileBounds, TileJob};
use massif::image_format::TileFormat;
use massif::mbtiles::{
    check_rows, current_zoom, metadata_rows, xyz_to_tms_y, CheckRow, ZoomError,
};
use massif::mbtiles_flow::{
    plan_create, plan_start, MbtilesAction, MbtilesRun, MbtilesStart, MbtilesStep,
};
use massif::pipeline::{split_chunk, TileOutcome};

fn tile(z: u8, x: u32, y: u32) -> TileJob {
    TileJob { z, x, y }
}

fn whole(z: u8) -> TileBounds {
    let last = (1u32 << z) - 1;
    TileBounds { z, x0: 0, x1: last, y0: 0, y1: last }
}

fn run_at(z: u8, frontier: Vec<TileJob>) -> MbtilesRun {
    MbtilesRun::new(vec![whole(1), whole(2), whole(3)], 3, z, frontier, 84)
}

#[test]
fn rows_count_from_the_south() {
    assert_eq!(xyz_to_tms_y(0, 0), 0);
    assert_eq!(xyz_to_tms_y(3, 0), 7);
    assert_eq!(xyz_to_tms_y(3, 7), 0);
    assert_eq!(xyz_to_tms_y(12, 1365), 4095 - 1365);
    assert_eq!(xyz_to_tms_y(31, 0), (1 << 31) - 1);
    assert_eq!(xyz_to_tms_y(3, 8), u32::MAX);
}

#[test]
fn rows_counted_twice_from_the_other_end() {
    for y in 0..16 {
        assert_eq!(xyz_to_tms_y(4, xyz_to_tms_y(4, y)), y);
    }
}

#[test]
fn metadata_of_a_file() {
    let rows = metadata_rows(TileFormat::Webp, 5, 12);
    let rows: Vec<(&str, &str)> =
        rows.iter().map(|row| (row.name.as_str(), row.value.as_str())).collect();
    assert_eq!(
        rows,
        vec![
            ("name", "massif"),
            ("format", "image/webp"),
            ("type", "baselayer"),
            ("version", "1.1"),
            ("minzoom", "5"),
            ("maxzoom", "12"),
        ]
    );
    assert_eq!(metadata_rows(TileFormat::Png, 0, 31)[1].value, "image/png");
    assert_eq!(metadata_rows(TileFormat::Png, 0, 31)[5].value, "31");
}

#[test]
fn tiles_are_looked_up_by_both_rows() {
    assert_eq!(
        check_rows(&[tile(3, 1, 2), tile(0, 0, 0)]),
        vec![
            CheckRow { z: 3, x: 1, y_xyz: 2, y_tms: 5 },
            CheckRow { z: 0, x: 0, y_xyz: 0, y_tms: 0 },
        ]
    );
}

#[test]
fn stored_zoom_is_a_number() {
    assert_eq!(current_zoom(None), Ok(None));
    assert_eq!(current_zoom(Some("12")), Ok(Some(12)));
    assert_eq!(current_zoom(Some("256")), Err(ZoomError::Invalid));
    assert_eq!(current_zoom(Some("")), Err(ZoomError::Invalid));
    assert_eq!(current_zoom(Some("twelve")), Err(ZoomError::Invalid));
}

#[test]
fn file_in_the_middle_of_a_zoom_is_gone_on_with() {
    let processing = || Some("processing_zoom".to_owned());
    assert_eq!(
        plan_start(true, processing(), Ok(Some(7))),
        Ok(MbtilesStart::Resume { zoom: 7 })
    );
    assert_eq!(plan_start(true, processing(), Ok(None)), Err(ZoomError::Missing));
    assert_eq!(plan_start(true, processing(), Err(ZoomError::Invalid)), Err(ZoomError::Invalid));
    assert_eq!(plan_start(true, Some("done".to_owned()), Ok(None)), Ok(MbtilesStart::Create));
    assert_eq!(plan_start(true, None, Ok(None)), Ok(MbtilesStart::Create));
    assert_eq!(plan_start(false, None, Ok(None)), Ok(MbtilesStart::Create));
}

#[test]
fn mbtiles_uniform_tile_is_written_with_its_descendants() {
    let mut run = run_at(2, vec![tile(2, 1, 1)]);
    let outcome =
        TileOutcome::Data { coord: tile(2, 1, 1), data: vec![9], uniform_color: Some([1, 2, 3]) };
    match run.settle(outcome) {
        MbtilesAction::Write { coord, data, fill: Some(fill) } => {
            assert_eq!((coord, data, fill.color), (tile(2, 1, 1), vec![9], [1, 2, 3]));
            assert_eq!(
                fill.tiles,
                vec![tile(3, 2, 2), tile(3, 2, 3), tile(3, 3, 2), tile(3, 3, 3)]
            );
        }
        _ => panic!("a write with a fill"),
    }
    assert!(run.next_frontier.is_empty());
    assert_eq!((run.total.written, run.total.filled), (5, 4));
    assert_eq!(run.progress.generation_done, 5);
}

#[test]
fn mbtiles_tile_with_data_queues_its_children_once() {
    let mut run = run_at(2, vec![tile(2, 1, 1)]);
    run.begin_zoom(None, vec![tile(3, 2, 2)]);
    let outcome =
        TileOutcome::Data { coord: tile(2, 1, 1), data: vec![9], uniform_color: None };
    assert!(matches!(run.settle(outcome), MbtilesAction::Write { fill: None, .. }));
    assert_eq!(
        run.next_frontier,
        vec![tile(3, 2, 2), tile(3, 3, 2), tile(3, 2, 3), tile(3, 3, 3)]
    );
    run.restore(tile(2, 1, 1));
    assert_eq!(run.next_frontier.len(), 4);
    assert_eq!((run.total.restored, run.total.written, run.total.checked), (1, 2, 2));
}

#[test]
fn mbtiles_empty_and_failed_tiles() {
    let mut run = run_at(1, vec![tile(1, 0, 0), tile(1, 1, 0)]);
    assert!(matches!(run.settle(TileOutcome::Empty { coord: tile(1, 0, 0) }), MbtilesAction::Skip));
    assert_eq!(run.total.pruned, 20);
    let failed = TileOutcome::Error { coord: tile(1, 1, 0), error: "bad".to_owned() };
    match run.settle(failed) {
        MbtilesAction::Warn { message } => assert_eq!(message, "Warning: tile 1/1/0 failed: bad"),
        _ => panic!("a warning"),
    }
    assert_eq!(run.progress.generation_done, 22);
}

#[test]
fn mbtiles_chunks_and_what_remains() {
    let tiles: Vec<TileJob> = (0..5000).map(|i| tile(13, i, 0)).collect();
    let mut run = MbtilesRun::new(vec![whole(13)], 13, 13, tiles.clone(), 5000);
    let chunk = run.take_chunk();
    assert_eq!(chunk, tiles[..4096]);
    assert_eq!(run.remaining(), tiles[4096..]);
    assert_eq!(run.take_chunk(), tiles[4096..]);
    assert!(run.remaining().is_empty());
    assert_eq!(split_chunk(&chunk, &Default::default()).1, chunk);
}

#[test]
fn mbtiles_saves_what_is_queued_before_what_remains() {
    let run = run_at(2, vec![]);
    assert_eq!(
        run.end_chunk(),
        vec![
            MbtilesStep::SaveQueued { zoom: 3 },
            MbtilesStep::SaveRemaining { zoom: 2 },
            MbtilesStep::SetZoom { zoom: 2 },
        ]
    );
    assert_eq!(
        run_at(3, vec![]).end_chunk(),
        vec![MbtilesStep::SaveRemaining { zoom: 3 }, MbtilesStep::SetZoom { zoom: 3 }]
    );
}

#[test]
fn mbtiles_zoom_ends_with_what_is_queued() {
    let mut run = run_at(2, vec![]);
    run.begin_zoom(None, vec![tile(3, 1, 1)]);
    assert_eq!(
        run.finish_zoom(),
        vec![
            MbtilesStep::DropFrontier { zoom: 2 },
            MbtilesStep::SaveQueued { zoom: 3 },
            MbtilesStep::SetZoom { zoom: 3 },
        ]
    );
    assert_eq!((run.z, run.frontier.clone()), (3, vec![tile(3, 1, 1)]));
    let _ = run.take_chunk();
    assert_eq!(run.finish_zoom(), vec![MbtilesStep::DropFrontier { zoom: 3 }]);
    assert!(run.frontier.is_empty());
}

#[test]
fn mbtiles_whole_run_accounts_for_every_candidate() {
    let mut run = run_at(1, vec![tile(1, 0, 0), tile(1, 0, 1), tile(1, 1, 0), tile(1, 1, 1)]);
    for _ in 1..=3 {
        run.begin_zoom(None, vec![]);
        while run.taken < run.frontier.len() {
            for t in run.take_chunk() {
                assert!(run.is_ready_for(t));
                let uniform_color = if t.x % 2 == 0 { Some([1, 1, 1]) } else { None };
                let _ = run.settle(TileOutcome::Data { coord: t, data: vec![1], uniform_color });
            }
        }
        let _ = run.finish_zoom();
    }
    assert_eq!(run.total.checked + run.total.filled, 84);
    assert_eq!(run.progress.position(), 10_000);
}

#[test]
fn mbtiles_frontier_is_taken_from_the_file_when_there_is_none() {
    let mut run = run_at(2, vec![]);
    assert!(run.wants_saved_frontier(false));
    assert!(!run.wants_saved_frontier(true));
    run.begin_zoom(Some(vec![tile(2, 1, 1)]), vec![]);
    assert_eq!(run.frontier, vec![tile(2, 1, 1)]);
    assert!(!run.wants_saved_frontier(false));
    run.begin_zoom(None, vec![tile(3, 2, 2)]);
    assert_eq!((run.frontier.len(), run.next_frontier.len()), (1, 1));
}

#[test]
fn mbtiles_run_starts_with_its_frontier_before_its_zoom() {
    assert_eq!(
        plan_create(5),
        vec![MbtilesStep::SaveQueued { zoom: 5 }, MbtilesStep::SetZoom { zoom: 5 }]
    );
    assert_eq!(run_at(2, vec![]).plan_zoom(), vec![MbtilesStep::SetZoom { zoom: 2 }]);
}
