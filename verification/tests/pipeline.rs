use std::collections::HashSet;

use massif::frontier::{tile_key, TileBounds, TileJob};
use massif::pipeline::{
    append_children_unique_in_bounds, failure_message, process_tile_job, split_chunk,
    tile_label_text, Handling, ProcessedTile, TileOutcome, TileStats, TALLY_LIMIT,
};

fn tile(z: u8, x: u32, y: u32) -> TileJob {
    TileJob { z, x, y }
}

#[test]
fn outcome_says_what_processing_gave() {
    let t = tile(3, 1, 2);
    let data = ProcessedTile { data: vec![1, 2], uniform_color: Some([4, 5, 6]) };
    match process_tile_job(t, Ok(Some(data))) {
        TileOutcome::Data { coord, data, uniform_color } => {
            assert_eq!((coord, data, uniform_color), (t, vec![1, 2], Some([4, 5, 6])));
        }
        _ => panic!("data"),
    }
    assert!(matches!(process_tile_job(t, Ok(None)), TileOutcome::Empty { coord } if coord == t));
    match process_tile_job(t, Err("no such file".to_owned())) {
        TileOutcome::Error { coord, error } => assert_eq!((coord, error.as_str()), (t, "no such file")),
        _ => panic!("an error"),
    }
}

#[test]
fn tally_counts() {
    let mut stats = TileStats::default();
    stats.add_checked();
    stats.add_checked();
    stats.add_written();
    stats.add_written_n(5);
    stats.add_empty();
    stats.add_error();
    stats.add_restored();
    stats.add_pruned(7);
    stats.add_filled(9);
    assert_eq!(
        stats,
        TileStats {
            checked: 2,
            written: 6,
            empty: 1,
            errors: 1,
            restored: 1,
            pruned: 7,
            filled: 9
        }
    );
}

#[test]
fn tally_knows_its_room() {
    let mut stats = TileStats::default();
    assert!(stats.room());
    stats.add_filled(TALLY_LIMIT);
    assert!(stats.room());
    stats.add_filled(1);
    assert!(!stats.room());
}

#[test]
fn children_are_queued_once() {
    let bounds = [TileBounds { z: 3, x0: 0, x1: 7, y0: 0, y1: 7 }];
    let mut next = vec![tile(3, 2, 2)];
    let mut keys: HashSet<u64> = next.iter().map(|t| tile_key(*t)).collect();
    append_children_unique_in_bounds(tile(2, 1, 1), &mut next, &mut keys, 5, &bounds);
    assert_eq!(next, vec![tile(3, 2, 2), tile(3, 3, 2), tile(3, 2, 3), tile(3, 3, 3)]);
    assert_eq!(keys.len(), 4);
    append_children_unique_in_bounds(tile(2, 1, 1), &mut next, &mut keys, 5, &bounds);
    assert_eq!(next.len(), 4);
    append_children_unique_in_bounds(tile(2, 0, 0), &mut next, &mut keys, 5, &bounds);
    assert_eq!(next.len(), 8);
    assert!(keys.contains(&tile_key(tile(3, 0, 1))));
}

#[test]
fn chunk_comes_apart_in_order() {
    let chunk = [tile(2, 0, 0), tile(2, 1, 0), tile(2, 2, 0), tile(2, 3, 0)];
    let existing: HashSet<u64> = [tile_key(chunk[3]), tile_key(chunk[1])].into_iter().collect();
    let (restored, work) = split_chunk(&chunk, &existing);
    assert_eq!(restored, vec![chunk[1], chunk[3]]);
    assert_eq!(work, vec![chunk[0], chunk[2]]);
}

#[test]
fn failures_are_reported_with_the_tile() {
    assert_eq!(tile_label_text(tile(12, 3456, 7)), "12/3456/7");
    assert_eq!(
        failure_message(tile(12, 3456, 7), "read_as: out of disk"),
        "Warning: tile 12/3456/7 failed: read_as: out of disk"
    );
}

#[test]
fn first_error_ends_the_handling() {
    let mut handling = Handling::new();
    assert!(handling.goes_on());
    handling.take(Ok(()));
    assert!(handling.goes_on());
    handling.take(Err("first"));
    assert!(!handling.goes_on());
    handling.take(Err("second"));
    handling.take(Ok(()));
    assert_eq!(handling.end(), Err("first"));
    assert_eq!(Handling::<u8>::new().end(), Ok(()));
}
