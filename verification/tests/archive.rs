use massif::archive::{
    build_pmtiles_from_temp, collect_zoom_temp_files, count_pmtiles_temp_tiles, fill_descendants,
    fill_descendants_by_zoom, merge_zoom, BuildLog, BuildStep, TileSource,
};
use massif::frontier::{TileBounds, TileJob};
use massif::spool::UniformFill;
use massif::tile_id::{pmtiles_tile_id, TileIdError};

fn tile(z: u8, x: u32, y: u32) -> TileJob {
    TileJob { z, x, y }
}

fn strings(names: &[&str]) -> Vec<String> {
    names.iter().map(|name| name.to_string()).collect()
}

fn whole(z: u8) -> TileBounds {
    let last = (1u32 << z) - 1;
    TileBounds { z, x0: 0, x1: last, y0: 0, y1: last }
}

fn tiles(steps: &[BuildStep]) -> Vec<TileJob> {
    steps.iter().map(|step| step.tile).collect()
}

fn ids_rise(steps: &[BuildStep]) -> bool {
    steps.windows(2).all(|pair| pair[0].id < pair[1].id)
}

#[test]
fn staged_files_come_by_id() {
    let names = strings(&["1_1_0", "readme", "1_0_0", "1_1_1", "1_0_1"]);
    let steps = collect_zoom_temp_files(1, &names).unwrap();
    assert_eq!(tiles(&steps), vec![tile(1, 0, 0), tile(1, 0, 1), tile(1, 1, 1), tile(1, 1, 0)]);
    let ids: Vec<u64> = steps.iter().map(|step| step.id).collect();
    assert_eq!(ids, vec![1, 2, 3, 4]);
    let places: Vec<usize> = steps
        .iter()
        .map(|step| match step.source {
            TileSource::File { zoom: 1, index } => index,
            _ => panic!("a file"),
        })
        .collect();
    assert_eq!(places, vec![2, 4, 3, 0]);
}

#[test]
fn staged_files_of_one_tile_stay_in_order() {
    let names = strings(&["1_1_0", "1_01_0", "1_0_0", "1_+1_0"]);
    let steps = collect_zoom_temp_files(1, &names).unwrap();
    let places: Vec<usize> = steps
        .iter()
        .map(|step| match step.source {
            TileSource::File { index, .. } => index,
            _ => panic!("a file"),
        })
        .collect();
    assert_eq!(places, vec![2, 0, 1, 3]);
}

#[test]
fn staged_files_must_be_of_tiles_that_exist() {
    let names = strings(&["2_1_1", "2_4_0", "9_600_0"]);
    assert_eq!(
        collect_zoom_temp_files(2, &names).err(),
        Some(TileIdError::NoSuchTile { tile: tile(2, 4, 0) })
    );
}

#[test]
fn staged_files_are_counted() {
    let names = vec![strings(&["1_0_0", "x"]), strings(&[]), strings(&["3_0_0", "3_1_1", "3_2"])];
    assert_eq!(count_pmtiles_temp_tiles(&names), 3);
}

#[test]
fn first_rule_colors_a_tile() {
    let bounds = [whole(1), whole(2), whole(3)];
    let rules = [
        UniformFill { root: tile(2, 1, 1), color: [1, 1, 1] },
        UniformFill { root: tile(1, 0, 0), color: [2, 2, 2] },
    ];
    let steps = fill_descendants(&rules, &bounds, 3).unwrap();
    // Four tiles below the first root; four and sixteen below the second, less those four.
    assert_eq!(steps.len(), 4 + 4 + 12);
    for step in &steps {
        let below_first = step.tile.z == 3 && step.tile.x / 2 == 1 && step.tile.y / 2 == 1;
        let expected = if below_first { [1, 1, 1] } else { [2, 2, 2] };
        match step.source {
            TileSource::Color { color } => assert_eq!(color, expected),
            _ => panic!("a colour"),
        }
        assert_eq!(Ok(step.id), pmtiles_tile_id(step.tile));
    }
    let at_2 = fill_descendants_by_zoom(&steps, 2);
    assert_eq!(at_2.len(), 4);
    assert!(ids_rise(&at_2));
    assert_eq!(fill_descendants_by_zoom(&steps, 3).len(), 16);
    assert!(fill_descendants_by_zoom(&steps, 1).is_empty());
}

#[test]
fn filled_tiles_must_exist() {
    let bounds = [TileBounds { z: 2, x0: 0, x1: 9, y0: 0, y1: 3 }];
    let rules = [UniformFill { root: tile(1, 2, 0), color: [1, 1, 1] }];
    assert_eq!(
        fill_descendants(&rules, &bounds, 2).err(),
        Some(TileIdError::NoSuchTile { tile: tile(2, 4, 0) })
    );
}

#[test]
fn staged_file_stands_in_for_its_fill() {
    let files = collect_zoom_temp_files(1, &strings(&["1_0_1"])).unwrap();
    let rules = [UniformFill { root: tile(0, 0, 0), color: [7, 7, 7] }];
    let fills = fill_descendants(&rules, &[whole(1)], 1).unwrap();
    let steps = merge_zoom(&files, &fill_descendants_by_zoom(&fills, 1));
    assert_eq!(tiles(&steps), vec![tile(1, 0, 0), tile(1, 0, 1), tile(1, 1, 1), tile(1, 1, 0)]);
    assert!(matches!(steps[0].source, TileSource::Color { color: [7, 7, 7] }));
    assert!(matches!(steps[1].source, TileSource::File { zoom: 1, index: 0 }));
    assert!(matches!(steps[2].source, TileSource::Color { .. }));
}

#[test]
fn file_goes_before_a_fill_of_the_same_id() {
    let step = |id, x, source| BuildStep { id, tile: tile(1, x, 0), source };
    let file = TileSource::File { zoom: 1, index: 0 };
    let color = TileSource::Color { color: [1, 1, 1] };
    let steps = merge_zoom(
        &[step(5, 0, file), step(9, 1, file)],
        &[step(4, 2, color), step(5, 3, color), step(10, 4, color)],
    );
    let order: Vec<(u64, u32)> = steps.iter().map(|s| (s.id, s.tile.x)).collect();
    assert_eq!(order, vec![(4, 2), (5, 0), (5, 3), (9, 1), (10, 4)]);
}

#[test]
fn archive_goes_through_its_zooms_by_id() {
    let bounds = [whole(1), whole(2), whole(3)];
    let names = vec![
        strings(&["1_1_0", "1_0_0"]),
        strings(&["2_2_0", "2_3_3"]),
        strings(&[]),
    ];
    let rules = [UniformFill { root: tile(1, 0, 0), color: [7, 7, 7] }];
    let plan = build_pmtiles_from_temp(&names, &rules, &bounds, 1, 3).unwrap();
    assert_eq!(plan.filled, 4 + 16);
    assert_eq!(plan.steps.len(), 2 + (2 + 4) + 16);
    assert!(ids_rise(&plan.steps));
    let zooms: Vec<u8> = plan.steps.iter().map(|step| step.tile.z).collect();
    assert!(zooms.windows(2).all(|pair| pair[0] <= pair[1]));
}

#[test]
fn archive_of_nothing_is_empty() {
    let plan = build_pmtiles_from_temp(&[vec![], vec![]], &[], &[whole(1), whole(2)], 1, 2).unwrap();
    assert_eq!((plan.filled, plan.steps.len()), (0, 0));
}

#[test]
fn archive_cannot_be_planned_with_tiles_that_do_not_exist() {
    let bad_file = vec![strings(&["1_0_0"]), strings(&["2_9_9"])];
    assert_eq!(
        build_pmtiles_from_temp(&bad_file, &[], &[whole(1), whole(2)], 1, 2).err(),
        Some(TileIdError::NoSuchTile { tile: tile(2, 9, 9) })
    );
    let wide = [TileBounds { z: 2, x0: 0, x1: 9, y0: 0, y1: 3 }];
    let rules = [UniformFill { root: tile(1, 2, 0), color: [1, 1, 1] }];
    assert_eq!(
        build_pmtiles_from_temp(&bad_file, &rules, &wide, 1, 2).err(),
        Some(TileIdError::NoSuchTile { tile: tile(2, 4, 0) })
    );
}

#[test]
fn unreadable_and_empty_tiles_are_skipped_and_logged() {
    let mut log = BuildLog::new();
    assert_eq!(log.offer(tile(1, 0, 0), Some(vec![1, 2])), Some(vec![1, 2]));
    assert_eq!(log.offer(tile(1, 0, 1), None), None);
    assert_eq!(log.offer(tile(1, 1, 1), Some(vec![])), None);
    log.add_filled();
    assert_eq!(log.written, 2);
    assert_eq!(log.skipped, vec![tile(1, 0, 1), tile(1, 1, 1)]);
    assert!(log.keeps_temp(false));
}

#[test]
fn staging_directory_goes_when_nothing_is_missing() {
    let mut log = BuildLog::new();
    log.add_filled();
    assert!(!log.keeps_temp(false));
    assert!(log.keeps_temp(true));
}
