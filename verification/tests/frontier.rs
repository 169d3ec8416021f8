use massif::frontier::{
    append_children_in_bounds, bounded_descendant_count, bounded_descendants, bounds_by_zoom,
    bounds_for_zoom, find_bounds, initial_frontier, parse_tile_filename, tile_filename, tile_key,
    TileBounds, TileJob, TileSpan,
};
use massif::pyramid::{is_pyramid, upper_bound_tiles};
use massif::tile_id::{pmtiles_tile_id, TileIdError};

fn tile(z: u8, x: u32, y: u32) -> TileJob {
    TileJob { z, x, y }
}

fn bounds(z: u8, x0: u32, x1: u32, y0: u32, y1: u32) -> TileBounds {
    TileBounds { z, x0, x1, y0, y1 }
}

/// One tile wide at zoom 2, and everything below it that an area of some columns and rows leaves.
fn small_pyramid() -> Vec<TileBounds> {
    vec![bounds(2, 1, 2, 1, 1), bounds(3, 3, 4, 2, 3), bounds(4, 6, 9, 5, 6)]
}

#[test]
fn bounds_hold_their_edges() {
    let b = bounds(3, 2, 4, 5, 6);
    assert!(b.contains(tile(3, 2, 5)));
    assert!(b.contains(tile(3, 4, 6)));
    assert!(!b.contains(tile(3, 1, 5)));
    assert!(!b.contains(tile(3, 5, 5)));
    assert!(!b.contains(tile(3, 2, 4)));
    assert!(!b.contains(tile(3, 2, 7)));
    assert!(!b.contains(tile(4, 2, 5)));
}

#[test]
fn key_places_zoom_column_and_row() {
    assert_eq!(tile_key(tile(0, 0, 0)), 0);
    assert_eq!(tile_key(tile(1, 1, 1)), (1 << 58) | (1 << 29) | 1);
    assert_eq!(tile_key(tile(12, 2047, 1365)), (12 << 58) | (2047 << 29) | 1365);
}

#[test]
fn keys_differ_up_to_zoom_29_and_may_meet_beyond() {
    let last = (1u32 << 29) - 1;
    assert_ne!(tile_key(tile(29, 0, last)), tile_key(tile(29, 1, 0)));
    assert_ne!(tile_key(tile(28, last, last)), tile_key(tile(29, last, last)));
    assert_eq!(tile_key(tile(30, 0, 1 << 29)), tile_key(tile(30, 1, 0)));
}

#[test]
fn archive_ids_follow_the_curve() {
    assert_eq!(pmtiles_tile_id(tile(0, 0, 0)), Ok(0));
    assert_eq!(pmtiles_tile_id(tile(1, 0, 0)), Ok(1));
    assert_eq!(pmtiles_tile_id(tile(1, 0, 1)), Ok(2));
    assert_eq!(pmtiles_tile_id(tile(1, 1, 1)), Ok(3));
    assert_eq!(pmtiles_tile_id(tile(1, 1, 0)), Ok(4));
    assert_eq!(pmtiles_tile_id(tile(2, 1, 3)), Ok(11));
    assert_eq!(pmtiles_tile_id(tile(3, 3, 0)), Ok(26));
    assert_eq!(pmtiles_tile_id(tile(20, 0, 0)), Ok(366_503_875_925));
    assert_eq!(pmtiles_tile_id(tile(31, u32::MAX >> 1, 0)), Ok(6_148_914_691_236_517_204));
}

#[test]
fn archive_ids_only_for_tiles_that_exist() {
    for t in [tile(32, 0, 0), tile(2, 4, 0), tile(2, 0, 4), tile(0, 1, 0)] {
        assert_eq!(pmtiles_tile_id(t), Err(TileIdError::NoSuchTile { tile: t }));
    }
}

#[test]
fn archive_ids_of_one_zoom_are_all_different_and_in_its_range() {
    let mut ids = Vec::new();
    for x in 0..8 {
        for y in 0..8 {
            ids.push(pmtiles_tile_id(tile(3, x, y)).unwrap());
        }
    }
    ids.sort();
    assert_eq!(ids, (21..85).collect::<Vec<u64>>());
}

#[test]
fn first_frontier_goes_column_by_column() {
    let area = TileSpan { x0: 1, x1: 2, y0: 5, y1: 7 };
    assert_eq!(
        initial_frontier(area, 4),
        vec![
            tile(4, 1, 5),
            tile(4, 1, 6),
            tile(4, 1, 7),
            tile(4, 2, 5),
            tile(4, 2, 6),
            tile(4, 2, 7)
        ]
    );
}

#[test]
fn first_frontier_of_an_empty_area_is_empty() {
    assert!(initial_frontier(TileSpan { x0: 3, x1: 2, y0: 0, y1: 9 }, 4).is_empty());
    assert!(initial_frontier(TileSpan { x0: 0, x1: 2, y0: 5, y1: 4 }, 4).is_empty());
}

#[test]
fn first_frontier_reaches_the_last_column() {
    let area = TileSpan { x0: u32::MAX, x1: u32::MAX, y0: u32::MAX - 1, y1: u32::MAX };
    assert_eq!(
        initial_frontier(area, 32),
        vec![tile(32, u32::MAX, u32::MAX - 1), tile(32, u32::MAX, u32::MAX)]
    );
}

#[test]
fn bounds_come_one_for_each_zoom() {
    let areas = [
        TileSpan { x0: 0, x1: 1, y0: 2, y1: 3 },
        TileSpan { x0: 1, x1: 2, y0: 4, y1: 6 },
    ];
    let all = bounds_by_zoom(&areas, 5, 6);
    assert_eq!(all.len(), 2);
    assert_eq!((all[0].z, all[0].x0, all[0].x1, all[0].y0, all[0].y1), (5, 0, 1, 2, 3));
    assert_eq!((all[1].z, all[1].x0, all[1].x1, all[1].y0, all[1].y1), (6, 1, 2, 4, 6));
    let one = bounds_for_zoom(areas[1], 9);
    assert_eq!((one.z, one.x0, one.y1), (9, 1, 6));
}

#[test]
fn first_entry_of_a_zoom_counts() {
    let all = [bounds(3, 0, 1, 0, 1), bounds(4, 0, 0, 0, 0), bounds(3, 5, 6, 5, 6)];
    assert_eq!(find_bounds(&all, 3).map(|b| b.x1), Some(1));
    assert!(find_bounds(&all, 5).is_none());
}

#[test]
fn children_come_row_by_row() {
    let all = [bounds(3, 0, 7, 0, 7)];
    let mut next = vec![tile(3, 0, 0)];
    append_children_in_bounds(tile(2, 1, 3), &mut next, 5, &all);
    assert_eq!(
        next,
        vec![tile(3, 0, 0), tile(3, 2, 6), tile(3, 3, 6), tile(3, 2, 7), tile(3, 3, 7)]
    );
}

#[test]
fn children_are_clipped_to_the_bounds() {
    let all = small_pyramid();
    let mut next = Vec::new();
    append_children_in_bounds(tile(2, 1, 1), &mut next, 4, &all);
    assert_eq!(next, vec![tile(3, 3, 2), tile(3, 3, 3)]);
    append_children_in_bounds(tile(3, 4, 3), &mut next, 4, &all);
    assert_eq!(next[2..], [tile(4, 8, 6), tile(4, 9, 6)]);
}

#[test]
fn no_children_at_the_last_zoom_or_without_bounds() {
    let all = small_pyramid();
    let mut next = Vec::new();
    append_children_in_bounds(tile(4, 6, 5), &mut next, 4, &all);
    append_children_in_bounds(tile(4, 6, 5), &mut next, 9, &all);
    append_children_in_bounds(tile(9, u32::MAX, u32::MAX), &mut next, 20, &all);
    assert!(next.is_empty());
}

#[test]
fn descendants_of_a_whole_tile() {
    let all = [bounds(1, 0, 1, 0, 1), bounds(2, 0, 3, 0, 3), bounds(3, 0, 7, 0, 7)];
    assert_eq!(bounded_descendant_count(tile(0, 0, 0), &all, 3), 4 + 16 + 64);
    assert_eq!(bounded_descendant_count(tile(0, 0, 0), &all, 2), 4 + 16);
    assert_eq!(bounded_descendant_count(tile(3, 0, 0), &all, 3), 0);
    assert_eq!(bounded_descendant_count(tile(4, 0, 0), &all, 3), 0);
}

#[test]
fn descendants_are_clipped_to_the_bounds() {
    let all = small_pyramid();
    // At zoom 3 column 3, rows 2 and 3; at zoom 4 columns 6 and 7, rows 5 and 6.
    assert_eq!(bounded_descendant_count(tile(2, 1, 1), &all, 4), 2 + 4);
    assert_eq!(
        bounded_descendants(tile(2, 1, 1), &all, 4),
        vec![
            tile(3, 3, 2),
            tile(3, 3, 3),
            tile(4, 6, 5),
            tile(4, 6, 6),
            tile(4, 7, 5),
            tile(4, 7, 6)
        ]
    );
    assert_eq!(bounded_descendant_count(tile(2, 0, 1), &all, 4), 0);
    assert!(bounded_descendants(tile(2, 0, 1), &all, 4).is_empty());
}

#[test]
fn descendants_at_zooms_without_bounds_are_passed_over() {
    let all = [bounds(5, 0, 31, 0, 31)];
    assert_eq!(bounded_descendant_count(tile(3, 1, 1), &all, 9), 16);
    assert_eq!(bounded_descendants(tile(3, 1, 1), &all, 9).len(), 16);
}

#[test]
fn descendants_of_the_whole_world_can_be_counted() {
    let all: Vec<TileBounds> = (0..=31u8)
        .map(|z| {
            let last = ((1u64 << z) - 1) as u32;
            bounds(z, 0, last, 0, last)
        })
        .collect();
    let tiles_below_zoom_0: u64 = (1..=31u32).map(|z| 4u64.pow(z)).sum();
    assert_eq!(bounded_descendant_count(tile(0, 0, 0), &all, 31), tiles_below_zoom_0);
    assert!(is_pyramid(&all, 0, 31));
    assert_eq!(upper_bound_tiles(&all), tiles_below_zoom_0 + 1);
}

#[test]
fn descendants_divide_among_the_children() {
    let all = small_pyramid();
    for x in 1..=2 {
        let parent = tile(2, x, 1);
        let mut children = Vec::new();
        append_children_in_bounds(parent, &mut children, 4, &all);
        let below: u64 =
            children.iter().map(|c| 1 + bounded_descendant_count(*c, &all, 4)).sum();
        assert_eq!(bounded_descendant_count(parent, &all, 4), below);
    }
}

#[test]
fn first_tiles_with_their_descendants_are_all_candidates() {
    let all = small_pyramid();
    let first = initial_frontier(TileSpan { x0: 1, x1: 2, y0: 1, y1: 1 }, 2);
    let weight: u64 = first.iter().map(|t| 1 + bounded_descendant_count(*t, &all, 4)).sum();
    assert_eq!(upper_bound_tiles(&all), 2 + 4 + 8);
    assert_eq!(weight, 2 + 4 + 8);
}

#[test]
fn pyramid_is_ordered_and_nested() {
    let all = small_pyramid();
    assert!(is_pyramid(&all, 2, 4));
    assert!(!is_pyramid(&all, 2, 5));
    assert!(!is_pyramid(&all, 3, 4));
    assert!(!is_pyramid(&all, 4, 2));
    // The second zoom reaches outside the first.
    assert!(!is_pyramid(&[bounds(2, 1, 1, 1, 1), bounds(3, 1, 3, 2, 3)], 2, 3));
    // A column that the zoom does not have.
    assert!(!is_pyramid(&[bounds(2, 1, 4, 1, 1)], 2, 2));
    // Out of order.
    assert!(!is_pyramid(&[bounds(2, 2, 1, 1, 1)], 2, 2));
    // Too deep.
    assert!(!is_pyramid(&[bounds(32, 0, 0, 0, 0)], 32, 32));
}

#[test]
fn file_name_of_a_tile() {
    assert_eq!(tile_filename(tile(5, 17, 9)), "5_17_9");
    assert_eq!(tile_filename(tile(0, 0, 0)), "0_0_0");
    assert_eq!(tile_filename(tile(255, u32::MAX, 10)), "255_4294967295_10");
}

#[test]
fn file_name_gives_the_tile_back() {
    for t in [tile(0, 0, 0), tile(5, 17, 9), tile(31, 2_147_483_647, 1), tile(255, u32::MAX, 100)] {
        assert_eq!(parse_tile_filename(&tile_filename(t)), Some(t));
    }
}

#[test]
fn file_names_of_other_shapes() {
    assert_eq!(parse_tile_filename("+5_007_+1"), Some(tile(5, 7, 1)));
    for name in [
        "", "5", "5_1", "5_1_", "_1_2", "5_1_2_", "5_1_2_3", "5_1_2.webp", "5__2", "5_-1_2",
        "5_ 1_2", "256_1_2", "5_4294967296_2", "5_1_99999999999999999999999", "+_1_2", "++1_1_2",
        ".writing", "5_\u{661}_2",
    ] {
        assert_eq!(parse_tile_filename(name), None, "{}", name);
    }
}

/// The place of a tile along the Hilbert curve, quarter by quarter.
fn hilbert(z: u8, x: u64, y: u64) -> u64 {
    if z == 0 {
        return 0;
    }
    let half = 1u64 << (z - 1);
    match (x < half, y < half) {
        (true, true) => hilbert(z - 1, y, x),
        (true, false) => half * half + hilbert(z - 1, x, y - half),
        (false, false) => 2 * half * half + hilbert(z - 1, x - half, y - half),
        (false, true) => 3 * half * half + hilbert(z - 1, half - 1 - y, 2 * half - 1 - x),
    }
}

fn tiles_before(z: u8) -> u64 {
    (0..z).map(|lesser| 1u64 << (2 * lesser)).sum()
}

#[test]
fn ids_are_places_on_the_hilbert_curve() {
    for z in 0..=7u8 {
        for x in 0..1u32 << z {
            for y in 0..1u32 << z {
                let place = hilbert(z, x as u64, y as u64);
                assert_eq!(pmtiles_tile_id(tile(z, x, y)), Ok(tiles_before(z) + place));
            }
        }
    }
    // Columns and rows all over the deeper zooms.
    let mut seed: u64 = 1;
    for z in 8..=31u8 {
        let last = (1u64 << z) - 1;
        for _ in 0..2_000 {
            seed = seed.wrapping_mul(6_364_136_223_846_793_005).wrapping_add(1);
            let x = (seed >> 32) & last;
            let y = (seed >> 20 >> (seed % 31)) & last;
            let id = pmtiles_tile_id(tile(z, x as u32, y as u32));
            assert_eq!(id, Ok(tiles_before(z) + hilbert(z, x, y)), "{}/{}/{}", z, x, y);
        }
        for (x, y) in [(0, 0), (last, 0), (0, last), (last, last)] {
            let id = pmtiles_tile_id(tile(z, x as u32, y as u32));
            assert_eq!(id, Ok(tiles_before(z) + hilbert(z, x, y)), "{}/{}/{}", z, x, y);
        }
    }
}

#[test]
fn tiles_in_a_row_lie_side_by_side() {
    let z = 5;
    let mut tiles: Vec<TileJob> =
        (0..1024u32).map(|i| tile(z, i / 32, i % 32)).collect();
    tiles.sort_by_key(|t| pmtiles_tile_id(*t).unwrap());
    for pair in tiles.windows(2) {
        assert_eq!(pair[0].x.abs_diff(pair[1].x) + pair[0].y.abs_diff(pair[1].y), 1);
    }
}

#[test]
fn children_stand_together_in_the_order_of_their_parents() {
    let place = |t: TileJob| pmtiles_tile_id(t).unwrap() - tiles_before(t.z);
    for x in 0..32 {
        for y in 0..32 {
            assert_eq!(place(tile(5, x, y)) / 4, place(tile(4, x / 2, y / 2)));
        }
    }
}

#[test]
fn deep_tiles_of_small_columns_and_rows_have_keys_of_their_own() {
    let last = (1 << 29) - 1;
    let deep = [tile(31, last, last), tile(31, last, 0), tile(31, 0, last), tile(30, last, last)];
    let keys: std::collections::HashSet<u64> = deep.iter().map(|t| tile_key(*t)).collect();
    assert_eq!(keys.len(), deep.len());
}
