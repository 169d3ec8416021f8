use massif::frontier::{tile_key, TileJob};
use massif::spool::{
    append_suffix, append_uniform_fill, frontier_path, join, partial_output,
    prepare_zoom_write_dir, read_frontier, read_uniform_fills, remove_frontier_writing_files,
    scan_existing_encoded, skipped_tiles_path, state_path, temp_root, uniform_fill_roots,
    uniform_fills_path, write_frontier, write_frontier_file, write_state, write_temp_tile, zoom_dir,
    RecordError, RecordField, StageError, UniformFill,
};

fn tile(z: u8, x: u32, y: u32) -> TileJob {
    TileJob { z, x, y }
}

fn strings(names: &[&str]) -> Vec<String> {
    names.iter().map(|name| name.to_string()).collect()
}

#[test]
fn paths_beside_the_output() {
    assert_eq!(append_suffix("a/b.pmtiles", ".x"), "a/b.pmtiles.x");
    assert_eq!(temp_root("a/b.pmtiles"), "a/b.pmtiles.tmp");
    assert_eq!(partial_output("a/b.pmtiles"), "a/b.pmtiles.tmp.pmtiles");
    assert_eq!(skipped_tiles_path("a/b.pmtiles"), "a/b.pmtiles.skipped_pmtiles_tiles.log");
}

#[test]
fn paths_within_the_staging_directory() {
    assert_eq!(state_path("b.tmp"), "b.tmp/state.json");
    assert_eq!(frontier_path("b.tmp", 7), "b.tmp/frontier_z7");
    assert_eq!(uniform_fills_path("b.tmp"), "b.tmp/uniform_fills");
    assert_eq!(zoom_dir("b.tmp", 12), "b.tmp/z12");
    assert_eq!(prepare_zoom_write_dir("b.tmp", 12), "b.tmp/z12/.writing");
}

#[test]
fn paths_are_joined_by_one_stroke() {
    assert_eq!(join("a", "b"), "a/b");
    assert_eq!(join("a/", "b"), "a/b");
    assert_eq!(join("", "b"), "b");
    assert_eq!(join("/", "b"), "/b");
}

#[test]
fn files_are_written_under_another_name_first() {
    let state = write_state("b.tmp");
    assert_eq!((state.tmp.as_str(), state.path.as_str()), ("b.tmp/state.json.writing", "b.tmp/state.json"));
    let frontier = write_frontier_file("b.tmp", 3);
    assert_eq!(frontier.tmp, "b.tmp/frontier_z3.writing");
    assert_eq!(frontier.path, "b.tmp/frontier_z3");
}

#[test]
fn tiles_are_staged_by_zoom() {
    let write = write_temp_tile("b.tmp", tile(5, 17, 9), &[1]).unwrap();
    assert_eq!(write.tmp, "b.tmp/z5/.writing/5_17_9");
    assert_eq!(write.path, "b.tmp/z5/5_17_9");
}

#[test]
fn tiles_without_bytes_are_not_staged() {
    match write_temp_tile("b.tmp", tile(5, 17, 9), &[]) {
        Err(e) => assert_eq!(e, StageError::EmptyTile { tile: tile(5, 17, 9) }),
        Ok(_) => panic!("an empty tile"),
    }
}

#[test]
fn only_unfinished_frontiers_are_stale() {
    let names = strings(&[
        "frontier_z5",
        "frontier_z5.writing",
        "state.json.writing",
        "frontier_z.writing",
        "frontier_z12.writing",
        "xfrontier_z12.writing",
        "frontier_z12.writing.x",
        ".writing",
    ]);
    assert_eq!(
        remove_frontier_writing_files(&names),
        strings(&["frontier_z5.writing", "frontier_z.writing", "frontier_z12.writing"])
    );
}

#[test]
fn frontier_is_a_line_for_each_tile() {
    assert_eq!(write_frontier(&[tile(5, 17, 9), tile(5, 18, 0)]), "5 17 9\n5 18 0\n");
    assert_eq!(write_frontier(&[]), "");
}

#[test]
fn frontier_is_read_back() {
    let tiles = vec![tile(5, 17, 9), tile(31, 2_147_483_647, 0), tile(255, u32::MAX, u32::MAX)];
    assert_eq!(read_frontier(&write_frontier(&tiles)), Ok(tiles));
    assert_eq!(read_frontier(""), Ok(vec![]));
}

#[test]
fn frontier_lines_may_be_spaced_freely() {
    assert_eq!(read_frontier("  5\t17  +9 extra\r\n5 18 0"), Ok(vec![tile(5, 17, 9), tile(5, 18, 0)]));
}

#[test]
fn frontier_errors_name_the_field() {
    let missing = |field| Err(RecordError::Missing { field });
    let invalid = |field| Err(RecordError::Invalid { field });
    assert_eq!(read_frontier("\n"), missing(RecordField::Z));
    assert_eq!(read_frontier("5\n"), missing(RecordField::X));
    assert_eq!(read_frontier("5 17\n"), missing(RecordField::Y));
    assert_eq!(read_frontier("256 17 9\n"), invalid(RecordField::Z));
    assert_eq!(read_frontier("5 -17 9\n"), invalid(RecordField::X));
    assert_eq!(read_frontier("5 17 9.0\n"), invalid(RecordField::Y));
    // The first error counts, line by line and field by field.
    assert_eq!(read_frontier("5 17 9\nz 1\n5"), invalid(RecordField::Z));
}

#[test]
fn fill_rules_are_lines_of_six_numbers() {
    let fill = UniformFill { root: tile(5, 17, 9), color: [1, 134, 160] };
    assert_eq!(append_uniform_fill(fill), "5 17 9 1 134 160\n");
}

#[test]
fn fill_rules_are_read_back_once_for_each_root() {
    let rules = [
        UniformFill { root: tile(5, 17, 9), color: [1, 134, 160] },
        UniformFill { root: tile(6, 1, 2), color: [0, 0, 255] },
        UniformFill { root: tile(5, 17, 9), color: [9, 9, 9] },
    ];
    let content: String = rules.iter().map(|rule| append_uniform_fill(*rule)).collect();
    let read = read_uniform_fills(&content).unwrap();
    assert_eq!(read.len(), 2);
    assert_eq!((read[0].root, read[0].color), (tile(5, 17, 9), [1, 134, 160]));
    assert_eq!((read[1].root, read[1].color), (tile(6, 1, 2), [0, 0, 255]));
    let keys = uniform_fill_roots(&content).unwrap();
    assert_eq!(keys.len(), 2);
    assert!(keys.contains(&tile_key(tile(5, 17, 9))) && keys.contains(&tile_key(tile(6, 1, 2))));
}

#[test]
fn no_rule_file_is_no_rules() {
    assert!(read_uniform_fills("").unwrap().is_empty());
    assert!(uniform_fill_roots("").unwrap().is_empty());
}

#[test]
fn fill_rule_errors_name_the_field() {
    let fields = ["5", "17", "9", "1", "134", "160"];
    let names = [
        RecordField::Z,
        RecordField::X,
        RecordField::Y,
        RecordField::R,
        RecordField::G,
        RecordField::B,
    ];
    for i in 0..6 {
        let short = fields[..i].join(" ") + "\n";
        assert_eq!(read_uniform_fills(&short).err(), Some(RecordError::Missing { field: names[i] }));
        let mut wrong = fields;
        wrong[i] = "x";
        let wrong = wrong.join(" ");
        assert_eq!(read_uniform_fills(&wrong).err(), Some(RecordError::Invalid { field: names[i] }));
        assert_eq!(uniform_fill_roots(&wrong).err(), Some(RecordError::Invalid { field: names[i] }));
    }
    assert_eq!(
        read_uniform_fills("5 17 9 1 134 256").err(),
        Some(RecordError::Invalid { field: RecordField::B })
    );
}

#[test]
fn staged_tiles_are_found_by_name() {
    let keys = scan_existing_encoded(&strings(&["5_17_9", "5_18_9", "notes.txt", "5_018_9", "z5"]));
    assert_eq!(keys.len(), 2);
    assert!(keys.contains(&tile_key(tile(5, 17, 9))) && keys.contains(&tile_key(tile(5, 18, 9))));
    assert!(scan_existing_encoded(&[]).is_empty());
}
