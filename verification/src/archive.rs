//! The writing of the archive: which tiles it gets, from where, and in which order.

use std::collections::HashSet;

use vstd::prelude::*;

use crate::frontier;
use crate::frontier::{bounded_descendants, parse_tile_filename, tile_key, TileBounds, TileJob};
use crate::pipeline;
use crate::pyramid;
use crate::spool;
use crate::spool::UniformFill;
use crate::tile_id;
use crate::tile_id::{pmtiles_tile_id, TileIdError};

verus! {

broadcast use vstd::std_specs::hash::group_hash_axioms;

/// Where the bytes of a tile come from.
#[derive(Clone, Copy, Debug)]
pub enum TileSource {
    /// A staged file: the zoom of its directory, and its place among the names found there.
    File { zoom: u8, index: usize },
    /// A solid tile of one colour.
    Color { color: [u8; 3] },
}

/// One tile of the archive.
#[derive(Clone, Copy, Debug)]
pub struct BuildStep {
    pub id: u64,
    pub tile: TileJob,
    pub source: TileSource,
}

/// The plan of an archive: its tiles in order, and how many tiles its fill rules name.
pub struct BuildPlan {
    pub filled: u64,
    pub steps: Vec<BuildStep>,
}

/// Whether ids never fall.
pub open spec fn ascending(steps: Seq<BuildStep>) -> bool {
    forall|i: int, j: int| 0 <= i <= j < steps.len() ==> steps[i].id <= steps[j].id
}

/// The test for one id.
pub open spec fn with_id(id: u64) -> spec_fn(BuildStep) -> bool {
    |step: BuildStep| step.id == id
}

/// Whether the second list is the first, ordered by id, those of one id as they stood.
pub open spec fn ordered(before: Seq<BuildStep>, after: Seq<BuildStep>) -> bool {
    &&& ascending(after)
    &&& after.len() == before.len()
    &&& forall|id: u64| #[trigger] after.filter(with_id(id)) == before.filter(with_id(id))
}

/// `sort_by_key` of std on the ids: it leaves the same steps in ascending order, and those of one
/// id in the order in which they were.
#[verifier::external_body]
fn sort_by_id(steps: &mut Vec<BuildStep>)
    ensures
        ordered(old(steps)@, final(steps)@),
{
    steps.sort_by_key(|step| step.id);
}

/// Some steps by id, those of one id as they stood.
pub open spec fn by_id(steps: Seq<BuildStep>) -> Seq<BuildStep> {
    choose|after: Seq<BuildStep>| ordered(steps, after)
}

/// The last of some steps is the last that a filter leaves, if the filter keeps it.
proof fn lemma_filter_last(steps: Seq<BuildStep>, keep: spec_fn(BuildStep) -> bool)
    requires
        steps.len() > 0,
    ensures
        keep(steps.last()) ==> steps.filter(keep) == steps.drop_last().filter(keep).push(
            steps.last(),
        ),
        !keep(steps.last()) ==> steps.filter(keep) == steps.drop_last().filter(keep),
{
    reveal(Seq::filter);
}

/// The id of the last step in order is an id of every list with the same steps.
proof fn lemma_last_id(s: Seq<BuildStep>, t: Seq<BuildStep>)
    requires
        s.len() > 0,
        t.len() > 0,
        ascending(t),
        s.filter(with_id(s.last().id)) == t.filter(with_id(s.last().id)),
    ensures
        s.last().id <= t.last().id,
{
    let keep = with_id(s.last().id);
    lemma_filter_last(s, keep);
    let kept = t.filter(keep);
    assert(kept[kept.len() - 1] == s.last());
    assert(kept.contains(s.last()));
    lemma_filter_from(t, keep, s.last());
}

/// There is one way to order steps by id.
pub proof fn lemma_ordered_unique(s: Seq<BuildStep>, t: Seq<BuildStep>)
    requires
        ascending(s),
        ascending(t),
        s.len() == t.len(),
        forall|id: u64| #[trigger] s.filter(with_id(id)) == t.filter(with_id(id)),
    ensures
        s == t,
    decreases s.len(),
{
    if s.len() == 0 {
        assert(s =~= t);
    } else {
        assert(s.filter(with_id(t.last().id)) == t.filter(with_id(t.last().id)));
        lemma_last_id(s, t);
        lemma_last_id(t, s);
        let m = s.last().id;
        let s1 = s.drop_last();
        let t1 = t.drop_last();
        lemma_filter_last(s, with_id(m));
        lemma_filter_last(t, with_id(m));
        let fs = s.filter(with_id(m));
        let ft = t.filter(with_id(m));
        assert(fs.last() == s.last());
        assert(ft.last() == t.last());
        assert forall|id: u64| #[trigger] s1.filter(with_id(id)) == t1.filter(with_id(id)) by {
            lemma_filter_last(s, with_id(id));
            lemma_filter_last(t, with_id(id));
            assert(s.filter(with_id(id)) == t.filter(with_id(id)));
            if id == m {
                assert(s1.filter(with_id(m)) =~= fs.drop_last());
                assert(t1.filter(with_id(m)) =~= ft.drop_last());
            }
        }
        lemma_ordered_unique(s1, t1);
        assert(s =~= s1.push(s.last()));
        assert(t =~= t1.push(t.last()));
    }
}

/// Whatever orders the steps is what `by_id` names.
pub proof fn lemma_by_id(before: Seq<BuildStep>, after: Seq<BuildStep>)
    requires
        ordered(before, after),
    ensures
        after == by_id(before),
        ordered(before, by_id(before)),
{
    let other = by_id(before);
    assert(ordered(before, other));
    assert forall|id: u64| #[trigger] after.filter(with_id(id)) == other.filter(with_id(id)) by {
        assert(other.filter(with_id(id)) == before.filter(with_id(id)));
    }
    lemma_ordered_unique(after, other);
}

/// Ordering neither adds nor drops a step.
pub proof fn lemma_ordered_members(before: Seq<BuildStep>, after: Seq<BuildStep>, step: BuildStep)
    requires
        ordered(before, after),
    ensures
        after.contains(step) <==> before.contains(step),
{
    broadcast use vstd::seq_lib::group_filter_ensures;

    let keep = with_id(step.id);
    let a = after.filter(keep);
    let b = before.filter(keep);
    assert(a == b);
    if after.contains(step) {
        let i = choose|i: int| 0 <= i < after.len() && after[i] == step;
        assert(keep(after[i]));
        assert(a.contains(after[i]));
        lemma_filter_from(before, keep, step);
    }
    if before.contains(step) {
        let i = choose|i: int| 0 <= i < before.len() && before[i] == step;
        assert(keep(before[i]));
        assert(b.contains(before[i]));
        lemma_filter_from(after, keep, step);
    }
}

/// What a filter leaves was there before.
pub proof fn lemma_filter_from(
    steps: Seq<BuildStep>,
    keep: spec_fn(BuildStep) -> bool,
    step: BuildStep,
)
    requires
        steps.filter(keep).contains(step),
    ensures
        steps.contains(step),
        keep(step),
    decreases steps.len(),
{
    reveal(Seq::filter);
    if steps.len() > 0 {
        let head = steps.drop_last();
        let kept = steps.filter(keep);
        let i = choose|i: int| 0 <= i < kept.len() && kept[i] == step;
        if keep(steps.last()) && i == kept.len() - 1 {
            assert(steps[steps.len() - 1] == step);
        } else {
            assert(head.filter(keep)[i] == step);
            lemma_filter_from(head, keep, step);
            let j = choose|j: int| 0 <= j < head.len() && head[j] == step;
            assert(steps[j] == step);
        }
    }
}

/// The tiles of some steps.
pub open spec fn tiles_of(steps: Seq<BuildStep>) -> Seq<TileJob> {
    Seq::new(steps.len(), |i: int| steps[i].tile)
}

/// Whether every step carries the id of its tile.
pub open spec fn identified(steps: Seq<BuildStep>) -> bool {
    forall|i: int|
        0 <= i < steps.len() ==> (#[trigger] steps[i]).id == tile_id::id_of(steps[i].tile)
            && tile_id::id_known(steps[i].tile)
}

/// The step for a tile.
pub open spec fn step_for(tile: TileJob, source: TileSource) -> BuildStep {
    BuildStep { id: tile_id::id_of(tile), tile, source }
}

/// The steps for the staged tiles of one directory, in the order of their names.
pub open spec fn staged(zoom: u8, names: Seq<Seq<char>>) -> Seq<BuildStep>
    decreases names.len(),
{
    if names.len() == 0 {
        seq![]
    } else {
        let head = staged(zoom, names.drop_last());
        match frontier::parsed_filename(names.last()) {
            Some(tile) => head.push(
                step_for(tile, TileSource::File { zoom, index: (names.len() - 1) as usize }),
            ),
            None => head,
        }
    }
}

/// The first tile among the names that does not exist.
pub open spec fn first_unknown_name(names: Seq<Seq<char>>) -> Option<TileJob>
    decreases names.len(),
{
    if names.len() == 0 {
        None
    } else {
        match first_unknown_name(names.drop_last()) {
            Some(tile) => Some(tile),
            None => match frontier::parsed_filename(names.last()) {
                Some(tile) => if tile_id::exists_tile(tile) {
                    None
                } else {
                    Some(tile)
                },
                None => None,
            },
        }
    }
}

proof fn lemma_first_unknown_name(names: Seq<Seq<char>>, i: int)
    requires
        0 <= i <= names.len(),
        first_unknown_name(names.take(i)) is Some,
    ensures
        first_unknown_name(names) == first_unknown_name(names.take(i)),
    decreases names.len(),
{
    if i == names.len() {
        assert(names.take(i) =~= names);
    } else {
        assert(names.drop_last().take(i) =~= names.take(i));
        lemma_first_unknown_name(names.drop_last(), i);
    }
}

/// The steps for the staged tiles of one directory, by id. It fails for the first name of a tile
/// that does not exist.
pub fn collect_zoom_temp_files(zoom: u8, names: &[String]) -> (steps: Result<
    Vec<BuildStep>,
    TileIdError,
>)
    ensures
        match steps {
            Ok(found) => {
                &&& first_unknown_name(spool::texts(names@)) is None
                &&& found@ == by_id(staged(zoom, spool::texts(names@)))
                &&& ordered(staged(zoom, spool::texts(names@)), found@)
                &&& identified(found@)
            },
            Err(e) => first_unknown_name(spool::texts(names@)) matches Some(tile) && e
                == TileIdError::NoSuchTile { tile },
        },
{
    let ghost all = spool::texts(names@);
    let mut steps: Vec<BuildStep> = Vec::new();
    let mut i: usize = 0;
    assert(all.take(0) =~= seq![]);
    assert(steps@ =~= seq![]);
    while i < names.len()
        invariant
            i <= names.len(),
            all == spool::texts(names@),
            first_unknown_name(all.take(i as int)) is None,
            steps@ == staged(zoom, all.take(i as int)),
            identified(steps@),
        decreases names.len() - i,
    {
        proof {
            assert(all.take(i + 1).drop_last() =~= all.take(i as int));
            assert(all.take(i + 1).last() == names@[i as int]@);
        }
        if let Some(tile) = parse_tile_filename(names[i].as_str()) {
            match pmtiles_tile_id(tile) {
                Ok(id) => {
                    steps.push(BuildStep { id, tile, source: TileSource::File { zoom, index: i } });
                },
                Err(e) => {
                    proof {
                        lemma_first_unknown_name(all, i + 1);
                    }
                    return Err(e);
                },
            }
        }
        i += 1;
    }
    assert(all.take(all.len() as int) =~= all);
    let ghost before = steps@;
    sort_by_id(&mut steps);
    proof {
        lemma_by_id(before, steps@);
    }
    assert forall|k: int| 0 <= k < steps@.len() implies (#[trigger] steps@[k]).id == tile_id::id_of(
        steps@[k].tile,
    ) && tile_id::id_known(steps@[k].tile) by {
        assert(steps@.contains(steps@[k]));
        lemma_ordered_members(before, steps@, steps@[k]);
    }
    Ok(steps)
}

/// The steps that give some tiles one colour.
pub open spec fn fill_steps(tiles: Seq<TileJob>, color: [u8; 3]) -> Seq<BuildStep> {
    Seq::new(tiles.len(), |i: int| step_for(tiles[i], TileSource::Color { color }))
}

/// The steps for the descendants of all roots, rule by rule.
pub open spec fn all_fills(
    fills: Seq<UniformFill>,
    bounds: Seq<TileBounds>,
    max_z: u8,
) -> Seq<BuildStep>
    decreases fills.len(),
{
    if fills.len() == 0 {
        seq![]
    } else {
        all_fills(fills.drop_last(), bounds, max_z) + fill_steps(
            frontier::descendants(fills.last().root, bounds, max_z),
            fills.last().color,
        )
    }
}

/// The steps of whose tile, by its key, no earlier one is.
pub open spec fn first_of_each(steps: Seq<BuildStep>) -> Seq<BuildStep>
    decreases steps.len(),
{
    if steps.len() == 0 {
        seq![]
    } else {
        let head = steps.drop_last();
        if pipeline::keys_of(tiles_of(head)).contains(frontier::key_of(steps.last().tile)) {
            first_of_each(head)
        } else {
            first_of_each(head).push(steps.last())
        }
    }
}

/// The first tile of some steps that does not exist.
pub open spec fn first_unknown(steps: Seq<BuildStep>) -> Option<TileJob>
    decreases steps.len(),
{
    if steps.len() == 0 {
        None
    } else {
        match first_unknown(steps.drop_last()) {
            Some(tile) => Some(tile),
            None => if tile_id::exists_tile(steps.last().tile) {
                None
            } else {
                Some(steps.last().tile)
            },
        }
    }
}

/// More steps after an unknown tile do not change which is the first.
proof fn lemma_first_unknown_more(steps: Seq<BuildStep>, more: Seq<BuildStep>)
    requires
        first_unknown(first_of_each(steps)) is Some,
    ensures
        first_unknown(first_of_each(steps + more)) == first_unknown(first_of_each(steps)),
    decreases more.len(),
{
    if more.len() == 0 {
        assert(steps + more =~= steps);
    } else {
        let shorter = more.drop_last();
        lemma_first_unknown_more(steps, shorter);
        assert((steps + more).drop_last() =~= steps + shorter);
        let head = first_of_each(steps + shorter);
        assert(head.push(more.last()).drop_last() =~= head);
    }
}

/// The steps of all rules go on from those of the first rules.
proof fn lemma_all_fills_prefix(
    fills: Seq<UniformFill>,
    bounds: Seq<TileBounds>,
    max_z: u8,
    i: int,
) -> (rest: Seq<BuildStep>)
    requires
        0 <= i <= fills.len(),
    ensures
        all_fills(fills, bounds, max_z) == all_fills(fills.take(i), bounds, max_z) + rest,
    decreases fills.len(),
{
    if i == fills.len() {
        assert(fills.take(i) =~= fills);
        let rest = Seq::<BuildStep>::empty();
        assert(all_fills(fills, bounds, max_z) + rest =~= all_fills(fills, bounds, max_z));
        rest
    } else {
        let rest = lemma_all_fills_prefix(fills.drop_last(), bounds, max_z, i);
        assert(fills.drop_last().take(i) =~= fills.take(i));
        let last = fill_steps(
            frontier::descendants(fills.last().root, bounds, max_z),
            fills.last().color,
        );
        assert(all_fills(fills.take(i), bounds, max_z) + rest + last =~= all_fills(
            fills.take(i),
            bounds,
            max_z,
        ) + (rest + last));
        rest + last
    }
}

/// The steps for all tiles that fill rules colour, rule by rule, each tile once: of two rules for
/// one tile the first holds. It fails for the first such tile that does not exist.
pub fn fill_descendants(fills: &[UniformFill], bounds: &[TileBounds], max_z: u8) -> (steps: Result<
    Vec<BuildStep>,
    TileIdError,
>)
    requires
        max_z <= 31,
    ensures
        ({
            let all = first_of_each(all_fills(fills@, bounds@, max_z));
            match steps {
                Ok(found) => first_unknown(all) is None && found@ == all && identified(found@),
                Err(e) => first_unknown(all) matches Some(tile) && e == TileIdError::NoSuchTile {
                    tile,
                },
            }
        }),
{
    let mut steps: Vec<BuildStep> = Vec::new();
    let mut seen: HashSet<u64> = HashSet::new();
    let mut i: usize = 0;
    let ghost mut done: Seq<BuildStep> = seq![];
    proof {
        assert(fills@.take(0) =~= seq![]);
        assert(steps@ =~= seq![]);
        assert(pipeline::keys_of(tiles_of(done)) =~= Set::empty());
    }
    while i < fills.len()
        invariant
            i <= fills.len(),
            max_z <= 31,
            done == all_fills(fills@.take(i as int), bounds@, max_z),
            first_unknown(first_of_each(done)) is None,
            steps@ == first_of_each(done),
            identified(steps@),
            seen@ == pipeline::keys_of(tiles_of(done)),
        decreases fills.len() - i,
    {
        let fill = fills[i];
        let tiles = bounded_descendants(fill.root, bounds, max_z);
        let ghost rule = fill_steps(tiles@, fill.color);
        let ghost before = done;
        proof {
            assert(fills@.take(i + 1).drop_last() =~= fills@.take(i as int));
            assert(rule.take(0) =~= seq![]);
            assert(before + rule.take(0) =~= before);
            assert(rule == fill_steps(
                frontier::descendants(fill.root, bounds@, max_z),
                fill.color,
            ));
        }
        let mut j: usize = 0;
        while j < tiles.len()
            invariant
                i < fills.len(),
                j <= tiles.len(),
                fill == fills@[i as int],
                tiles@ == frontier::descendants(fill.root, bounds@, max_z),
                rule == fill_steps(tiles@, fill.color),
                before == all_fills(fills@.take(i as int), bounds@, max_z),
                fills@.take(i + 1).drop_last() == fills@.take(i as int),
                done == before + rule.take(j as int),
                first_unknown(first_of_each(done)) is None,
                steps@ == first_of_each(done),
                identified(steps@),
                seen@ == pipeline::keys_of(tiles_of(done)),
            decreases tiles.len() - j,
        {
            let tile = tiles[j];
            let ghost step = rule[j as int];
            let ghost more = before + rule.take(j + 1);
            proof {
                assert(more =~= done.push(step));
                assert(more.drop_last() =~= done);
                assert(tiles_of(more) =~= tiles_of(done).push(tile));
                pipeline::lemma_keys_of_push(tiles_of(done), tile);
                assert(first_of_each(done).push(step).drop_last() =~= first_of_each(done));
            }
            if seen.insert(tile_key(tile)) {
                match pmtiles_tile_id(tile) {
                    Ok(id) => {
                        steps.push(
                            BuildStep { id, tile, source: TileSource::Color { color: fill.color } },
                        );
                    },
                    Err(e) => {
                        proof {
                            let rest = lemma_all_fills_prefix(fills@, bounds@, max_z, i + 1);
                            assert(before + rule =~= more + rule.skip(j + 1));
                            assert(all_fills(fills@.take(i + 1), bounds@, max_z) == before + rule);
                            assert(all_fills(fills@, bounds@, max_z) =~= more + (rule.skip(j + 1)
                                + rest));
                            lemma_first_unknown_more(more, rule.skip(j + 1) + rest);
                        }
                        return Err(e);
                    },
                }
            }
            proof {
                done = more;
            }
            j += 1;
        }
        assert(rule.take(rule.len() as int) =~= rule);
        i += 1;
    }
    assert(fills@.take(fills@.len() as int) =~= fills@);
    Ok(steps)
}

/// The test for the tiles of one zoom.
pub open spec fn at_zoom(z: u8) -> spec_fn(BuildStep) -> bool {
    |step: BuildStep| step.tile.z == z
}

/// The test for the tiles whose key is not among some keys.
pub open spec fn not_among(keys: Set<u64>) -> spec_fn(BuildStep) -> bool {
    |step: BuildStep| !keys.contains(frontier::key_of(step.tile))
}

/// The filled tiles of one zoom, by id.
pub open spec fn fills_at(fills: Seq<BuildStep>, z: u8) -> Seq<BuildStep> {
    by_id(fills.filter(at_zoom(z)))
}

/// What a filter leaves carries the ids of its tiles if everything did.
proof fn lemma_filter_identified(steps: Seq<BuildStep>, keep: spec_fn(BuildStep) -> bool)
    requires
        identified(steps),
    ensures
        identified(steps.filter(keep)),
{
    let kept = steps.filter(keep);
    assert forall|i: int| 0 <= i < kept.len() implies (#[trigger] kept[i]).id == tile_id::id_of(
        kept[i].tile,
    ) && tile_id::id_known(kept[i].tile) by {
        assert(kept.contains(kept[i]));
        lemma_filter_from(steps, keep, kept[i]);
    }
}

/// What is put in order carries the ids of its tiles if everything did.
proof fn lemma_ordered_identified(before: Seq<BuildStep>, after: Seq<BuildStep>)
    requires
        ordered(before, after),
        identified(before),
    ensures
        identified(after),
{
    assert forall|i: int| 0 <= i < after.len() implies (#[trigger] after[i]).id == tile_id::id_of(
        after[i].tile,
    ) && tile_id::id_known(after[i].tile) by {
        assert(after.contains(after[i]));
        lemma_ordered_members(before, after, after[i]);
    }
}

/// The filled tiles of one zoom, by id.
pub fn fill_descendants_by_zoom(fills: &[BuildStep], z: u8) -> (steps: Vec<BuildStep>)
    ensures
        steps@ == fills_at(fills@, z),
        ordered(fills@.filter(at_zoom(z)), steps@),
        identified(fills@) ==> identified(steps@),
{
    let ghost keep = at_zoom(z);
    let mut steps: Vec<BuildStep> = Vec::new();
    let mut i: usize = 0;
    proof {
        reveal(Seq::filter);
        assert(fills@.take(0) =~= seq![]);
        assert(steps@ =~= seq![]);
    }
    while i < fills.len()
        invariant
            i <= fills.len(),
            keep == at_zoom(z),
            steps@ == fills@.take(i as int).filter(keep),
        decreases fills.len() - i,
    {
        proof {
            assert(fills@.take(i + 1).drop_last() =~= fills@.take(i as int));
            lemma_filter_last(fills@.take(i + 1), keep);
        }
        if fills[i].tile.z == z {
            steps.push(fills[i]);
        }
        i += 1;
    }
    assert(fills@.take(fills@.len() as int) =~= fills@);
    let ghost before = steps@;
    sort_by_id(&mut steps);
    proof {
        lemma_by_id(before, steps@);
        if identified(fills@) {
            lemma_filter_identified(fills@, keep);
            lemma_ordered_identified(before, steps@);
        }
    }
    steps
}

/// Two lists by id in one: of the two next ones the lesser id goes first, and of two equal ids the
/// one of the first list.
pub open spec fn merged(a: Seq<BuildStep>, b: Seq<BuildStep>) -> Seq<BuildStep>
    decreases a.len() + b.len(),
{
    if a.len() == 0 {
        b
    } else if b.len() == 0 {
        a
    } else if a[0].id <= b[0].id {
        seq![a[0]] + merged(a.drop_first(), b)
    } else {
        seq![b[0]] + merged(a, b.drop_first())
    }
}

/// The steps of one zoom: its staged files and its filled tiles by id, where a staged file stands
/// in for the fill of the same tile.
pub open spec fn zoom_steps(files: Seq<BuildStep>, fills: Seq<BuildStep>) -> Seq<BuildStep> {
    merged(files, fills.filter(not_among(pipeline::keys_of(tiles_of(files)))))
}

/// The steps of one zoom, from its staged files and its filled tiles.
pub fn merge_zoom(files: &[BuildStep], fills: &[BuildStep]) -> (steps: Vec<BuildStep>)
    ensures
        steps@ == zoom_steps(files@, fills@),
{
    let mut staged_keys: HashSet<u64> = HashSet::new();
    let mut i: usize = 0;
    assert(pipeline::keys_of(tiles_of(files@).take(0)) =~= Set::empty());
    while i < files.len()
        invariant
            i <= files.len(),
            staged_keys@ == pipeline::keys_of(tiles_of(files@).take(i as int)),
        decreases files.len() - i,
    {
        proof {
            let tiles = tiles_of(files@);
            assert(tiles.take(i + 1) =~= tiles.take(i as int).push(files@[i as int].tile));
            pipeline::lemma_keys_of_push(tiles.take(i as int), files@[i as int].tile);
        }
        staged_keys.insert(tile_key(files[i].tile));
        i += 1;
    }
    let ghost keys = pipeline::keys_of(tiles_of(files@));
    assert(tiles_of(files@).take(files@.len() as int) =~= tiles_of(files@));
    let ghost keep = not_among(keys);
    let mut kept: Vec<BuildStep> = Vec::new();
    let mut j: usize = 0;
    proof {
        reveal(Seq::filter);
        assert(fills@.take(0) =~= seq![]);
        assert(kept@ =~= seq![]);
    }
    while j < fills.len()
        invariant
            j <= fills.len(),
            keep == not_among(keys),
            staged_keys@ == keys,
            kept@ == fills@.take(j as int).filter(keep),
        decreases fills.len() - j,
    {
        proof {
            assert(fills@.take(j + 1).drop_last() =~= fills@.take(j as int));
            lemma_filter_last(fills@.take(j + 1), keep);
        }
        if !staged_keys.contains(&tile_key(fills[j].tile)) {
            kept.push(fills[j]);
        }
        j += 1;
    }
    assert(fills@.take(fills@.len() as int) =~= fills@);
    let mut steps: Vec<BuildStep> = Vec::new();
    let mut file_i: usize = 0;
    let mut fill_i: usize = 0;
    proof {
        assert(files@.skip(0) =~= files@);
        assert(kept@.skip(0) =~= kept@);
        assert(steps@ + merged(files@, kept@) =~= merged(files@, kept@));
    }
    while file_i < files.len() || fill_i < kept.len()
        invariant
            file_i <= files.len(),
            fill_i <= kept.len(),
            merged(files@, kept@) == steps@ + merged(
                files@.skip(file_i as int),
                kept@.skip(fill_i as int),
            ),
        decreases files.len() - file_i + kept.len() - fill_i,
    {
        let ghost a = files@.skip(file_i as int);
        let ghost b = kept@.skip(fill_i as int);
        let take_file: bool = if fill_i >= kept.len() {
            true
        } else if file_i >= files.len() {
            false
        } else {
            files[file_i].id <= kept[fill_i].id
        };
        let ghost before = steps@;
        if take_file {
            steps.push(files[file_i]);
            proof {
                assert(a.drop_first() =~= files@.skip(file_i + 1));
                assert(a[0] == files@[file_i as int]);
                assert(merged(a, b) =~= seq![a[0]] + merged(a.drop_first(), b));
                assert(steps@ + merged(a.drop_first(), b) =~= before + (seq![a[0]] + merged(
                    a.drop_first(),
                    b,
                )));
            }
            file_i += 1;
        } else {
            steps.push(kept[fill_i]);
            proof {
                assert(b.drop_first() =~= kept@.skip(fill_i + 1));
                assert(b[0] == kept@[fill_i as int]);
                assert(merged(a, b) =~= seq![b[0]] + merged(a, b.drop_first()));
                assert(steps@ + merged(a, b.drop_first()) =~= before + (seq![b[0]] + merged(
                    a,
                    b.drop_first(),
                )));
            }
            fill_i += 1;
        }
    }
    assert(steps@ + merged(files@.skip(file_i as int), kept@.skip(fill_i as int)) =~= steps@);
    steps
}

/// Merging neither adds nor drops a step.
pub proof fn lemma_merged_members(a: Seq<BuildStep>, b: Seq<BuildStep>, step: BuildStep)
    ensures
        merged(a, b).contains(step) <==> a.contains(step) || b.contains(step),
        merged(a, b).len() == a.len() + b.len(),
    decreases a.len() + b.len(),
{
    if a.len() > 0 && b.len() > 0 {
        let m = merged(a, b);
        let (head, rest, a1, b1) = if a[0].id <= b[0].id {
            (a[0], merged(a.drop_first(), b), a.drop_first(), b)
        } else {
            (b[0], merged(a, b.drop_first()), a, b.drop_first())
        };
        lemma_merged_members(a1, b1, step);
        assert(m =~= seq![head] + rest);
        assert(m.contains(step) <==> step == head || rest.contains(step)) by {
            if m.contains(step) {
                let i = choose|i: int| 0 <= i < m.len() && m[i] == step;
                if i > 0 {
                    assert(rest[i - 1] == step);
                }
            }
            if step == head {
                assert(m[0] == step);
            }
            if rest.contains(step) {
                let i = choose|i: int| 0 <= i < rest.len() && rest[i] == step;
                assert(m[i + 1] == step);
            }
        }
        lemma_contains_first(a, step);
        lemma_contains_first(b, step);
    }
}

proof fn lemma_contains_first(s: Seq<BuildStep>, step: BuildStep)
    requires
        s.len() > 0,
    ensures
        s.contains(step) <==> s[0] == step || s.drop_first().contains(step),
{
    if s.contains(step) {
        let i = choose|i: int| 0 <= i < s.len() && s[i] == step;
        if i > 0 {
            assert(s.drop_first()[i - 1] == step);
        }
    }
    if s.drop_first().contains(step) {
        let i = choose|i: int| 0 <= i < s.drop_first().len() && s.drop_first()[i] == step;
        assert(s[i + 1] == step);
    }
}

/// Whether ids always rise.
pub open spec fn strictly_ascending(steps: Seq<BuildStep>) -> bool {
    forall|i: int, j: int| 0 <= i < j < steps.len() ==> steps[i].id < steps[j].id
}

/// Two lists by id merge into a list by id.
pub proof fn law_merge_keeps_order(a: Seq<BuildStep>, b: Seq<BuildStep>)
    requires
        ascending(a),
        ascending(b),
    ensures
        ascending(merged(a, b)),
        strictly_ascending(a) && strictly_ascending(b) && (forall|i: int, j: int|
            0 <= i < a.len() && 0 <= j < b.len() ==> (#[trigger] a[i]).id != (#[trigger] b[j]).id)
            ==> strictly_ascending(merged(a, b)),
    decreases a.len() + b.len(),
{
    if a.len() > 0 && b.len() > 0 {
        let m = merged(a, b);
        let from_a = a[0].id <= b[0].id;
        let (head, rest, a1, b1) = if from_a {
            (a[0], merged(a.drop_first(), b), a.drop_first(), b)
        } else {
            (b[0], merged(a, b.drop_first()), a, b.drop_first())
        };
        assert(m =~= seq![head] + rest);
        law_merge_keeps_order(a1, b1);
        assert forall|i: int| 0 <= i < rest.len() implies head.id <= (#[trigger] rest[i]).id by {
            assert(rest.contains(rest[i]));
            lemma_merged_members(a1, b1, rest[i]);
            if a1.contains(rest[i]) {
                let k = choose|k: int| 0 <= k < a1.len() && a1[k] == rest[i];
                assert(a1[k] == (if from_a { a[k + 1] } else { a[k] }));
            } else {
                let k = choose|k: int| 0 <= k < b1.len() && b1[k] == rest[i];
                assert(b1[k] == (if from_a { b[k] } else { b[k + 1] }));
            }
        }
        assert forall|i: int, j: int| 0 <= i <= j < m.len() implies m[i].id <= m[j].id by {
            if i == 0 && j > 0 {
                assert(head.id <= rest[j - 1].id);
            } else if i > 0 {
                assert(rest[i - 1].id <= rest[j - 1].id);
            }
        }
        if strictly_ascending(a) && strictly_ascending(b) && (forall|i: int, j: int|
            0 <= i < a.len() && 0 <= j < b.len() ==> (#[trigger] a[i]).id != (#[trigger] b[j]).id) {
            assert forall|i: int, j: int| 0 <= i < a1.len() && 0 <= j < b1.len() implies (
            #[trigger] a1[i]).id != (#[trigger] b1[j]).id by {
                assert(a1[i] == (if from_a { a[i + 1] } else { a[i] }));
                assert(b1[j] == (if from_a { b[j] } else { b[j + 1] }));
            }
            assert forall|i: int, j: int| 0 <= i < j < a1.len() implies a1[i].id < a1[j].id by {
                assert(a1[i] == (if from_a { a[i + 1] } else { a[i] }));
                assert(a1[j] == (if from_a { a[j + 1] } else { a[j] }));
            }
            assert forall|i: int, j: int| 0 <= i < j < b1.len() implies b1[i].id < b1[j].id by {
                assert(b1[i] == (if from_a { b[i] } else { b[i + 1] }));
                assert(b1[j] == (if from_a { b[j] } else { b[j + 1] }));
            }
            assert(strictly_ascending(rest));
            assert forall|i: int| 0 <= i < rest.len() implies head.id < (#[trigger] rest[i]).id by {
                assert(rest.contains(rest[i]));
                lemma_merged_members(a1, b1, rest[i]);
                if a1.contains(rest[i]) {
                    let k = choose|k: int| 0 <= k < a1.len() && a1[k] == rest[i];
                    assert(a1[k] == (if from_a { a[k + 1] } else { a[k] }));
                } else {
                    let k = choose|k: int| 0 <= k < b1.len() && b1[k] == rest[i];
                    assert(b1[k] == (if from_a { b[k] } else { b[k + 1] }));
                }
            }
            assert forall|i: int, j: int| 0 <= i < j < m.len() implies m[i].id < m[j].id by {
                if i == 0 {
                    assert(head.id < rest[j - 1].id);
                } else {
                    assert(rest[i - 1].id < rest[j - 1].id);
                }
            }
        }
    }
}

/// Where a step goes among others in order: after all that are not of a greater id.
proof fn lemma_insert_place(steps: Seq<BuildStep>, id: u64) -> (p: int)
    requires
        ascending(steps),
    ensures
        0 <= p <= steps.len(),
        forall|i: int| 0 <= i < p ==> (#[trigger] steps[i]).id <= id,
        forall|i: int| p <= i < steps.len() ==> (#[trigger] steps[i]).id > id,
    decreases steps.len(),
{
    if steps.len() == 0 {
        0
    } else if steps.last().id <= id {
        assert forall|i: int| 0 <= i < steps.len() implies (#[trigger] steps[i]).id <= id by {
            assert(steps[i].id <= steps[steps.len() - 1].id);
        }
        steps.len() as int
    } else {
        let head = steps.drop_last();
        let p = lemma_insert_place(head, id);
        assert forall|i: int| 0 <= i < p implies (#[trigger] steps[i]).id <= id by {
            assert(head[i].id <= id);
        }
        assert forall|i: int| p <= i < steps.len() implies (#[trigger] steps[i]).id > id by {
            if i < head.len() {
                assert(head[i].id > id);
            }
        }
        p
    }
}

proof fn lemma_filter_none(steps: Seq<BuildStep>, keep: spec_fn(BuildStep) -> bool)
    requires
        forall|i: int| 0 <= i < steps.len() ==> !keep(#[trigger] steps[i]),
    ensures
        steps.filter(keep) == Seq::<BuildStep>::empty(),
    decreases steps.len(),
{
    reveal(Seq::filter);
    if steps.len() > 0 {
        lemma_filter_none(steps.drop_last(), keep);
    }
}

/// Steps can always be put in order.
pub proof fn lemma_by_id_orders(steps: Seq<BuildStep>)
    ensures
        ordered(steps, by_id(steps)),
    decreases steps.len(),
{
    if steps.len() == 0 {
        assert(ordered(steps, steps));
    } else {
        let head = steps.drop_last();
        let x = steps.last();
        lemma_by_id_orders(head);
        let sorted = by_id(head);
        let p = lemma_insert_place(sorted, x.id);
        let front = sorted.take(p);
        let back = sorted.skip(p);
        let after = front + seq![x] + back;
        assert(sorted =~= front + back);
        assert forall|i: int, j: int| 0 <= i <= j < after.len() implies after[i].id
            <= after[j].id by {
            assert(after[i] == (if i < p {
                sorted[i]
            } else if i == p {
                x
            } else {
                sorted[i - 1]
            }));
            assert(after[j] == (if j < p {
                sorted[j]
            } else if j == p {
                x
            } else {
                sorted[j - 1]
            }));
        }
        assert forall|id: u64| #[trigger] after.filter(with_id(id)) == steps.filter(with_id(id)) by {
            let keep = with_id(id);
            lemma_filter_last(steps, keep);
            Seq::filter_distributes_over_add(front, seq![x], keep);
            Seq::filter_distributes_over_add(front + seq![x], back, keep);
            Seq::filter_distributes_over_add(front, back, keep);
            assert(sorted.filter(keep) == head.filter(keep));
            lemma_filter_last(seq![x], keep);
            assert(seq![x].drop_last() =~= seq![]);
            lemma_filter_none(Seq::<BuildStep>::empty(), keep);
            if id == x.id {
                lemma_filter_none(back, keep);
                assert(after.filter(keep) =~= sorted.filter(keep).push(x));
            } else {
                assert(after.filter(keep) =~= sorted.filter(keep));
            }
        }
        assert(ordered(steps, after));
    }
}

/// Whether no two steps are of one id.
pub open spec fn ids_differ(steps: Seq<BuildStep>) -> bool {
    forall|i: int, j: int|
        0 <= i < j < steps.len() ==> (#[trigger] steps[i]).id != (#[trigger] steps[j]).id
}

proof fn lemma_filter_at_most_one(steps: Seq<BuildStep>, id: u64)
    requires
        ids_differ(steps),
    ensures
        steps.filter(with_id(id)).len() <= 1,
    decreases steps.len(),
{
    let keep = with_id(id);
    if steps.len() == 0 {
        lemma_filter_none(steps, keep);
    } else {
        let head = steps.drop_last();
        lemma_filter_last(steps, keep);
        lemma_filter_at_most_one(head, id);
        if keep(steps.last()) {
            assert forall|i: int| 0 <= i < head.len() implies !keep(#[trigger] head[i]) by {
                assert(steps[i].id != steps[steps.len() - 1].id);
            }
            lemma_filter_none(head, keep);
        }
    }
}

/// Steps of different ids are strictly ordered once they are in order.
pub proof fn lemma_ordered_strict(before: Seq<BuildStep>, after: Seq<BuildStep>)
    requires
        ordered(before, after),
        ids_differ(before),
    ensures
        strictly_ascending(after),
{
    broadcast use vstd::seq_lib::group_filter_ensures;

    assert forall|i: int, j: int| 0 <= i < j < after.len() implies after[i].id < after[j].id by {
        if after[i].id == after[j].id {
            let keep = with_id(after[i].id);
            let front = after.take(j);
            let back = after.skip(j);
            assert(after =~= front + back);
            Seq::filter_distributes_over_add(front, back, keep);
            assert(keep(front[i]));
            assert(front.filter(keep).contains(front[i]));
            assert(keep(back[0]));
            assert(back.filter(keep).contains(back[0]));
            assert(after.filter(keep).len() >= 2);
            assert(after.filter(keep) == before.filter(keep));
            lemma_filter_at_most_one(before, after[i].id);
        }
    }
}

/// What a filter leaves of a strictly ordered list is strictly ordered.
proof fn lemma_filter_strict(steps: Seq<BuildStep>, keep: spec_fn(BuildStep) -> bool)
    requires
        strictly_ascending(steps),
    ensures
        strictly_ascending(steps.filter(keep)),
    decreases steps.len(),
{
    if steps.len() == 0 {
        lemma_filter_none(steps, keep);
    } else {
        let head = steps.drop_last();
        lemma_filter_last(steps, keep);
        lemma_filter_strict(head, keep);
        let kept = steps.filter(keep);
        if keep(steps.last()) {
            assert forall|i: int, j: int| 0 <= i < j < kept.len() implies kept[i].id
                < kept[j].id by {
                let h = head.filter(keep);
                assert(kept[i] == h[i]);
                if j == kept.len() - 1 {
                    assert(h.contains(h[i]));
                    lemma_filter_from(head, keep, h[i]);
                    let k = choose|k: int| 0 <= k < head.len() && head[k] == h[i];
                    assert(steps[k].id < steps[steps.len() - 1].id);
                } else {
                    assert(kept[j] == h[j]);
                }
            }
        }
    }
}

/// Whether no two steps are for one tile.
pub open spec fn tiles_differ(steps: Seq<BuildStep>) -> bool {
    forall|i: int, j: int|
        0 <= i < j < steps.len() ==> (#[trigger] steps[i]).tile != (#[trigger] steps[j]).tile
}

/// Different tiles have different ids.
proof fn lemma_tiles_differ_ids(steps: Seq<BuildStep>)
    requires
        identified(steps),
        tiles_differ(steps),
    ensures
        ids_differ(steps),
{
    assert forall|i: int, j: int| 0 <= i < j < steps.len() implies (#[trigger] steps[i]).id != (
    #[trigger] steps[j]).id by {
        if steps[i].id == steps[j].id {
            tile_id::law_ids_distinct(steps[i].tile, steps[j].tile);
        }
    }
}

proof fn lemma_filter_tiles_differ(steps: Seq<BuildStep>, keep: spec_fn(BuildStep) -> bool)
    requires
        tiles_differ(steps),
    ensures
        tiles_differ(steps.filter(keep)),
    decreases steps.len(),
{
    if steps.len() == 0 {
        lemma_filter_none(steps, keep);
    } else {
        let head = steps.drop_last();
        lemma_filter_last(steps, keep);
        lemma_filter_tiles_differ(head, keep);
        let kept = steps.filter(keep);
        if keep(steps.last()) {
            assert forall|i: int, j: int| 0 <= i < j < kept.len() implies (
            #[trigger] kept[i]).tile != (#[trigger] kept[j]).tile by {
                let h = head.filter(keep);
                assert(kept[i] == h[i]);
                if j == kept.len() - 1 {
                    assert(h.contains(h[i]));
                    lemma_filter_from(head, keep, h[i]);
                    let k = choose|k: int| 0 <= k < head.len() && head[k] == h[i];
                    assert(steps[k].tile != steps[steps.len() - 1].tile);
                } else {
                    assert(kept[j] == h[j]);
                }
            }
        }
    }
}

/// Within one zoom ids always rise, where no tile is staged twice and no tile is filled twice.
pub proof fn law_zoom_strictly_ascends(zoom: u8, names: Seq<Seq<char>>, fills: Seq<BuildStep>)
    requires
        identified(staged(zoom, names)),
        tiles_differ(staged(zoom, names)),
        identified(fills),
        tiles_differ(fills),
    ensures
        strictly_ascending(zoom_steps(by_id(staged(zoom, names)), fills_at(fills, zoom))),
{
    let before = staged(zoom, names);
    let files = by_id(before);
    lemma_by_id_orders(before);
    lemma_tiles_differ_ids(before);
    lemma_ordered_strict(before, files);
    lemma_ordered_identified(before, files);
    let here = fills.filter(at_zoom(zoom));
    lemma_filter_identified(fills, at_zoom(zoom));
    lemma_filter_tiles_differ(fills, at_zoom(zoom));
    lemma_by_id_orders(here);
    lemma_tiles_differ_ids(here);
    let sorted = by_id(here);
    lemma_ordered_strict(here, sorted);
    lemma_ordered_identified(here, sorted);
    let keys = pipeline::keys_of(tiles_of(files));
    let kept = sorted.filter(not_among(keys));
    lemma_filter_strict(sorted, not_among(keys));
    lemma_filter_identified(sorted, not_among(keys));
    assert forall|i: int, j: int| 0 <= i < files.len() && 0 <= j < kept.len() implies (
    #[trigger] files[i]).id != (#[trigger] kept[j]).id by {
        assert(kept.contains(kept[j]));
        lemma_filter_from(sorted, not_among(keys), kept[j]);
        assert(tiles_of(files)[i] == files[i].tile);
        if files[i].id == kept[j].id {
            tile_id::law_ids_distinct(files[i].tile, kept[j].tile);
        }
    }
    law_merge_keeps_order(files, kept);
}

/// The names of the files in each directory of a run, from the first zoom on.
pub open spec fn names_at(names: Seq<Vec<String>>, i: int) -> Seq<Seq<char>> {
    spool::texts(names[i]@)
}

/// The steps of the whole archive, zoom by zoom.
pub open spec fn plan_steps(names: Seq<Vec<String>>, fills: Seq<BuildStep>, min_z: u8) -> Seq<
    BuildStep,
>
    decreases names.len(),
{
    if names.len() == 0 {
        seq![]
    } else {
        let z = (min_z + names.len() - 1) as u8;
        plan_steps(names.drop_last(), fills, min_z) + zoom_steps(
            by_id(staged(z, names_at(names, names.len() - 1))),
            fills_at(fills, z),
        )
    }
}

/// The first tile, directory by directory, that does not exist.
pub open spec fn first_unknown_file(names: Seq<Vec<String>>) -> Option<TileJob>
    decreases names.len(),
{
    if names.len() == 0 {
        None
    } else {
        match first_unknown_file(names.drop_last()) {
            Some(tile) => Some(tile),
            None => first_unknown_name(names_at(names, names.len() - 1)),
        }
    }
}

proof fn lemma_first_unknown_file(names: Seq<Vec<String>>, i: int)
    requires
        0 <= i <= names.len(),
        first_unknown_file(names.take(i)) is Some,
    ensures
        first_unknown_file(names) == first_unknown_file(names.take(i)),
    decreases names.len(),
{
    if i == names.len() {
        assert(names.take(i) =~= names);
    } else {
        assert(names.drop_last().take(i) =~= names.take(i));
        lemma_first_unknown_file(names.drop_last(), i);
    }
}

/// The tiles that fill rules colour, each once, in the order of the rules.
pub open spec fn filled_tiles(fills: Seq<UniformFill>, bounds: Seq<TileBounds>, max_z: u8) -> Seq<
    BuildStep,
> {
    first_of_each(all_fills(fills, bounds, max_z))
}

/// The tile for which the archive cannot be planned: a filled one before a staged one.
pub open spec fn plan_error(
    names: Seq<Vec<String>>,
    fills: Seq<UniformFill>,
    bounds: Seq<TileBounds>,
    max_z: u8,
) -> Option<TileJob> {
    match first_unknown(filled_tiles(fills, bounds, max_z)) {
        Some(tile) => Some(tile),
        None => first_unknown_file(names),
    }
}

/// The steps of a whole archive, from the names of the files in the directories of its zooms and
/// from its fill rules. Zoom by zoom, staged files and filled tiles are taken by id; where a tile
/// is staged its fill is left out. It fails for the first tile that does not exist.
pub fn build_pmtiles_from_temp(
    names: &[Vec<String>],
    fills: &[UniformFill],
    bounds: &[TileBounds],
    min_z: u8,
    max_z: u8,
) -> (plan: Result<BuildPlan, TileIdError>)
    requires
        min_z <= max_z <= 31,
        names@.len() == max_z - min_z + 1,
    ensures
        match plan {
            Ok(found) => {
                &&& plan_error(names@, fills@, bounds@, max_z) is None
                &&& found.steps@ == plan_steps(
                    names@,
                    filled_tiles(fills@, bounds@, max_z),
                    min_z,
                )
                &&& found.filled == filled_tiles(fills@, bounds@, max_z).len()
                &&& identified(found.steps@)
            },
            Err(e) => plan_error(names@, fills@, bounds@, max_z) matches Some(tile) && e
                == TileIdError::NoSuchTile { tile },
        },
{
    let filled = match fill_descendants(fills, bounds, max_z) {
        Ok(found) => found,
        Err(e) => {
            return Err(e);
        },
    };
    let mut steps: Vec<BuildStep> = Vec::new();
    let mut i: usize = 0;
    assert(names@.take(0) =~= seq![]);
    assert(steps@ =~= seq![]);
    while i < names.len()
        invariant
            i <= names.len(),
            min_z <= max_z <= 31,
            names@.len() == max_z - min_z + 1,
            filled@ == filled_tiles(fills@, bounds@, max_z),
            first_unknown(filled@) is None,
            identified(filled@),
            first_unknown_file(names@.take(i as int)) is None,
            steps@ == plan_steps(names@.take(i as int), filled@, min_z),
            identified(steps@),
        decreases names.len() - i,
    {
        let z: u8 = min_z + i as u8;
        proof {
            assert(names@.take(i + 1).drop_last() =~= names@.take(i as int));
            assert(names_at(names@.take(i + 1), i as int) == spool::texts(names@[i as int]@));
        }
        let files = match collect_zoom_temp_files(z, names[i].as_slice()) {
            Ok(found) => found,
            Err(e) => {
                proof {
                    lemma_first_unknown_file(names@, i + 1);
                }
                return Err(e);
            },
        };
        let here = fill_descendants_by_zoom(filled.as_slice(), z);
        let mut merged_steps = merge_zoom(files.as_slice(), here.as_slice());
        proof {
            let keep = not_among(pipeline::keys_of(tiles_of(files@)));
            lemma_filter_identified(here@, keep);
            let kept = here@.filter(keep);
            let m = merged(files@, kept);
            assert forall|k: int| 0 <= k < m.len() implies (#[trigger] m[k]).id == tile_id::id_of(
                m[k].tile,
            ) && tile_id::id_known(m[k].tile) by {
                assert(m.contains(m[k]));
                lemma_merged_members(files@, kept, m[k]);
            }
        }
        steps.append(&mut merged_steps);
        i += 1;
    }
    assert(names@.take(names@.len() as int) =~= names@);
    Ok(BuildPlan { filled: filled.len() as u64, steps })
}

/// Every step of a zoom is for a tile of that zoom, where the staged files are.
proof fn lemma_zoom_steps_zoom(
    zoom: u8,
    names: Seq<Seq<char>>,
    fills: Seq<BuildStep>,
    step: BuildStep,
)
    requires
        forall|i: int|
            0 <= i < staged(zoom, names).len() ==> (#[trigger] staged(zoom, names)[i]).tile.z
                == zoom,
        zoom_steps(by_id(staged(zoom, names)), fills_at(fills, zoom)).contains(step),
    ensures
        step.tile.z == zoom,
        staged(zoom, names).contains(step) || fills.contains(step),
{
    let before = staged(zoom, names);
    let files = by_id(before);
    let here = fills.filter(at_zoom(zoom));
    let sorted = by_id(here);
    let keep = not_among(pipeline::keys_of(tiles_of(files)));
    let kept = sorted.filter(keep);
    lemma_by_id_orders(before);
    lemma_by_id_orders(here);
    lemma_merged_members(files, kept, step);
    if files.contains(step) {
        lemma_ordered_members(before, files, step);
        let i = choose|i: int| 0 <= i < before.len() && before[i] == step;
        assert(before[i].tile.z == zoom);
    } else {
        lemma_filter_from(sorted, keep, step);
        lemma_ordered_members(here, sorted, step);
        lemma_filter_from(fills, at_zoom(zoom), step);
    }
}

/// Whether every directory holds only files of its own zoom, no tile twice, and none that does not
/// exist.
pub open spec fn directories_tidy(names: Seq<Vec<String>>, min_z: u8) -> bool {
    forall|i: int|
        0 <= i < names.len() ==> directory_tidy((min_z + i) as u8, #[trigger] names_at(names, i))
}

/// Whether a directory holds only files of its own zoom, no tile twice, and none that does not
/// exist.
pub open spec fn directory_tidy(zoom: u8, names: Seq<Seq<char>>) -> bool {
    &&& identified(staged(zoom, names))
    &&& tiles_differ(staged(zoom, names))
    &&& forall|i: int|
        0 <= i < staged(zoom, names).len() ==> (#[trigger] staged(zoom, names)[i]).tile.z == zoom
}

proof fn lemma_plan_steps_zoom(
    names: Seq<Vec<String>>,
    fills: Seq<BuildStep>,
    min_z: u8,
    step: BuildStep,
)
    requires
        min_z + names.len() <= 32,
        directories_tidy(names, min_z),
        identified(fills),
        plan_steps(names, fills, min_z).contains(step),
    ensures
        min_z <= step.tile.z < min_z + names.len(),
        step.id == tile_id::id_of(step.tile),
        tile_id::id_known(step.tile),
    decreases names.len(),
{
    let n = names.len() - 1;
    let z = (min_z + n) as u8;
    let head = plan_steps(names.drop_last(), fills, min_z);
    let here = zoom_steps(by_id(staged(z, names_at(names, n))), fills_at(fills, z));
    let all = plan_steps(names, fills, min_z);
    let i = choose|i: int| 0 <= i < all.len() && all[i] == step;
    if i < head.len() {
        assert(head[i] == step);
        assert forall|k: int| 0 <= k < names.drop_last().len() implies directory_tidy(
            (min_z + k) as u8,
            #[trigger] names_at(names.drop_last(), k),
        ) by {
            assert(names_at(names, k) == names_at(names.drop_last(), k));
        }
        lemma_plan_steps_zoom(names.drop_last(), fills, min_z, step);
    } else {
        assert(here[i - head.len()] == step);
        assert(directory_tidy(z, names_at(names, n)));
        lemma_zoom_steps_zoom(z, names_at(names, n), fills, step);
        let files = staged(z, names_at(names, n));
        if files.contains(step) {
            let k = choose|k: int| 0 <= k < files.len() && files[k] == step;
            assert(files[k].id == tile_id::id_of(files[k].tile));
        } else {
            let k = choose|k: int| 0 <= k < fills.len() && fills[k] == step;
            assert(fills[k].id == tile_id::id_of(fills[k].tile));
        }
    }
}

/// The ids of an archive always rise, where its filled tiles are different ones.
proof fn lemma_archive_strictly_ascends(
    names: Seq<Vec<String>>,
    fills: Seq<BuildStep>,
    min_z: u8,
)
    requires
        min_z + names.len() <= 32,
        directories_tidy(names, min_z),
        identified(fills),
        tiles_differ(fills),
    ensures
        strictly_ascending(plan_steps(names, fills, min_z)),
    decreases names.len(),
{
    if names.len() > 0 {
        let n = names.len() - 1;
        let z = (min_z + n) as u8;
        let less = names.drop_last();
        assert forall|k: int| 0 <= k < less.len() implies directory_tidy(
            (min_z + k) as u8,
            #[trigger] names_at(less, k),
        ) by {
            assert(names_at(names, k) == names_at(less, k));
        }
        lemma_archive_strictly_ascends(less, fills, min_z);
        assert(directory_tidy(z, names_at(names, n)));
        law_zoom_strictly_ascends(z, names_at(names, n), fills);
        let head = plan_steps(less, fills, min_z);
        let here = zoom_steps(by_id(staged(z, names_at(names, n))), fills_at(fills, z));
        let all = plan_steps(names, fills, min_z);
        assert(all =~= head + here);
        assert forall|i: int, j: int| 0 <= i < j < all.len() implies all[i].id < all[j].id by {
            if j < head.len() {
                assert(head[i].id < head[j].id);
            } else if i >= head.len() {
                assert(here[i - head.len()].id < here[j - head.len()].id);
            } else {
                assert(head.contains(head[i]));
                lemma_plan_steps_zoom(less, fills, min_z, head[i]);
                assert(all.contains(all[j]));
                lemma_plan_steps_zoom(names, fills, min_z, all[j]);
                assert(here.contains(here[j - head.len()]));
                lemma_zoom_steps_zoom(z, names_at(names, n), fills, here[j - head.len()]);
                tile_id::law_lesser_zoom_lesser_id(head[i].tile, all[j].tile);
            }
        }
    }
}

/// No key stands twice among the filled tiles, and each is that of a tile that some rule names.
proof fn lemma_first_of_each(steps: Seq<BuildStep>)
    ensures
        pipeline::keys_of(tiles_of(first_of_each(steps))) == pipeline::keys_of(tiles_of(steps)),
        forall|i: int, j: int|
            0 <= i < j < first_of_each(steps).len() ==> frontier::key_of(
                (#[trigger] first_of_each(steps)[i]).tile,
            ) != frontier::key_of((#[trigger] first_of_each(steps)[j]).tile),
        forall|i: int| 0 <= i < first_of_each(steps).len() ==> steps.contains(
            #[trigger] first_of_each(steps)[i],
        ),
    decreases steps.len(),
{
    if steps.len() == 0 {
        assert(tiles_of(first_of_each(steps)) =~= tiles_of(steps));
    } else {
        let head = steps.drop_last();
        let last = steps.last();
        lemma_first_of_each(head);
        let h = first_of_each(head);
        let all = first_of_each(steps);
        let key = frontier::key_of(last.tile);
        assert(tiles_of(steps) =~= tiles_of(head).push(last.tile));
        pipeline::lemma_keys_of_push(tiles_of(head), last.tile);
        if pipeline::keys_of(tiles_of(head)).contains(key) {
            assert(pipeline::keys_of(tiles_of(head)).insert(key) =~= pipeline::keys_of(
                tiles_of(head),
            ));
        } else {
            assert(tiles_of(all) =~= tiles_of(h).push(last.tile));
            pipeline::lemma_keys_of_push(tiles_of(h), last.tile);
            assert forall|i: int, j: int| 0 <= i < j < all.len() implies frontier::key_of(
                (#[trigger] all[i]).tile,
            ) != frontier::key_of((#[trigger] all[j]).tile) by {
                assert(all[i] == h[i]);
                if j == h.len() {
                    assert(tiles_of(h)[i] == h[i].tile);
                    assert(pipeline::keys_of(tiles_of(h)).contains(frontier::key_of(h[i].tile)));
                } else {
                    assert(all[j] == h[j]);
                }
            }
        }
        assert forall|i: int| 0 <= i < all.len() implies steps.contains(#[trigger] all[i]) by {
            if i < h.len() {
                assert(all[i] == h[i]);
                let k = choose|k: int| 0 <= k < head.len() && head[k] == h[i];
                assert(steps[k] == all[i]);
            } else {
                assert(steps[steps.len() - 1] == all[i]);
            }
        }
    }
}

/// The ids of an archive always rise, from its first tile to its last: each tile is written after
/// all tiles of lesser id, and no tile is written twice.
pub proof fn law_archive_strictly_ascends(
    names: Seq<Vec<String>>,
    fills: Seq<UniformFill>,
    bounds: Seq<TileBounds>,
    min_z: u8,
    max_z: u8,
)
    requires
        min_z + names.len() <= 32,
        directories_tidy(names, min_z),
        identified(filled_tiles(fills, bounds, max_z)),
    ensures
        strictly_ascending(plan_steps(names, filled_tiles(fills, bounds, max_z), min_z)),
{
    let filled = filled_tiles(fills, bounds, max_z);
    lemma_first_of_each(all_fills(fills, bounds, max_z));
    assert forall|i: int, j: int| 0 <= i < j < filled.len() implies (#[trigger] filled[i]).tile != (
    #[trigger] filled[j]).tile by {
        assert(frontier::key_of(filled[i].tile) != frontier::key_of(filled[j].tile));
    }
    lemma_archive_strictly_ascends(names, filled, min_z);
}

/// The place of the first rule whose root covers a tile, or the number of rules.
pub open spec fn first_rule(fills: Seq<UniformFill>, tile: TileJob) -> nat
    decreases fills.len(),
{
    if fills.len() == 0 {
        0
    } else {
        let head = fills.drop_last();
        if first_rule(head, tile) < head.len() || pyramid::above(fills.last().root, tile) {
            first_rule(head, tile)
        } else {
            fills.len()
        }
    }
}

/// Whether a tile is one of the run: of a zoom up to its last, and within the bounds of its zoom.
pub open spec fn of_run(bounds: Seq<TileBounds>, max_z: u8, tile: TileJob) -> bool {
    tile.z <= max_z && frontier::in_bounds(bounds, tile)
}

proof fn lemma_first_of_each_add(a: Seq<BuildStep>, b: Seq<BuildStep>)
    ensures
        first_of_each(a + b).len() >= first_of_each(a).len(),
        first_of_each(a + b).take(first_of_each(a).len() as int) == first_of_each(a),
        forall|i: int|
            first_of_each(a).len() <= i < first_of_each(a + b).len() ==> b.contains(
                #[trigger] first_of_each(a + b)[i],
            ) && !pipeline::keys_of(tiles_of(a)).contains(
                frontier::key_of(first_of_each(a + b)[i].tile),
            ),
    decreases b.len(),
{
    let fa = first_of_each(a);
    if b.len() == 0 {
        assert(a + b =~= a);
        assert(fa.take(fa.len() as int) =~= fa);
    } else {
        let bb = b.drop_last();
        lemma_first_of_each_add(a, bb);
        assert((a + b).drop_last() =~= a + bb);
        let prev = first_of_each(a + bb);
        let all = first_of_each(a + b);
        assert(all.take(fa.len() as int) =~= prev.take(fa.len() as int));
        assert forall|i: int| fa.len() <= i < all.len() implies b.contains(#[trigger] all[i])
            && !pipeline::keys_of(tiles_of(a)).contains(frontier::key_of(all[i].tile)) by {
            if i < prev.len() {
                assert(all[i] == prev[i]);
                let k = choose|k: int| 0 <= k < bb.len() && bb[k] == prev[i];
                assert(b[k] == all[i]);
            } else {
                assert(b[b.len() - 1] == all[i]);
                let key = frontier::key_of(all[i].tile);
                if pipeline::keys_of(tiles_of(a)).contains(key) {
                    let k = choose|k: int|
                        0 <= k < tiles_of(a).len() && frontier::key_of(#[trigger] tiles_of(a)[k])
                            == key;
                    assert(tiles_of(a + bb)[k] == tiles_of(a)[k]);
                }
            }
        }
    }
}

/// The filled tiles are exactly the tiles of the run below some root, each once, in the colour of
/// the first rule whose root is above it, where keys tell tiles apart.
pub proof fn law_filled_tiles_exact(fills: Seq<UniformFill>, bounds: Seq<TileBounds>, max_z: u8)
    requires
        max_z <= 31,
        frontier::keys_fit(bounds),
    ensures
        ({
            let filled = filled_tiles(fills, bounds, max_z);
            &&& tiles_differ(filled)
            &&& forall|tile: TileJob|
                tiles_of(filled).contains(tile) <==> of_run(bounds, max_z, tile)
                    && #[trigger] first_rule(fills, tile) < fills.len()
            &&& forall|i: int|
                0 <= i < filled.len() ==> (#[trigger] filled[i]) == step_for(
                    filled[i].tile,
                    TileSource::Color {
                        color: fills[first_rule(fills, filled[i].tile) as int].color,
                    },
                )
        }),
    decreases fills.len(),
{
    let filled = filled_tiles(fills, bounds, max_z);
    let all = all_fills(fills, bounds, max_z);
    lemma_all_fill_tiles(fills, bounds, max_z);
    lemma_first_of_each(all);
    assert forall|i: int, j: int| 0 <= i < j < filled.len() implies (#[trigger] filled[i]).tile != (
    #[trigger] filled[j]).tile by {
        assert(frontier::key_of(filled[i].tile) != frontier::key_of(filled[j].tile));
    }
    assert forall|tile: TileJob|
        tiles_of(filled).contains(tile) <==> of_run(bounds, max_z, tile) && #[trigger] first_rule(
            fills,
            tile,
        ) < fills.len() by {
        if tiles_of(filled).contains(tile) {
            let i = choose|i: int| 0 <= i < tiles_of(filled).len() && tiles_of(filled)[i] == tile;
            assert(all.contains(filled[i]));
            let k = choose|k: int| 0 <= k < all.len() && all[k] == filled[i];
            assert(tiles_of(all)[k] == tile);
            assert(tiles_of(all).contains(tile));
        }
        if of_run(bounds, max_z, tile) && first_rule(fills, tile) < fills.len() {
            assert(tiles_of(all).contains(tile));
            let k = choose|k: int| 0 <= k < tiles_of(all).len() && tiles_of(all)[k] == tile;
            assert(pipeline::keys_of(tiles_of(all)).contains(frontier::key_of(tile)));
            let i = choose|i: int|
                0 <= i < tiles_of(filled).len() && frontier::key_of(#[trigger] tiles_of(filled)[i])
                    == frontier::key_of(tile);
            assert(all.contains(filled[i]));
            let m = choose|m: int| 0 <= m < all.len() && all[m] == filled[i];
            assert(tiles_of(all)[m] == filled[i].tile);
            assert(tiles_of(all).contains(filled[i].tile));
            lemma_of_run_key_fits(bounds, max_z, tile);
            lemma_of_run_key_fits(bounds, max_z, filled[i].tile);
            frontier::law_tile_key_injective(tile, filled[i].tile);
            assert(tiles_of(filled)[i] == tile);
        }
    }
    lemma_fill_colors(fills, bounds, max_z);
}

/// The tiles of a run fit into keys where its bounds do.
pub proof fn lemma_of_run_key_fits(bounds: Seq<TileBounds>, max_z: u8, tile: TileJob)
    requires
        max_z <= 31,
        of_run(bounds, max_z, tile),
        frontier::keys_fit(bounds),
    ensures
        frontier::key_fits(tile),
{
    let b = bounds[frontier::bounds_index(bounds, tile.z) as int];
    assert(b.holds(tile));
}

/// The tiles that the rules name are those of the run below some root.
proof fn lemma_all_fill_tiles(fills: Seq<UniformFill>, bounds: Seq<TileBounds>, max_z: u8)
    ensures
        forall|tile: TileJob|
            #![trigger tiles_of(all_fills(fills, bounds, max_z)).contains(tile)]
            tiles_of(all_fills(fills, bounds, max_z)).contains(tile) <==> of_run(
                bounds,
                max_z,
                tile,
            ) && first_rule(fills, tile) < fills.len(),
    decreases fills.len(),
{
    let all = all_fills(fills, bounds, max_z);
    if fills.len() > 0 {
        let head = fills.drop_last();
        let last = fills.last();
        lemma_all_fill_tiles(head, bounds, max_z);
        pyramid::law_descendants_exact(last.root, bounds, max_z);
        let below = frontier::descendants(last.root, bounds, max_z);
        let before = tiles_of(all_fills(head, bounds, max_z));
        assert(tiles_of(all) =~= before + below);
        assert forall|tile: TileJob|
            #![trigger tiles_of(all).contains(tile)]
            tiles_of(all).contains(tile) <==> of_run(bounds, max_z, tile) && first_rule(
                fills,
                tile,
            ) < fills.len() by {
            lemma_first_rule_bound(head, tile);
            if tiles_of(all).contains(tile) {
                let i = choose|i: int| 0 <= i < tiles_of(all).len() && tiles_of(all)[i] == tile;
                if i < before.len() {
                    assert(before[i] == tile);
                    assert(before.contains(tile));
                } else {
                    assert(below[i - before.len()] == tile);
                    assert(below.contains(tile));
                }
            }
            if before.contains(tile) {
                let i = choose|i: int| 0 <= i < before.len() && before[i] == tile;
                assert((before + below)[i] == tile);
            }
            if below.contains(tile) {
                let i = choose|i: int| 0 <= i < below.len() && below[i] == tile;
                assert((before + below)[before.len() + i] == tile);
            }
        }
    }
}

pub proof fn lemma_first_rule_bound(fills: Seq<UniformFill>, tile: TileJob)
    ensures
        first_rule(fills, tile) <= fills.len(),
    decreases fills.len(),
{
    if fills.len() > 0 {
        lemma_first_rule_bound(fills.drop_last(), tile);
    }
}

/// Every filled tile has the colour of the first rule whose root is above it.
proof fn lemma_fill_colors(fills: Seq<UniformFill>, bounds: Seq<TileBounds>, max_z: u8)
    requires
        max_z <= 31,
        frontier::keys_fit(bounds),
    ensures
        forall|i: int|
            0 <= i < filled_tiles(fills, bounds, max_z).len() ==> (#[trigger] filled_tiles(
                fills,
                bounds,
                max_z,
            )[i]) == step_for(
                filled_tiles(fills, bounds, max_z)[i].tile,
                TileSource::Color {
                    color: fills[first_rule(
                        fills,
                        filled_tiles(fills, bounds, max_z)[i].tile,
                    ) as int].color,
                },
            ),
    decreases fills.len(),
{
    let filled = filled_tiles(fills, bounds, max_z);
    if fills.len() > 0 {
        let head = fills.drop_last();
        let last = fills.last();
        lemma_fill_colors(head, bounds, max_z);
        let before = all_fills(head, bounds, max_z);
        let below = frontier::descendants(last.root, bounds, max_z);
        let rule = fill_steps(below, last.color);
        let earlier = first_of_each(before);
        lemma_first_of_each(before);
        lemma_first_of_each_add(before, rule);
        lemma_all_fill_tiles(head, bounds, max_z);
        pyramid::law_descendants_exact(last.root, bounds, max_z);
        assert forall|i: int| 0 <= i < filled.len() implies (#[trigger] filled[i]) == step_for(
            filled[i].tile,
            TileSource::Color { color: fills[first_rule(fills, filled[i].tile) as int].color },
        ) by {
            let tile = filled[i].tile;
            lemma_first_rule_bound(head, tile);
            if i < earlier.len() {
                assert(filled.take(earlier.len() as int)[i] == earlier[i]);
                assert(before.contains(earlier[i]));
                let k = choose|k: int| 0 <= k < before.len() && before[k] == earlier[i];
                assert(tiles_of(before)[k] == tile);
                assert(tiles_of(before).contains(tile));
                assert(first_rule(head, tile) < head.len());
            } else {
                assert(rule.contains(filled[i]));
                let k = choose|k: int| 0 <= k < rule.len() && rule[k] == filled[i];
                assert(below[k] == tile);
                assert(below.contains(tile));
                if first_rule(head, tile) < head.len() {
                    assert(tiles_of(before).contains(tile));
                    let m = choose|m: int|
                        0 <= m < tiles_of(before).len() && tiles_of(before)[m] == tile;
                    assert(frontier::key_of(tiles_of(before)[m]) == frontier::key_of(tile));
                }
                assert(first_rule(fills, tile) == head.len());
            }
        }
    }
}

/// A zoom gets each of its staged tiles, and each of its filled tiles whose key no staged tile has;
/// nothing else.
pub proof fn law_zoom_steps_exact(
    zoom: u8,
    names: Seq<Seq<char>>,
    fills: Seq<BuildStep>,
    step: BuildStep,
)
    ensures
        zoom_steps(by_id(staged(zoom, names)), fills_at(fills, zoom)).contains(step) <==> {
            ||| staged(zoom, names).contains(step)
            ||| {
                &&& fills.contains(step)
                &&& step.tile.z == zoom
                &&& !pipeline::keys_of(tiles_of(staged(zoom, names))).contains(
                    frontier::key_of(step.tile),
                )
            }
        },
{
    broadcast use vstd::seq_lib::group_filter_ensures;

    let before = staged(zoom, names);
    let files = by_id(before);
    let here = fills.filter(at_zoom(zoom));
    let sorted = by_id(here);
    lemma_by_id_orders(before);
    lemma_by_id_orders(here);
    let keys = pipeline::keys_of(tiles_of(files));
    assert(keys =~= pipeline::keys_of(tiles_of(before))) by {
        lemma_same_members_same_keys(before, files);
        lemma_same_members_same_keys(files, before);
    }
    let keep = not_among(keys);
    let kept = sorted.filter(keep);
    lemma_merged_members(files, kept, step);
    lemma_ordered_members(before, files, step);
    lemma_ordered_members(here, sorted, step);
    if kept.contains(step) {
        lemma_filter_from(sorted, keep, step);
        lemma_filter_from(fills, at_zoom(zoom), step);
    }
    if fills.contains(step) && step.tile.z == zoom && !keys.contains(frontier::key_of(step.tile)) {
        let i = choose|i: int| 0 <= i < fills.len() && fills[i] == step;
        assert(at_zoom(zoom)(fills[i]));
        assert(here.contains(fills[i]));
        let j = choose|j: int| 0 <= j < sorted.len() && sorted[j] == step;
        assert(keep(sorted[j]));
        assert(kept.contains(sorted[j]));
    }
}

proof fn lemma_same_members_same_keys(a: Seq<BuildStep>, b: Seq<BuildStep>)
    requires
        ordered(a, b) || ordered(b, a),
    ensures
        pipeline::keys_of(tiles_of(a)).subset_of(pipeline::keys_of(tiles_of(b))),
{
    assert forall|key: u64| pipeline::keys_of(tiles_of(a)).contains(key) implies pipeline::keys_of(
        tiles_of(b),
    ).contains(key) by {
        let i = choose|i: int|
            0 <= i < tiles_of(a).len() && frontier::key_of(#[trigger] tiles_of(a)[i]) == key;
        assert(a.contains(a[i]));
        if ordered(a, b) {
            lemma_ordered_members(a, b, a[i]);
        } else {
            lemma_ordered_members(b, a, a[i]);
        }
        let j = choose|j: int| 0 <= j < b.len() && b[j] == a[i];
        assert(tiles_of(b)[j] == a[i].tile);
    }
}

/// The names of all directories.
pub open spec fn name_count(names: Seq<Vec<String>>) -> nat
    decreases names.len(),
{
    if names.len() == 0 {
        0
    } else {
        name_count(names.drop_last()) + names.last()@.len()
    }
}

/// The staged tiles of all directories.
pub open spec fn staged_count(names: Seq<Vec<String>>) -> nat
    decreases names.len(),
{
    if names.len() == 0 {
        0
    } else {
        staged_count(names.drop_last()) + spool::tiles_named(
            names_at(names, names.len() - 1),
        ).len()
    }
}

proof fn lemma_tiles_named_len(names: Seq<Seq<char>>)
    ensures
        spool::tiles_named(names).len() <= names.len(),
    decreases names.len(),
{
    if names.len() > 0 {
        lemma_tiles_named_len(names.drop_last());
    }
}

proof fn lemma_counts_grow(names: Seq<Vec<String>>, i: int)
    requires
        0 <= i <= names.len(),
    ensures
        staged_count(names.take(i)) <= name_count(names.take(i)) <= name_count(names),
    decreases names.len(),
{
    if i < names.len() {
        lemma_counts_grow(names.drop_last(), i);
        assert(names.drop_last().take(i) =~= names.take(i));
    } else {
        assert(names.take(i) =~= names);
        if names.len() > 0 {
            lemma_counts_grow(names.drop_last(), i - 1);
            assert(names.drop_last().take(i - 1) =~= names.drop_last());
            lemma_tiles_named_len(names_at(names, names.len() - 1));
        }
    }
}

/// How many tiles are staged, from the names of the files in each directory.
pub fn count_pmtiles_temp_tiles(names: &[Vec<String>]) -> (count: u64)
    requires
        name_count(names@) <= u64::MAX,
    ensures
        count == staged_count(names@),
{
    let mut count: u64 = 0;
    let mut i: usize = 0;
    assert(names@.take(0) =~= seq![]);
    while i < names.len()
        invariant
            i <= names.len(),
            name_count(names@) <= u64::MAX,
            count == staged_count(names@.take(i as int)),
        decreases names.len() - i,
    {
        let ghost all = spool::texts(names@[i as int]@);
        proof {
            assert(names@.take(i + 1).drop_last() =~= names@.take(i as int));
            assert(names_at(names@.take(i + 1), i as int) == all);
            lemma_counts_grow(names@, i + 1);
            assert(all.take(0) =~= seq![]);
        }
        let ghost before = count;
        let mut k: usize = 0;
        while k < names[i].len()
            invariant
                i < names.len(),
                k <= names@[i as int]@.len(),
                all == spool::texts(names@[i as int]@),
                before + spool::tiles_named(all).len() <= u64::MAX,
                count == before + spool::tiles_named(all.take(k as int)).len(),
            decreases names@[i as int]@.len() - k,
        {
            proof {
                assert(all.take(k + 1).drop_last() =~= all.take(k as int));
                assert(all.take(k + 1).last() == names@[i as int]@[k as int]@);
                lemma_tiles_named_grow(all, k + 1);
            }
            if parse_tile_filename(names[i][k].as_str()).is_some() {
                count += 1;
            }
            k += 1;
        }
        assert(all.take(all.len() as int) =~= all);
        i += 1;
    }
    assert(names@.take(names@.len() as int) =~= names@);
    count
}

proof fn lemma_tiles_named_grow(names: Seq<Seq<char>>, i: int)
    requires
        0 <= i <= names.len(),
    ensures
        spool::tiles_named(names.take(i)).len() <= spool::tiles_named(names).len(),
    decreases names.len(),
{
    if i < names.len() {
        lemma_tiles_named_grow(names.drop_last(), i);
        assert(names.drop_last().take(i) =~= names.take(i));
    } else {
        assert(names.take(i) =~= names);
    }
}

/// What has become of the tiles of an archive so far.
pub struct BuildLog {
    pub written: u64,
    pub skipped: Vec<TileJob>,
}

impl BuildLog {
    /// A log of nothing.
    pub fn new() -> (log: BuildLog)
        ensures
            log.written == 0,
            log.skipped@.len() == 0,
    {
        BuildLog { written: 0, skipped: Vec::new() }
    }

    /// Takes what was read of a staged tile. Its bytes go into the archive; a tile that could not
    /// be read, or of which there are no bytes, is skipped and logged.
    pub fn offer(&mut self, tile: TileJob, read: Option<Vec<u8>>) -> (data: Option<Vec<u8>>)
        requires
            old(self).written < u64::MAX,
        ensures
            (read matches Some(bytes) && bytes@.len() > 0) ==> data == read && final(self).written
                == old(self).written + 1 && final(self).skipped@ == old(self).skipped@,
            !(read matches Some(bytes) && bytes@.len() > 0) ==> data is None && final(self).written
                == old(self).written && final(self).skipped@ == old(self).skipped@.push(tile),
    {
        match read {
            Some(bytes) => if bytes.len() > 0 {
                self.written += 1;
                Some(bytes)
            } else {
                self.skipped.push(tile);
                None
            },
            None => {
                self.skipped.push(tile);
                None
            },
        }
    }

    /// Counts a filled tile of the archive.
    pub fn add_filled(&mut self)
        requires
            old(self).written < u64::MAX,
        ensures
            final(self).written == old(self).written + 1,
            final(self).skipped@ == old(self).skipped@,
    {
        self.written += 1;
    }

    /// Whether the staging directory stays: because it is wanted, or because the archive lacks a
    /// tile that can be repaired from it.
    pub fn keeps_temp(&self, keep_temp: bool) -> (r: bool)
        ensures
            r == (keep_temp || self.skipped@.len() > 0),
    {
        keep_temp || self.skipped.len() > 0
    }
}

/// The steps for a directory are those for the names that are read as tiles: each with its own tile,
/// the id of that tile, and its place among the names.
pub proof fn law_staged_steps_by_name(zoom: u8, names: Seq<Seq<char>>, step: BuildStep)
    requires
        names.len() <= usize::MAX,
    ensures
        staged(zoom, names).contains(step) <==> exists|i: int|
            0 <= i < names.len() && frontier::parsed_filename(#[trigger] names[i]) == Some(
                step.tile,
            ) && step.id == tile_id::id_of(step.tile) && step.source == (TileSource::File {
                zoom,
                index: i as usize,
            }),
    decreases names.len(),
{
    let all = staged(zoom, names);
    if names.len() > 0 {
        let less = names.drop_last();
        let head = staged(zoom, less);
        let n = names.len() - 1;
        law_staged_steps_by_name(zoom, less, step);
        if all.contains(step) {
            let m = choose|m: int| 0 <= m < all.len() && all[m] == step;
            if m < head.len() {
                assert(head[m] == step);
                let i = choose|i: int|
                    0 <= i < less.len() && frontier::parsed_filename(#[trigger] less[i]) == Some(
                        step.tile,
                    ) && step.id == tile_id::id_of(step.tile) && step.source == (TileSource::File {
                        zoom,
                        index: i as usize,
                    });
                assert(names[i] == less[i]);
            } else {
                assert(names[n] == names.last());
            }
        }
        if exists|i: int|
            0 <= i < names.len() && frontier::parsed_filename(#[trigger] names[i]) == Some(
                step.tile,
            ) && step.id == tile_id::id_of(step.tile) && step.source == (TileSource::File {
                zoom,
                index: i as usize,
            }) {
            let i = choose|i: int|
                0 <= i < names.len() && frontier::parsed_filename(#[trigger] names[i]) == Some(
                    step.tile,
                ) && step.id == tile_id::id_of(step.tile) && step.source == (TileSource::File {
                    zoom,
                    index: i as usize,
                });
            if i < n {
                assert(less[i] == names[i]);
                let m = choose|m: int| 0 <= m < head.len() && head[m] == step;
                assert(all[m] == step);
            } else {
                assert(all.last() == step);
            }
        }
    }
}

/// The first unknown tile among names is one that does not exist. If there is none, all tiles that
/// names are read as exist.
pub proof fn law_unknown_names(names: Seq<Seq<char>>)
    ensures
        first_unknown_name(names) is None <==> forall|i: int|
            0 <= i < names.len() ==> (frontier::parsed_filename(#[trigger] names[i]) matches Some(t)
                ==> tile_id::exists_tile(t)),
        first_unknown_name(names) matches Some(tile) ==> !tile_id::exists_tile(tile) && exists|
            i: int,
        |
            0 <= i < names.len() && frontier::parsed_filename(#[trigger] names[i]) == Some(tile),
    decreases names.len(),
{
    if names.len() > 0 {
        let less = names.drop_last();
        let n = names.len() - 1;
        law_unknown_names(less);
        assert(forall|i: int| 0 <= i < n ==> less[i] == #[trigger] names[i]);
        assert(names[n] == names.last());
        if first_unknown_name(less) is Some {
            let tile = first_unknown_name(less)->0;
            let i = choose|i: int|
                0 <= i < less.len() && frontier::parsed_filename(#[trigger] less[i]) == Some(tile);
            assert(frontier::parsed_filename(names[i]) == Some(tile));
        }
        if forall|i: int|
            0 <= i < names.len() ==> (frontier::parsed_filename(#[trigger] names[i]) matches Some(t)
                ==> tile_id::exists_tile(t)) {
            assert forall|i: int| 0 <= i < less.len() implies (frontier::parsed_filename(
                #[trigger] less[i],
            ) matches Some(t) ==> tile_id::exists_tile(t)) by {
                assert(names[i] == less[i]);
            }
        }
        if first_unknown_name(names) is None {
            assert forall|i: int| 0 <= i < names.len() implies (frontier::parsed_filename(
                #[trigger] names[i],
            ) matches Some(t) ==> tile_id::exists_tile(t)) by {
                if i < n {
                    assert(less[i] == names[i]);
                }
            }
        }
    }
}

/// The steps for a directory rise by id, and are one for each name that is read as a tile. It fails
/// exactly if such a tile does not exist.
pub proof fn law_directory_is_collected(
    zoom: u8,
    names: &[String],
    steps: Result<Vec<BuildStep>, TileIdError>,
    step: BuildStep,
    a: int,
    b: int,
)
    requires
        call_ensures(collect_zoom_temp_files, (zoom, names), steps),
    ensures
        steps is Ok <==> forall|i: int|
            0 <= i < names@.len() ==> (frontier::parsed_filename((#[trigger] names@[i])@) matches Some(
                t,
            ) ==> tile_id::exists_tile(t)),
        steps matches Err(TileIdError::NoSuchTile { tile }) ==> !tile_id::exists_tile(tile),
        steps matches Ok(found) ==> (0 <= a <= b < found@.len() ==> found@[a].id <= found@[b].id),
        steps matches Ok(found) ==> (found@.contains(step) <==> exists|i: int|
            0 <= i < names@.len() && frontier::parsed_filename((#[trigger] names@[i])@) == Some(
                step.tile,
            ) && step.id == tile_id::id_of(step.tile) && step.source == (TileSource::File {
                zoom,
                index: i as usize,
            })),
{
    let all = spool::texts(names@);
    assert(forall|i: int| 0 <= i < all.len() ==> #[trigger] all[i] == names@[i]@);
    law_unknown_names(all);
    if first_unknown_name(all) is None {
        assert forall|i: int| 0 <= i < names@.len() implies (frontier::parsed_filename(
            (#[trigger] names@[i])@,
        ) matches Some(t) ==> tile_id::exists_tile(t)) by {
            assert(all[i] == names@[i]@);
        }
    }
    assert(names.len() == names@.len());
    law_staged_steps_by_name(zoom, all, step);
    if steps is Ok {
        let found = steps->Ok_0;
        lemma_ordered_members(staged(zoom, all), found@, step);
        if found@.contains(step) {
            let i = choose|i: int|
                0 <= i < all.len() && frontier::parsed_filename(#[trigger] all[i]) == Some(
                    step.tile,
                ) && step.id == tile_id::id_of(step.tile) && step.source == (TileSource::File {
                    zoom,
                    index: i as usize,
                });
            assert(frontier::parsed_filename(names@[i]@) == Some(step.tile));
        }
        if exists|i: int|
            0 <= i < names@.len() && frontier::parsed_filename((#[trigger] names@[i])@) == Some(
                step.tile,
            ) && step.id == tile_id::id_of(step.tile) && step.source == (TileSource::File {
                zoom,
                index: i as usize,
            }) {
            let i = choose|i: int|
                0 <= i < names@.len() && frontier::parsed_filename((#[trigger] names@[i])@) == Some(
                    step.tile,
                ) && step.id == tile_id::id_of(step.tile) && step.source == (TileSource::File {
                    zoom,
                    index: i as usize,
                });
            assert(frontier::parsed_filename(all[i]) == Some(step.tile));
        }
    }
}

/// The rule that holds for a tile is one whose root is above it, and no earlier one is.
pub proof fn law_first_rule_is_first(fills: Seq<UniformFill>, tile: TileJob)
    ensures
        first_rule(fills, tile) < fills.len() ==> pyramid::above(
            fills[first_rule(fills, tile) as int].root,
            tile,
        ),
        forall|j: int|
            0 <= j < first_rule(fills, tile) ==> !pyramid::above((#[trigger] fills[j]).root, tile),
        first_rule(fills, tile) <= fills.len(),
    decreases fills.len(),
{
    if fills.len() > 0 {
        let head = fills.drop_last();
        law_first_rule_is_first(head, tile);
        let f = first_rule(fills, tile) as int;
        if first_rule(head, tile) < head.len() {
            assert(fills[f] == head[f]);
        }
        assert forall|j: int| 0 <= j < f implies !pyramid::above((#[trigger] fills[j]).root, tile) by {
            if j < head.len() {
                assert(fills[j] == head[j]);
            }
        }
    }
}

/// The first unknown tile of some steps is one that does not exist. If there is none, all exist.
pub proof fn law_unknown_steps(steps: Seq<BuildStep>)
    ensures
        first_unknown(steps) is None <==> forall|i: int|
            0 <= i < steps.len() ==> tile_id::exists_tile((#[trigger] steps[i]).tile),
        first_unknown(steps) matches Some(tile) ==> !tile_id::exists_tile(tile) && exists|i: int|
            0 <= i < steps.len() && (#[trigger] steps[i]).tile == tile,
    decreases steps.len(),
{
    if steps.len() > 0 {
        let less = steps.drop_last();
        let n = steps.len() - 1;
        law_unknown_steps(less);
        assert(steps[n] == steps.last());
        if first_unknown(less) is Some {
            let tile = first_unknown(less)->0;
            let i = choose|i: int| 0 <= i < less.len() && (#[trigger] less[i]).tile == tile;
            assert(steps[i].tile == tile);
        }
        if forall|i: int| 0 <= i < steps.len() ==> tile_id::exists_tile((#[trigger] steps[i]).tile) {
            assert forall|i: int| 0 <= i < less.len() implies tile_id::exists_tile(
                (#[trigger] less[i]).tile,
            ) by {
                assert(steps[i] == less[i]);
            }
        }
        if first_unknown(steps) is None {
            assert forall|i: int| 0 <= i < steps.len() implies tile_id::exists_tile(
                (#[trigger] steps[i]).tile,
            ) by {
                if i < n {
                    assert(less[i] == steps[i]);
                }
            }
        }
    }
}

/// What the rules fill are the tiles of the run below a root, each once, in the colour of the first
/// rule whose root is above it, and under its own id. It fails only for a tile that does not exist.
pub proof fn law_rules_fill_what_is_below(
    fills: &[UniformFill],
    bounds: &[TileBounds],
    max_z: u8,
    steps: Result<Vec<BuildStep>, TileIdError>,
    tile: TileJob,
    r: int,
    i: int,
)
    requires
        max_z <= 31,
        frontier::keys_fit(bounds@),
        call_ensures(fill_descendants, (fills, bounds, max_z), steps),
        0 <= r < fills@.len(),
        pyramid::above(fills@[r].root, tile),
        forall|j: int| 0 <= j < r ==> !pyramid::above((#[trigger] fills@[j]).root, tile),
    ensures
        steps matches Err(TileIdError::NoSuchTile { tile: t }) ==> !tile_id::exists_tile(t),
        steps matches Ok(found) ==> (tile.z <= max_z && frontier::in_bounds(bounds@, tile) <==>
            exists|k: int| 0 <= k < found@.len() && (#[trigger] found@[k]).tile == tile),
        steps matches Ok(found) ==> (0 <= i < found@.len() && found@[i].tile == tile ==> found@[i].id
            == tile_id::id_of(tile) && found@[i].source == (TileSource::Color {
            color: fills@[r].color,
        })),
{
    let all = filled_tiles(fills@, bounds@, max_z);
    law_filled_tiles_exact(fills@, bounds@, max_z);
    law_first_rule_is_first(fills@, tile);
    law_unknown_steps(all);
    let f = first_rule(fills@, tile) as int;
    assert(f == r) by {
        if f < r {
            assert(pyramid::above(fills@[f].root, tile));
        }
        if r < f {
            assert(!pyramid::above(fills@[r].root, tile));
        }
    }
    if steps is Ok {
        let found = steps->Ok_0@;
        assert(tiles_of(found).contains(tile) <==> exists|k: int|
            0 <= k < found.len() && (#[trigger] found[k]).tile == tile) by {
            if tiles_of(found).contains(tile) {
                let k = choose|k: int| 0 <= k < tiles_of(found).len() && tiles_of(found)[k] == tile;
                assert(found[k].tile == tile);
            }
            if exists|k: int| 0 <= k < found.len() && (#[trigger] found[k]).tile == tile {
                let k = choose|k: int| 0 <= k < found.len() && (#[trigger] found[k]).tile == tile;
                assert(tiles_of(found)[k] == tile);
            }
        }
    }
}

/// Nothing is filled that stands below no root, and no tile is filled twice.
pub proof fn law_rules_fill_nothing_else(
    fills: &[UniformFill],
    bounds: &[TileBounds],
    max_z: u8,
    found: Vec<BuildStep>,
    a: int,
    b: int,
)
    requires
        max_z <= 31,
        frontier::keys_fit(bounds@),
        call_ensures(
            fill_descendants,
            (fills, bounds, max_z),
            Ok::<Vec<BuildStep>, TileIdError>(found),
        ),
    ensures
        0 <= a < found@.len() ==> exists|r: int|
            0 <= r < fills@.len() && pyramid::above((#[trigger] fills@[r]).root, found@[a].tile),
        0 <= a < b < found@.len() ==> found@[a].tile != found@[b].tile,
{
    law_filled_tiles_exact(fills@, bounds@, max_z);
    if 0 <= a < found@.len() {
        let tile = found@[a].tile;
        assert(tiles_of(found@)[a] == tile);
        assert(tiles_of(found@).contains(tile));
        law_first_rule_is_first(fills@, tile);
        let f = first_rule(fills@, tile) as int;
        assert(pyramid::above(fills@[f].root, tile));
    }
}

/// The filled tiles of a zoom are those of the zoom, by rising id.
pub proof fn law_fills_of_a_zoom(
    fills: &[BuildStep],
    z: u8,
    steps: Vec<BuildStep>,
    step: BuildStep,
    a: int,
    b: int,
)
    requires
        call_ensures(fill_descendants_by_zoom, (fills, z), steps),
    ensures
        steps@.contains(step) <==> fills@.contains(step) && step.tile.z == z,
        0 <= a <= b < steps@.len() ==> steps@[a].id <= steps@[b].id,
{
    broadcast use vstd::seq_lib::group_filter_ensures;

    let here = fills@.filter(at_zoom(z));
    lemma_ordered_members(here, steps@, step);
    if here.contains(step) {
        lemma_filter_from(fills@, at_zoom(z), step);
    }
    if fills@.contains(step) && step.tile.z == z {
        let i = choose|i: int| 0 <= i < fills@.len() && fills@[i] == step;
        assert(at_zoom(z)(fills@[i]));
        assert(here.contains(fills@[i]));
    }
}

/// A zoom gets all its staged files, and each filled tile whose key none of them has. Where both
/// rise by id, so does what it gets.
pub proof fn law_staged_files_come_before_fills(
    files: &[BuildStep],
    fills: &[BuildStep],
    steps: Vec<BuildStep>,
    step: BuildStep,
    a: int,
    b: int,
)
    requires
        call_ensures(merge_zoom, (files, fills), steps),
    ensures
        steps@.contains(step) <==> files@.contains(step) || (fills@.contains(step) && forall|i: int|
            0 <= i < files@.len() ==> frontier::key_of((#[trigger] files@[i]).tile)
                != frontier::key_of(step.tile)),
        (forall|i: int, j: int| 0 <= i <= j < files@.len() ==> files@[i].id <= files@[j].id) && (
        forall|i: int, j: int| 0 <= i <= j < fills@.len() ==> fills@[i].id <= fills@[j].id) ==> (0
            <= a <= b < steps@.len() ==> steps@[a].id <= steps@[b].id),
{
    broadcast use vstd::seq_lib::group_filter_ensures;

    let keys = pipeline::keys_of(tiles_of(files@));
    let keep = not_among(keys);
    let kept = fills@.filter(keep);
    lemma_merged_members(files@, kept, step);
    assert(keys.contains(frontier::key_of(step.tile)) <==> !(forall|i: int|
        0 <= i < files@.len() ==> frontier::key_of((#[trigger] files@[i]).tile) != frontier::key_of(
            step.tile,
        ))) by {
        if keys.contains(frontier::key_of(step.tile)) {
            let i = choose|i: int|
                0 <= i < tiles_of(files@).len() && frontier::key_of(#[trigger] tiles_of(files@)[i])
                    == frontier::key_of(step.tile);
            assert(frontier::key_of(files@[i].tile) == frontier::key_of(step.tile));
        }
        if !(forall|i: int|
            0 <= i < files@.len() ==> frontier::key_of((#[trigger] files@[i]).tile)
                != frontier::key_of(step.tile)) {
            let i = choose|i: int|
                0 <= i < files@.len() && frontier::key_of((#[trigger] files@[i]).tile)
                    == frontier::key_of(step.tile);
            assert(frontier::key_of(tiles_of(files@)[i]) == frontier::key_of(step.tile));
        }
    }
    if kept.contains(step) {
        lemma_filter_from(fills@, keep, step);
    }
    if fills@.contains(step) && !keys.contains(frontier::key_of(step.tile)) {
        let i = choose|i: int| 0 <= i < fills@.len() && fills@[i] == step;
        assert(keep(fills@[i]));
        assert(kept.contains(fills@[i]));
    }
    if (forall|i: int, j: int| 0 <= i <= j < files@.len() ==> files@[i].id <= files@[j].id) && (
    forall|i: int, j: int| 0 <= i <= j < fills@.len() ==> fills@[i].id <= fills@[j].id) {
        lemma_filter_ascending(fills@, keep);
        law_merge_keeps_order(files@, kept);
    }
}

/// What a filter leaves of rising ids rises.
proof fn lemma_filter_ascending(steps: Seq<BuildStep>, keep: spec_fn(BuildStep) -> bool)
    requires
        ascending(steps),
    ensures
        ascending(steps.filter(keep)),
    decreases steps.len(),
{
    reveal(Seq::filter);
    if steps.len() > 0 {
        let head = steps.drop_last();
        lemma_filter_ascending(head, keep);
        let kept = head.filter(keep);
        let all = steps.filter(keep);
        assert forall|i: int, j: int| 0 <= i <= j < all.len() implies all[i].id <= all[j].id by {
            if j < kept.len() {
                assert(all[i] == kept[i] && all[j] == kept[j]);
            } else if i < kept.len() {
                assert(all[i] == kept[i]);
                assert(kept.contains(kept[i]));
                lemma_filter_from(head, keep, kept[i]);
                let k = choose|k: int| 0 <= k < head.len() && head[k] == kept[i];
                assert(steps[k] == kept[i]);
                assert(all[j] == steps[steps.len() - 1]);
            }
        }
    }
}

/// The first unknown tile, directory by directory, is one that does not exist. If there is none, all
/// tiles that names are read as exist.
proof fn lemma_unknown_files(names: Seq<Vec<String>>)
    ensures
        first_unknown_file(names) is None <==> forall|i: int|
            0 <= i < names.len() ==> first_unknown_name(#[trigger] names_at(names, i)) is None,
        first_unknown_file(names) matches Some(tile) ==> !tile_id::exists_tile(tile),
    decreases names.len(),
{
    if names.len() > 0 {
        let less = names.drop_last();
        let n = names.len() - 1;
        lemma_unknown_files(less);
        law_unknown_names(names_at(names, n));
        assert(forall|i: int| 0 <= i < n ==> names_at(less, i) == #[trigger] names_at(names, i));
        if first_unknown_file(names) is None {
            assert forall|i: int| 0 <= i < names.len() implies first_unknown_name(
                #[trigger] names_at(names, i),
            ) is None by {
                if i < n {
                    assert(names_at(less, i) == names_at(names, i));
                }
            }
        }
        if forall|i: int|
            0 <= i < names.len() ==> first_unknown_name(#[trigger] names_at(names, i)) is None {
            assert forall|i: int| 0 <= i < less.len() implies first_unknown_name(
                #[trigger] names_at(less, i),
            ) is None by {
                assert(names_at(names, i) == names_at(less, i));
            }
            assert(first_unknown_name(names_at(names, n)) is None);
        }
    }
}

/// An archive is planned unless a tile of it does not exist. It gets every staged tile from its own
/// file, every filled tile that is not staged in its colour, and nothing else; and the filled tiles
/// are counted.
pub proof fn law_archive_gets_files_and_fills(
    names: &[Vec<String>],
    fills: &[UniformFill],
    bounds: &[TileBounds],
    min_z: u8,
    max_z: u8,
    plan: Result<BuildPlan, TileIdError>,
    filled: Vec<BuildStep>,
    step: BuildStep,
)
    requires
        min_z <= max_z <= 31,
        names@.len() == max_z - min_z + 1,
        call_ensures(build_pmtiles_from_temp, (names, fills, bounds, min_z, max_z), plan),
        call_ensures(
            fill_descendants,
            (fills, bounds, max_z),
            Ok::<Vec<BuildStep>, TileIdError>(filled),
        ),
    ensures
        plan matches Err(TileIdError::NoSuchTile { tile }) ==> !tile_id::exists_tile(tile),
        plan is Ok <==> forall|i: int|
            0 <= i < names@.len() ==> first_unknown_name(#[trigger] names_at(names@, i)) is None,
        plan matches Ok(p) ==> p.filled == filled@.len(),
        plan matches Ok(p) ==> (p.steps@.contains(step) <==> exists|i: int|
            0 <= i < names@.len() && (staged(
                (min_z + i) as u8,
                #[trigger] names_at(names@, i),
            ).contains(step) || (filled@.contains(step) && step.tile.z == min_z + i
                && !pipeline::keys_of(
                tiles_of(staged((min_z + i) as u8, names_at(names@, i))),
            ).contains(frontier::key_of(step.tile))))),
{
    let all = filled_tiles(fills@, bounds@, max_z);
    assert(filled@ == all);
    lemma_unknown_files(names@);
    if plan is Ok {
        let steps = plan->Ok_0.steps@;
        crate::coverage::lemma_plan_contains(names@, all, min_z, step);
        if steps.contains(step) {
            let i = choose|i: int|
                0 <= i < names@.len() && zoom_steps(
                    by_id(staged((min_z + i) as u8, #[trigger] names_at(names@, i))),
                    fills_at(all, (min_z + i) as u8),
                ).contains(step);
            law_zoom_steps_exact((min_z + i) as u8, names_at(names@, i), all, step);
            assert(names_at(names@, i) == names_at(names@, i));
        }
        if exists|i: int|
            0 <= i < names@.len() && (staged(
                (min_z + i) as u8,
                #[trigger] names_at(names@, i),
            ).contains(step) || (filled@.contains(step) && step.tile.z == min_z + i
                && !pipeline::keys_of(
                tiles_of(staged((min_z + i) as u8, names_at(names@, i))),
            ).contains(frontier::key_of(step.tile)))) {
            let i = choose|i: int|
                0 <= i < names@.len() && (staged(
                    (min_z + i) as u8,
                    #[trigger] names_at(names@, i),
                ).contains(step) || (filled@.contains(step) && step.tile.z == min_z + i
                    && !pipeline::keys_of(
                    tiles_of(staged((min_z + i) as u8, names_at(names@, i))),
                ).contains(frontier::key_of(step.tile))));
            law_zoom_steps_exact((min_z + i) as u8, names_at(names@, i), all, step);
        }
    }
}

/// Staged tiles are counted directory by directory.
pub proof fn law_staged_tiles_are_counted(
    names: &[Vec<String>],
    more: &[Vec<String>],
    dir: Vec<String>,
    count: u64,
    larger: u64,
)
    requires
        call_ensures(count_pmtiles_temp_tiles, (names,), count),
        call_ensures(count_pmtiles_temp_tiles, (more,), larger),
        more@ == names@.push(dir),
    ensures
        names@.len() == 0 ==> count == 0,
        larger == count + spool::tiles_named(spool::texts(dir@)).len(),
{
    assert(more@.drop_last() =~= names@);
    assert(names_at(more@, more@.len() - 1) == spool::texts(dir@));
}

/// A tile whose bytes could be read goes into the archive as it is; one without bytes is skipped and
/// logged. What is staged stays as long as it is wanted or a tile was skipped.
pub proof fn law_unreadable_tiles_are_skipped(
    log: &mut BuildLog,
    tile: TileJob,
    read: Option<Vec<u8>>,
    data: Option<Vec<u8>>,
    keep_temp: bool,
    keeps: bool,
)
    requires
        call_ensures(BuildLog::offer, (log, tile, read), data),
        call_ensures(BuildLog::keeps_temp, (&*final(log), keep_temp), keeps),
    ensures
        read is None || read->0@.len() == 0 ==> data is None && final(log).skipped@ == old(log).skipped@.push(tile) && final(log).written == old(log).written && keeps,
        read is Some && read->0@.len() > 0 ==> data == read && final(log).skipped@ == old(log).skipped@ && final(log).written == old(log).written + 1,
        keep_temp ==> keeps,
        !keep_temp && final(log).skipped@.len() == 0 ==> !keeps,
{
}

/// The steps of all rules are those for the descendants of their roots, in their colours.
proof fn lemma_all_fills_members(
    fills: Seq<UniformFill>,
    bounds: Seq<TileBounds>,
    max_z: u8,
    step: BuildStep,
)
    ensures
        all_fills(fills, bounds, max_z).contains(step) <==> exists|r: int|
            0 <= r < fills.len() && frontier::descendants(
                (#[trigger] fills[r]).root,
                bounds,
                max_z,
            ).contains(step.tile) && step == step_for(
                step.tile,
                TileSource::Color { color: fills[r].color },
            ),
    decreases fills.len(),
{
    let all = all_fills(fills, bounds, max_z);
    if fills.len() > 0 {
        let less = fills.drop_last();
        let last = fills.last();
        let n = fills.len() - 1;
        lemma_all_fills_members(less, bounds, max_z, step);
        let head = all_fills(less, bounds, max_z);
        let below = frontier::descendants(last.root, bounds, max_z);
        let more = fill_steps(below, last.color);
        assert(all == head + more);
        assert(fills[n] == last);
        if all.contains(step) {
            let m = choose|m: int| 0 <= m < all.len() && all[m] == step;
            if m < head.len() {
                assert(head[m] == step);
                let r = choose|r: int|
                    0 <= r < less.len() && frontier::descendants(
                        (#[trigger] less[r]).root,
                        bounds,
                        max_z,
                    ).contains(step.tile) && step == step_for(
                        step.tile,
                        TileSource::Color { color: less[r].color },
                    );
                assert(fills[r] == less[r]);
            } else {
                assert(more[m - head.len()] == step);
                assert(below[m - head.len()] == step.tile);
                assert(below.contains(step.tile));
            }
        }
        if exists|r: int|
            0 <= r < fills.len() && frontier::descendants(
                (#[trigger] fills[r]).root,
                bounds,
                max_z,
            ).contains(step.tile) && step == step_for(
                step.tile,
                TileSource::Color { color: fills[r].color },
            ) {
            let r = choose|r: int|
                0 <= r < fills.len() && frontier::descendants(
                    (#[trigger] fills[r]).root,
                    bounds,
                    max_z,
                ).contains(step.tile) && step == step_for(
                    step.tile,
                    TileSource::Color { color: fills[r].color },
                );
            if r < n {
                assert(less[r] == fills[r]);
                let m = choose|m: int| 0 <= m < head.len() && head[m] == step;
                assert(all[m] == step);
            } else {
                let m = choose|m: int| 0 <= m < below.len() && below[m] == step.tile;
                assert(more[m] == step);
                assert(all[head.len() + m] == step);
            }
        }
    }
}

/// Whatever the area: what is filled is a descendant of a root, in the colour of its rule and under
/// its own id; no key is filled twice, and the key of every descendant of every root is filled.
pub proof fn law_fills_come_from_rules(
    fills: &[UniformFill],
    bounds: &[TileBounds],
    max_z: u8,
    found: Vec<BuildStep>,
    a: int,
    b: int,
    r: int,
    tile: TileJob,
)
    requires
        call_ensures(
            fill_descendants,
            (fills, bounds, max_z),
            Ok::<Vec<BuildStep>, TileIdError>(found),
        ),
    ensures
        0 <= a < found@.len() ==> found@[a].id == tile_id::id_of(found@[a].tile) && exists|q: int|
            0 <= q < fills@.len() && frontier::descendants(
                (#[trigger] fills@[q]).root,
                bounds@,
                max_z,
            ).contains(found@[a].tile) && found@[a].source == (TileSource::Color {
                color: fills@[q].color,
            }),
        0 <= a < b < found@.len() ==> frontier::key_of(found@[a].tile) != frontier::key_of(
            found@[b].tile,
        ),
        0 <= r < fills@.len() && frontier::descendants(fills@[r].root, bounds@, max_z).contains(
            tile,
        ) ==> exists|k: int|
            0 <= k < found@.len() && frontier::key_of((#[trigger] found@[k]).tile)
                == frontier::key_of(tile),
{
    let all = all_fills(fills@, bounds@, max_z);
    lemma_first_of_each(all);
    assert(found@ == first_of_each(all));
    if 0 <= a < found@.len() {
        lemma_all_fills_members(fills@, bounds@, max_z, found@[a]);
    }
    if 0 <= r < fills@.len() && frontier::descendants(fills@[r].root, bounds@, max_z).contains(
        tile,
    ) {
        let step = step_for(tile, TileSource::Color { color: fills@[r].color });
        lemma_all_fills_members(fills@, bounds@, max_z, step);
        let m = choose|m: int| 0 <= m < all.len() && all[m] == step;
        let key = frontier::key_of(tile);
        assert(frontier::key_of(tiles_of(all)[m]) == key);
        assert(pipeline::keys_of(tiles_of(all)).contains(key));
        let k = choose|k: int|
            0 <= k < tiles_of(found@).len() && frontier::key_of(#[trigger] tiles_of(found@)[k])
                == key;
        assert(frontier::key_of(found@[k].tile) == key);
    }
}

/// The ids of a planned archive always rise, where every directory holds only tiles of its own zoom,
/// none twice.
pub proof fn law_planned_ids_rise(
    names: &[Vec<String>],
    fills: &[UniformFill],
    bounds: &[TileBounds],
    min_z: u8,
    max_z: u8,
    plan: BuildPlan,
    a: int,
    b: int,
)
    requires
        min_z <= max_z <= 31,
        names@.len() == max_z - min_z + 1,
        directories_tidy(names@, min_z),
        call_ensures(
            build_pmtiles_from_temp,
            (names, fills, bounds, min_z, max_z),
            Ok::<BuildPlan, TileIdError>(plan),
        ),
    ensures
        0 <= a < b < plan.steps@.len() ==> plan.steps@[a].id < plan.steps@[b].id,
        0 <= a < plan.steps@.len() ==> plan.steps@[a].id == tile_id::id_of(plan.steps@[a].tile),
{
    let filled = filled_tiles(fills@, bounds@, max_z);
    law_unknown_steps(filled);
    lemma_first_of_each(all_fills(fills@, bounds@, max_z));
    assert forall|i: int| 0 <= i < filled.len() implies (#[trigger] filled[i]).id == tile_id::id_of(
        filled[i].tile,
    ) && tile_id::id_known(filled[i].tile) by {
        lemma_all_fills_members(fills@, bounds@, max_z, filled[i]);
        tile_id::law_ids_known(filled[i].tile);
    }
    law_archive_strictly_ascends(names@, fills@, bounds@, min_z, max_z);
}

/// A filled tile is counted as written and skips nothing; a new log has neither.
pub proof fn law_filled_tiles_are_written(log: &mut BuildLog, new: BuildLog)
    requires
        call_ensures(BuildLog::add_filled, (log,), ()),
        call_ensures(BuildLog::new, (), new),
    ensures
        final(log).written == old(log).written + 1,
        final(log).skipped@ == old(log).skipped@,
        new.written == 0 && new.skipped@.len() == 0,
{
}

} // verus!
