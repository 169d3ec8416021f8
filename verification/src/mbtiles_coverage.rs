//! What the file of an MBTiles run holds at its end, and why that is so wherever the run was
//! interrupted and taken up again.

use vstd::prelude::*;

use crate::coverage;
use crate::frontier;
use crate::frontier::{TileBounds, TileJob};
use crate::generation;
use crate::generation::TileEvent;
use crate::mbtiles_flow;
use crate::pipeline;
use crate::pyramid;

verus! {

/// The tiles that an event puts into the file. One that was left by an earlier run is there
/// already.
pub open spec fn puts(event: TileEvent, bounds: Seq<TileBounds>, max_z: u8) -> Seq<TileJob> {
    match event {
        TileEvent::Settled { outcome } => mbtiles_flow::tiles_put(outcome, bounds, max_z),
        TileEvent::Restored { .. } => seq![],
    }
}

/// Whether some event of a history puts a tile into the file.
pub open spec fn put(
    history: Seq<Seq<TileEvent>>,
    bounds: Seq<TileBounds>,
    max_z: u8,
    tile: TileJob,
) -> bool {
    exists|i: int, k: int|
        0 <= i < history.len() && 0 <= k < history[i].len() && puts(
            #[trigger] history[i][k],
            bounds,
            max_z,
        ).contains(tile)
}

/// The tiles of the file after a history, `file` being those that earlier runs had left.
pub open spec fn file_after(
    file: Set<TileJob>,
    history: Seq<Seq<TileEvent>>,
    bounds: Seq<TileBounds>,
    max_z: u8,
) -> Set<TileJob> {
    Set::new(|tile: TileJob| file.contains(tile) || put(history, bounds, max_z, tile))
}

/// Whether a tile of an earlier run is passed over only if it is in the file. It is not known to be
/// uniform, and so goes on to its children.
pub open spec fn restores_from(history: Seq<Seq<TileEvent>>, file: Set<TileJob>) -> bool {
    forall|i: int, k: int|
        0 <= i < history.len() && 0 <= k < history[i].len() ==> ((
        #[trigger] history[i][k]) matches TileEvent::Restored { coord, uniform_color }
            ==> uniform_color is None && file.contains(coord))
}

/// Whether a tile that is in the file comes out with data: it was put there, or it is passed over.
pub open spec fn respects(history: Seq<Seq<TileEvent>>, file: Set<TileJob>) -> bool {
    forall|i: int, k: int|
        0 <= i < history.len() && 0 <= k < history[i].len() && file.contains(
            (#[trigger] history[i][k]).tile(),
        ) ==> coverage::with_data(history[i][k])
}

/// The tile that covers another at the zoom before.
pub open spec fn parent(tile: TileJob) -> TileJob {
    coverage::ancestor(tile, tile.z - 1)
}

/// Whether each tile of a file has its parent there too, up to the first zoom.
pub open spec fn rooted(file: Set<TileJob>, bounds: Seq<TileBounds>, min_z: u8) -> bool {
    forall|tile: TileJob| #[trigger]
        file.contains(tile) && frontier::in_bounds(bounds, tile) && tile.z > min_z
            ==> file.contains(parent(tile))
}

/// Whether a history is that of a run that may have been interrupted: its events are for tiles of
/// the frontiers, but not all of them need have come.
pub open spec fn is_begun(
    history: Seq<Seq<TileEvent>>,
    bounds: Seq<TileBounds>,
    min_z: u8,
    max_z: u8,
) -> bool {
    forall|i: int, k: int|
        0 <= i < history.len() && 0 <= k < history[i].len() ==> generation::frontier_at(
            history,
            bounds,
            min_z,
            max_z,
            i,
        ).contains((#[trigger] history[i][k]).tile())
}

/// The tiles of a run that may have been interrupted are of the zoom of their frontier and within
/// bounds.
proof fn lemma_begun_tile(
    history: Seq<Seq<TileEvent>>,
    bounds: Seq<TileBounds>,
    min_z: u8,
    max_z: u8,
    i: int,
    k: int,
)
    requires
        pyramid::pyramid(bounds, min_z, max_z),
        is_begun(history, bounds, min_z, max_z),
        0 <= i < history.len(),
        0 <= k < history[i].len(),
    ensures
        history[i][k].tile().z == min_z + i,
        frontier::in_bounds(bounds, history[i][k].tile()),
    decreases i,
{
    let tile = history[i][k].tile();
    let here = generation::frontier_at(history, bounds, min_z, max_z, i);
    assert(here.contains(tile));
    let n = choose|n: int| 0 <= n < here.len() && here[n] == tile;
    if i == 0 {
        generation::lemma_first_frontier_ok(bounds, min_z, max_z);
        assert(here[n].z == min_z);
    } else {
        let m = lemma_begun_parent(history, bounds, min_z, max_z, i, k);
    }
}

/// A tile below the first zoom comes from its parent, which had data and was not known to be
/// uniform.
proof fn lemma_begun_parent(
    history: Seq<Seq<TileEvent>>,
    bounds: Seq<TileBounds>,
    min_z: u8,
    max_z: u8,
    i: int,
    k: int,
) -> (m: int)
    requires
        pyramid::pyramid(bounds, min_z, max_z),
        is_begun(history, bounds, min_z, max_z),
        0 < i < history.len(),
        0 <= k < history[i].len(),
    ensures
        0 <= m < history[i - 1].len(),
        coverage::with_data(history[i - 1][m]),
        history[i - 1][m].tile() == parent(history[i][k].tile()),
        history[i][k].tile().z == min_z + i,
        frontier::in_bounds(bounds, history[i][k].tile()),
    decreases i, 0int,
{
    let tile = history[i][k].tile();
    assert(generation::frontier_at(history, bounds, min_z, max_z, i).contains(tile));
    let events = history[i - 1];
    coverage::lemma_children_of_contains(events, bounds, max_z, tile);
    let m = choose|m: int|
        0 <= m < events.len() && (#[trigger] events[m]).effect(bounds, max_z).children.contains(
            tile,
        );
    lemma_begun_tile(history, bounds, min_z, max_z, i - 1, m);
    let from = events[m].tile();
    generation::lemma_in_bounds_fits(from, bounds, min_z, max_z);
    assert(events[m].effect(bounds, max_z).children == frontier::children_in_bounds(
        from,
        max_z,
        bounds,
    ));
    coverage::lemma_children_exact(from, bounds, max_z, tile);
    lemma_parent(tile);
    m
}

/// The parent is half as far from the origin.
proof fn lemma_parent(tile: TileJob)
    requires
        tile.z > 0,
    ensures
        parent(tile) == (TileJob {
            z: (tile.z - 1) as u8,
            x: (tile.x / 2) as u32,
            y: (tile.y / 2) as u32,
        }),
        pyramid::above(parent(tile), tile),
{
    coverage::lemma_ancestor(tile, tile.z - 1);
    vstd::arithmetic::power2::lemma2_to64();
}

/// A tile is above another exactly if it is its parent or above that.
proof fn lemma_above_parent(upper: TileJob, tile: TileJob)
    requires
        pyramid::above(upper, tile),
    ensures
        upper == parent(tile) || pyramid::above(upper, parent(tile)),
{
    lemma_parent(tile);
    if upper.z + 1 == tile.z {
        coverage::lemma_above_is_ancestor(upper, tile);
    } else {
        coverage::lemma_above_chain(upper, parent(tile), tile);
    }
}

/// However far a run comes, each tile of its file has its parent there too, if that was so when the
/// run was taken up.
pub proof fn law_file_stays_rooted(
    history: Seq<Seq<TileEvent>>,
    file: Set<TileJob>,
    bounds: Seq<TileBounds>,
    min_z: u8,
    max_z: u8,
)
    requires
        pyramid::pyramid(bounds, min_z, max_z),
        is_begun(history, bounds, min_z, max_z),
        restores_from(history, file),
        rooted(file, bounds, min_z),
    ensures
        rooted(file_after(file, history, bounds, max_z), bounds, min_z),
{
    let after = file_after(file, history, bounds, max_z);
    assert forall|tile: TileJob| #[trigger]
        after.contains(tile) && frontier::in_bounds(bounds, tile) && tile.z
            > min_z implies after.contains(parent(tile)) by {
        if !file.contains(tile) {
            let (i, k) = choose|i: int, k: int|
                0 <= i < history.len() && 0 <= k < history[i].len() && puts(
                    #[trigger] history[i][k],
                    bounds,
                    max_z,
                ).contains(tile);
            let coord = history[i][k].tile();
            lemma_begun_tile(history, bounds, min_z, max_z, i, k);
            lemma_puts(history[i][k], bounds, max_z, tile);
            if tile == coord {
                let m = lemma_begun_parent(history, bounds, min_z, max_z, i, k);
                let from = history[i - 1][m];
                lemma_puts(from, bounds, max_z, from.tile());
                if from is Restored {
                    assert(file.contains(from.tile()));
                } else {
                    assert(puts(history[i - 1][m], bounds, max_z).contains(parent(tile)));
                }
            } else {
                lemma_above_parent(coord, tile);
                generation::lemma_in_bounds_fits(tile, bounds, min_z, max_z);
                coverage::lemma_ancestor_in_bounds(tile, bounds, min_z, max_z, tile.z - 1);
                lemma_parent(tile);
                lemma_puts(history[i][k], bounds, max_z, parent(tile));
                assert(puts(history[i][k], bounds, max_z).contains(parent(tile)));
            }
        }
    }
}

/// What an event puts into the file: its tile, if it was made, and the descendants of a uniform
/// one.
proof fn lemma_puts(event: TileEvent, bounds: Seq<TileBounds>, max_z: u8, tile: TileJob)
    ensures
        puts(event, bounds, max_z).contains(tile) <==> {
            &&& event is Settled
            &&& coverage::with_data(event)
            &&& tile == event.tile() || (coverage::is_uniform(event) && tile.z <= max_z
                && frontier::in_bounds(bounds, tile) && pyramid::above(event.tile(), tile))
        },
{
    let all = puts(event, bounds, max_z);
    let coord = event.tile();
    let below = frontier::descendants(coord, bounds, max_z);
    pyramid::law_descendants_exact(coord, bounds, max_z);
    if event is Settled && coverage::with_data(event) {
        assert(all[0] == coord);
        assert(all.contains(coord));
        if coverage::is_uniform(event) {
            assert(all == seq![coord] + below);
            if below.contains(tile) {
                let n = choose|n: int| 0 <= n < below.len() && below[n] == tile;
                assert(all[n + 1] == tile);
            }
            if all.contains(tile) && tile != coord {
                let n = choose|n: int| 0 <= n < all.len() && all[n] == tile;
                assert(below[n - 1] == tile);
            }
        }
    }
}

/// A tile that was in the file when a run was taken up is passed over, or stands below a uniform
/// tile.
proof fn lemma_left_tile(
    history: Seq<Seq<TileEvent>>,
    file: Set<TileJob>,
    bounds: Seq<TileBounds>,
    min_z: u8,
    max_z: u8,
    tile: TileJob,
)
    requires
        pyramid::pyramid(bounds, min_z, max_z),
        generation::is_history(history, bounds, min_z, max_z),
        history.len() == max_z - min_z + 1,
        respects(history, file),
        rooted(file, bounds, min_z),
        frontier::in_bounds(bounds, tile),
        file.contains(tile),
    ensures
        coverage::made(history, tile) || coverage::colored(history, tile),
    decreases tile.z,
{
    generation::lemma_in_bounds_fits(tile, bounds, min_z, max_z);
    coverage::law_every_candidate_once(history, bounds, min_z, max_z, tile);
    if coverage::visited(history, tile) {
        let (i, k) = choose|i: int, k: int|
            0 <= i < history.len() && 0 <= k < history[i].len() && (
            #[trigger] history[i][k]).tile() == tile;
        assert(coverage::with_data(history[i][k]) && history[i][k].tile() == tile);
    } else {
        let (a, k) = choose|a: int, k: int|
            0 <= a < history.len() && 0 <= k < history[a].len() && coverage::answers(
                #[trigger] history[a][k],
            ) && pyramid::above(history[a][k].tile(), tile);
        let by = history[a][k];
        coverage::lemma_history_tile(history, bounds, min_z, max_z, a, k);
        if coverage::is_uniform(by) {
            assert(coverage::is_uniform(history[a][k]) && pyramid::above(
                history[a][k].tile(),
                tile,
            ));
        } else {
            let up = parent(tile);
            lemma_parent(tile);
            coverage::lemma_ancestor_in_bounds(tile, bounds, min_z, max_z, tile.z - 1);
            assert(file.contains(up));
            lemma_above_parent(by.tile(), tile);
            assert(!coverage::with_data(by));
            assert(by.tile() != up);
            lemma_left_tile(history, file, bounds, min_z, max_z, up);
            coverage::law_every_candidate_once(history, bounds, min_z, max_z, up);
            assert(coverage::answers(history[a][k]) && pyramid::above(history[a][k].tile(), up));
            assert(coverage::answered(history, up, history.len() as int));
            if coverage::made(history, up) {
                let (i, m) = choose|i: int, m: int|
                    0 <= i < history.len() && 0 <= m < history[i].len() && coverage::with_data(
                        #[trigger] history[i][m],
                    ) && history[i][m].tile() == up;
                assert(history[i][m].tile() == up);
                assert(coverage::visited(history, up));
            } else {
                let (b, m) = choose|b: int, m: int|
                    0 <= b < history.len() && 0 <= m < history[b].len() && coverage::is_uniform(
                        #[trigger] history[b][m],
                    ) && pyramid::above(history[b][m].tile(), up);
                coverage::law_one_tile_answers(
                    history,
                    bounds,
                    min_z,
                    max_z,
                    up,
                    a,
                    k,
                    b,
                    m,
                );
            }
            assert(false);
        }
    }
}

/// At the end of a run, wherever it was interrupted and taken up again, its file holds the tiles
/// that were looked at and have data, and those that stand below a uniform tile; no other tile of
/// the run.
pub proof fn law_file_holds_the_run(
    history: Seq<Seq<TileEvent>>,
    file: Set<TileJob>,
    bounds: Seq<TileBounds>,
    min_z: u8,
    max_z: u8,
    tile: TileJob,
)
    requires
        pyramid::pyramid(bounds, min_z, max_z),
        generation::is_history(history, bounds, min_z, max_z),
        history.len() == max_z - min_z + 1,
        restores_from(history, file),
        respects(history, file),
        rooted(file, bounds, min_z),
        frontier::in_bounds(bounds, tile),
    ensures
        file_after(file, history, bounds, max_z).contains(tile) <==> coverage::made(history, tile)
            || coverage::colored(history, tile),
{
    generation::lemma_in_bounds_fits(tile, bounds, min_z, max_z);
    let after = file_after(file, history, bounds, max_z);
    if file.contains(tile) {
        lemma_left_tile(history, file, bounds, min_z, max_z, tile);
    } else if after.contains(tile) {
        let (i, k) = choose|i: int, k: int|
            0 <= i < history.len() && 0 <= k < history[i].len() && puts(
                #[trigger] history[i][k],
                bounds,
                max_z,
            ).contains(tile);
        lemma_puts(history[i][k], bounds, max_z, tile);
        assert(coverage::with_data(history[i][k]));
        if history[i][k].tile() != tile {
            assert(coverage::is_uniform(history[i][k]) && pyramid::above(
                history[i][k].tile(),
                tile,
            ));
        }
    }
    if coverage::made(history, tile) {
        let (i, k) = choose|i: int, k: int|
            0 <= i < history.len() && 0 <= k < history[i].len() && coverage::with_data(
                #[trigger] history[i][k],
            ) && history[i][k].tile() == tile;
        lemma_puts(history[i][k], bounds, max_z, tile);
        if history[i][k] is Settled {
            assert(puts(history[i][k], bounds, max_z).contains(tile));
        }
    } else if coverage::colored(history, tile) {
        let (i, k) = choose|i: int, k: int|
            0 <= i < history.len() && 0 <= k < history[i].len() && coverage::is_uniform(
                #[trigger] history[i][k],
            ) && pyramid::above(history[i][k].tile(), tile);
        lemma_puts(history[i][k], bounds, max_z, tile);
        assert(puts(history[i][k], bounds, max_z).contains(tile));
    }
}

/// A run puts no tile into its file twice. So a tile that was made has its own bytes, and one below
/// a uniform tile has the colour of that tile.
pub proof fn law_no_tile_put_twice(
    history: Seq<Seq<TileEvent>>,
    bounds: Seq<TileBounds>,
    min_z: u8,
    max_z: u8,
    tile: TileJob,
    a: int,
    k: int,
    b: int,
    m: int,
)
    requires
        pyramid::pyramid(bounds, min_z, max_z),
        generation::is_history(history, bounds, min_z, max_z),
        history.len() == max_z - min_z + 1,
        0 <= a < history.len() && 0 <= k < history[a].len(),
        0 <= b < history.len() && 0 <= m < history[b].len(),
        puts(history[a][k], bounds, max_z).contains(tile),
        puts(history[b][m], bounds, max_z).contains(tile),
    ensures
        a == b && k == m,
        puts(history[a][k], bounds, max_z).no_duplicates(),
        tile != history[a][k].tile() ==> coverage::is_uniform(history[a][k]) && pyramid::above(
            history[a][k].tile(),
            tile,
        ),
{
    let p = history[a][k];
    let q = history[b][m];
    coverage::lemma_history_tile(history, bounds, min_z, max_z, a, k);
    coverage::lemma_history_tile(history, bounds, min_z, max_z, b, m);
    lemma_puts(p, bounds, max_z, tile);
    lemma_puts(q, bounds, max_z, tile);
    if p.tile() == tile && q.tile() == tile {
        assert(a == b);
    } else if p.tile() == tile || q.tile() == tile {
        coverage::law_every_candidate_once(history, bounds, min_z, max_z, tile);
        assert(coverage::visited(history, tile)) by {
            if p.tile() == tile {
                assert(history[a][k].tile() == tile);
            } else {
                assert(history[b][m].tile() == tile);
            }
        }
        assert(coverage::answered(history, tile, history.len() as int)) by {
            if p.tile() == tile {
                assert(coverage::answers(history[b][m]) && pyramid::above(
                    history[b][m].tile(),
                    tile,
                ));
            } else {
                assert(coverage::answers(history[a][k]) && pyramid::above(
                    history[a][k].tile(),
                    tile,
                ));
            }
        }
    } else {
        coverage::law_one_tile_answers(history, bounds, min_z, max_z, tile, a, k, b, m);
    }
    let all = puts(p, bounds, max_z);
    let below = frontier::descendants(p.tile(), bounds, max_z);
    pyramid::law_descendants_exact(p.tile(), bounds, max_z);
    assert forall|i: int, j: int|
        0 <= i < all.len() && 0 <= j < all.len() && i != j implies all[i] != all[j] by {
        if coverage::is_uniform(p) {
            assert(all == seq![p.tile()] + below);
            if i > 0 {
                assert(below.contains(below[i - 1]));
            }
            if j > 0 {
                assert(below.contains(below[j - 1]));
            }
        }
    }
}

/// Of tiles only such are queued.
proof fn lemma_fresh_from(tiles: Seq<TileJob>, keys: Set<u64>, tile: TileJob)
    ensures
        pipeline::fresh(tiles, keys).contains(tile) ==> tiles.contains(tile),
    decreases tiles.len(),
{
    if tiles.len() > 0 {
        let head = tiles.drop_last();
        let more = pipeline::fresh(tiles, keys);
        lemma_fresh_from(head, keys, tile);
        if more.contains(tile) {
            if pipeline::fresh(head, keys).contains(tile) {
                let i = choose|i: int| 0 <= i < head.len() && head[i] == tile;
                assert(tiles[i] == tile);
            } else {
                let i = choose|i: int| 0 <= i < more.len() && more[i] == tile;
                assert(tiles[tiles.len() - 1] == tile);
            }
        }
    }
}

/// Where keys tell tiles apart, a queue that is added to holds what it held and what was added.
proof fn lemma_added(
    queued: Seq<TileJob>,
    kids: Seq<TileJob>,
    bounds: Seq<TileBounds>,
    min_z: u8,
    max_z: u8,
    z: int,
)
    requires
        pyramid::pyramid(bounds, min_z, max_z),
        frontier::keys_fit(bounds),
        generation::frontier_ok(queued, bounds, z),
        generation::frontier_ok(kids, bounds, z),
    ensures
        generation::frontier_ok(
            queued + pipeline::fresh(kids, pipeline::keys_of(queued)),
            bounds,
            z,
        ),
        forall|tile: TileJob|
            #![trigger (queued + pipeline::fresh(kids, pipeline::keys_of(queued))).contains(tile)]
            (queued + pipeline::fresh(kids, pipeline::keys_of(queued))).contains(tile)
                <==> queued.contains(tile) || kids.contains(tile),
{
    let more = pipeline::fresh(kids, pipeline::keys_of(queued));
    let all = queued + more;
    assert forall|tile: TileJob| #[trigger] all.contains(tile) implies queued.contains(tile)
        || kids.contains(tile) by {
        lemma_fresh_from(kids, pipeline::keys_of(queued), tile);
        let i = choose|i: int| 0 <= i < all.len() && all[i] == tile;
        if i < queued.len() {
            assert(queued[i] == tile);
        } else {
            assert(more[i - queued.len()] == tile);
            assert(more.contains(tile));
        }
    }
    assert forall|i: int| 0 <= i < all.len() implies (#[trigger] all[i]).z == z
        && frontier::in_bounds(bounds, all[i]) by {
        assert(all.contains(all[i]));
        if queued.contains(all[i]) {
            let j = choose|j: int| 0 <= j < queued.len() && queued[j] == all[i];
            assert(queued[j].z == z);
        } else {
            let j = choose|j: int| 0 <= j < kids.len() && kids[j] == all[i];
            assert(kids[j].z == z);
        }
    }
    assert forall|i: int, j: int| 0 <= i < j < queued.len() implies frontier::key_of(
        #[trigger] queued[i],
    ) != frontier::key_of(#[trigger] queued[j]) by {
        mbtiles_flow::lemma_run_tile_key_fits(queued[i], bounds, min_z, max_z);
        mbtiles_flow::lemma_run_tile_key_fits(queued[j], bounds, min_z, max_z);
        if frontier::key_of(queued[i]) == frontier::key_of(queued[j]) {
            frontier::law_tile_key_injective(queued[i], queued[j]);
        }
    }
    pipeline::law_fresh_tiles_once(queued, kids);
    assert forall|i: int, j: int|
        0 <= i < all.len() && 0 <= j < all.len() && i != j implies all[i] != all[j] by {
        if i < j {
            assert(frontier::key_of(all[i]) != frontier::key_of(all[j]));
        } else {
            assert(frontier::key_of(all[j]) != frontier::key_of(all[i]));
        }
    }
    assert forall|tile: TileJob| queued.contains(tile) || kids.contains(
        tile,
    ) implies #[trigger] all.contains(tile) by {
        if queued.contains(tile) {
            let i = choose|i: int| 0 <= i < queued.len() && queued[i] == tile;
            assert(all[i] == tile);
        } else {
            let i = choose|i: int| 0 <= i < kids.len() && kids[i] == tile;
            let key = frontier::key_of(tile);
            assert(frontier::key_of(kids[i]) == key);
            assert(pipeline::keys_of(kids).contains(key));
            assert(pipeline::keys_of(all).contains(key));
            let j = choose|j: int| 0 <= j < all.len() && frontier::key_of(#[trigger] all[j]) == key;
            mbtiles_flow::lemma_run_tile_key_fits(all[j], bounds, min_z, max_z);
            mbtiles_flow::lemma_run_tile_key_fits(tile, bounds, min_z, max_z);
            frontier::law_tile_key_injective(all[j], tile);
        }
    }
}

/// A zoom that finds some tiles queued ends with those and all children of its tiles queued, each
/// once, even if some of its tiles were done before.
pub proof fn law_resumed_queue_exact(
    first: Seq<TileJob>,
    events: Seq<TileEvent>,
    bounds: Seq<TileBounds>,
    min_z: u8,
    max_z: u8,
    z: int,
)
    requires
        pyramid::pyramid(bounds, min_z, max_z),
        frontier::keys_fit(bounds),
        generation::frontier_ok(first, bounds, z + 1),
        forall|k: int|
            0 <= k < events.len() ==> (#[trigger] events[k]).tile().z == z && frontier::in_bounds(
                bounds,
                events[k].tile(),
            ),
    ensures
        generation::frontier_ok(
            mbtiles_flow::queued_of(first, events, bounds, max_z),
            bounds,
            z + 1,
        ),
        forall|tile: TileJob|
            #![trigger mbtiles_flow::queued_of(first, events, bounds, max_z).contains(tile)]
            mbtiles_flow::queued_of(first, events, bounds, max_z).contains(tile)
                <==> first.contains(tile) || generation::children_of(
                events,
                bounds,
                max_z,
            ).contains(tile),
    decreases events.len(),
{
    if events.len() > 0 {
        let less = events.drop_last();
        let last = events.last();
        assert(last == events[events.len() - 1]);
        assert forall|k: int| 0 <= k < less.len() implies (#[trigger] less[k]).tile().z == z
            && frontier::in_bounds(bounds, less[k].tile()) by {
            assert(less[k] == events[k]);
        }
        law_resumed_queue_exact(first, less, bounds, min_z, max_z, z);
        let queued = mbtiles_flow::queued_of(first, less, bounds, max_z);
        let kids = last.effect(bounds, max_z).children;
        generation::lemma_in_bounds_fits(last.tile(), bounds, min_z, max_z);
        generation::lemma_children(last.tile(), bounds, max_z);
        assert(kids =~= seq![] || kids == frontier::children_in_bounds(last.tile(), max_z, bounds));
        lemma_added(queued, kids, bounds, min_z, max_z, z + 1);
        let head = generation::children_of(less, bounds, max_z);
        let all = generation::children_of(events, bounds, max_z);
        assert(all =~= head + kids);
        assert forall|tile: TileJob| #[trigger] all.contains(tile) <==> head.contains(tile)
            || kids.contains(tile) by {
            if all.contains(tile) {
                let i = choose|i: int| 0 <= i < all.len() && all[i] == tile;
                if i < head.len() {
                    assert(head[i] == tile);
                } else {
                    assert(kids[i - head.len()] == tile);
                }
            }
            if head.contains(tile) {
                let i = choose|i: int| 0 <= i < head.len() && head[i] == tile;
                assert(all[i] == tile);
            } else if kids.contains(tile) {
                let i = choose|i: int| 0 <= i < kids.len() && kids[i] == tile;
                assert(all[head.len() + i] == tile);
            }
        }
        assert forall|tile: TileJob| #[trigger]
            mbtiles_flow::queued_of(first, events, bounds, max_z).contains(tile)
                <==> first.contains(tile) || all.contains(tile) by {
            assert((queued + pipeline::fresh(kids, pipeline::keys_of(queued))).contains(tile)
                <==> queued.contains(tile) || kids.contains(tile));
            assert(queued.contains(tile) <==> first.contains(tile) || head.contains(tile));
        }
    }
}

/// Whether the tiles that were made but are not taken off the frontier are passed over when they
/// come again.
pub open spec fn passed_over(lost: Seq<TileEvent>, again: Seq<TileEvent>) -> bool {
    forall|l: int|
        0 <= l < lost.len() && coverage::with_data(#[trigger] lost[l]) ==> exists|a: int|
            0 <= a < again.len() && (#[trigger] again[a]) == (TileEvent::Restored {
                coord: lost[l].tile(),
                uniform_color: None,
            })
}

/// A zoom that is interrupted and taken up again leaves the next zoom the frontier that its tiles
/// leave when it is not. `kept` are the events of the tiles that were taken off the frontier,
/// `lost` those of a chunk that was not, `again` those of all tiles that were left. The queue that
/// is found holds the children of `kept`, with or without those of `lost`.
pub proof fn law_resumed_zoom_is_whole(
    frontier: Seq<TileJob>,
    kept: Seq<TileEvent>,
    lost: Seq<TileEvent>,
    again: Seq<TileEvent>,
    first: Seq<TileJob>,
    bounds: Seq<TileBounds>,
    min_z: u8,
    max_z: u8,
    z: int,
)
    requires
        pyramid::pyramid(bounds, min_z, max_z),
        frontier::keys_fit(bounds),
        generation::frontier_ok(frontier, bounds, z),
        generation::covers(kept + again, frontier),
        passed_over(lost, again),
        generation::frontier_ok(first, bounds, z + 1),
        forall|tile: TileJob| #[trigger]
            first.contains(tile) ==> generation::children_of(
                kept + lost,
                bounds,
                max_z,
            ).contains(tile),
        forall|tile: TileJob| #[trigger]
            generation::children_of(kept, bounds, max_z).contains(tile) ==> first.contains(tile),
    ensures
        mbtiles_flow::queued_of(first, again, bounds, max_z).to_multiset()
            == generation::children_of(kept + again, bounds, max_z).to_multiset(),
{
    let whole = kept + again;
    let queue = mbtiles_flow::queued_of(first, again, bounds, max_z);
    let next = generation::children_of(whole, bounds, max_z);
    assert forall|k: int| 0 <= k < whole.len() implies (#[trigger] whole[k]).tile().z == z
        && frontier::in_bounds(bounds, whole[k].tile()) by {
        coverage::lemma_covers_one(whole, frontier, whole[k].tile());
        let i = choose|i: int| 0 <= i < frontier.len() && frontier[i] == whole[k].tile();
        assert(frontier[i].z == z);
    }
    assert forall|k: int| 0 <= k < again.len() implies (#[trigger] again[k]).tile().z == z
        && frontier::in_bounds(bounds, again[k].tile()) by {
        assert(whole[kept.len() + k] == again[k]);
    }
    law_resumed_queue_exact(first, again, bounds, min_z, max_z, z);
    generation::law_zoom_conserves(frontier, whole, bounds, min_z, max_z, z);
    assert forall|tile: TileJob| queue.contains(tile) <==> next.contains(tile) by {
        coverage::lemma_children_of_contains(whole, bounds, max_z, tile);
        coverage::lemma_children_of_contains(kept, bounds, max_z, tile);
        coverage::lemma_children_of_contains(again, bounds, max_z, tile);
        coverage::lemma_children_of_contains(kept + lost, bounds, max_z, tile);
        if first.contains(tile) {
            let both = kept + lost;
            let k = choose|k: int|
                0 <= k < both.len() && (#[trigger] both[k]).effect(bounds, max_z).children.contains(
                    tile,
                );
            if k < kept.len() {
                assert(whole[k] == both[k]);
            } else {
                let l = k - kept.len();
                assert(both[k] == lost[l]);
                assert(coverage::with_data(lost[l]));
                let a = choose|a: int|
                    0 <= a < again.len() && (#[trigger] again[a]) == (TileEvent::Restored {
                        coord: lost[l].tile(),
                        uniform_color: None,
                    });
                assert(again[a].effect(bounds, max_z).children.contains(tile));
                assert(whole[kept.len() + a] == again[a]);
            }
        }
        if generation::children_of(again, bounds, max_z).contains(tile) {
            let k = choose|k: int|
                0 <= k < again.len() && (#[trigger] again[k]).effect(
                    bounds,
                    max_z,
                ).children.contains(tile);
            assert(whole[kept.len() + k] == again[k]);
        }
        if next.contains(tile) {
            let k = choose|k: int|
                0 <= k < whole.len() && (#[trigger] whole[k]).effect(
                    bounds,
                    max_z,
                ).children.contains(tile);
            if k < kept.len() {
                assert(kept[k] == whole[k]);
                assert(first.contains(tile));
            } else {
                assert(again[k - kept.len()] == whole[k]);
            }
        }
    }
    lemma_same_tiles(queue, next);
}

/// Lists of the same tiles, none twice, hold them equally often.
proof fn lemma_same_tiles(a: Seq<TileJob>, b: Seq<TileJob>)
    requires
        a.no_duplicates(),
        b.no_duplicates(),
        forall|tile: TileJob| a.contains(tile) <==> b.contains(tile),
    ensures
        a.to_multiset() == b.to_multiset(),
{
    a.to_multiset_ensures();
    b.to_multiset_ensures();
    a.lemma_multiset_has_no_duplicates();
    b.lemma_multiset_has_no_duplicates();
    assert forall|tile: TileJob| a.to_multiset().count(tile) == b.to_multiset().count(tile) by {
        assert(a.contains(tile) <==> a.to_multiset().count(tile) > 0);
        assert(b.contains(tile) <==> b.to_multiset().count(tile) > 0);
        if a.contains(tile) {
            assert(a.to_multiset().contains(tile));
            assert(b.to_multiset().contains(tile));
        }
    }
    assert(a.to_multiset() =~= b.to_multiset());
}

} // verus!
