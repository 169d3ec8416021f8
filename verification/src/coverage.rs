//! Why a run misses no tile and does none twice: each candidate tile is visited, or stands below
//! exactly one tile that answered for it.

use vstd::arithmetic::div_mod::*;
use vstd::arithmetic::power2::*;
use vstd::prelude::*;

use crate::archive;
use crate::archive::{BuildStep, TileSource};
use crate::frontier;
use crate::frontier::{TileBounds, TileJob};
use crate::generation;
use crate::generation::TileEvent;
use crate::pipeline::TileOutcome;
use crate::pmtiles_flow;
use crate::pyramid;
use crate::spool;
use crate::spool::UniformFill;

verus! {

/// The tile that covers another at a lesser or the same zoom.
pub open spec fn ancestor(tile: TileJob, z: int) -> TileJob {
    TileJob {
        z: z as u8,
        x: (tile.x as int / pow2((tile.z - z) as nat) as int) as u32,
        y: (tile.y as int / pow2((tile.z - z) as nat) as int) as u32,
    }
}

/// Halving a quotient halves what was divided once more.
proof fn lemma_halve(v: int, k: nat)
    requires
        v >= 0,
    ensures
        v / pow2(k) as int / 2 == v / pow2(k + 1) as int,
{
    lemma_pow2_pos(k);
    lemma_pow2_unfold(k + 1);
    lemma_div_denominator(v, pow2(k) as int, 2);
    assert(pow2(k) as int * 2 == pow2(k + 1));
}

proof fn lemma_quotient_small(v: int, k: nat)
    requires
        0 <= v <= u32::MAX,
    ensures
        0 <= v / pow2(k) as int <= v,
{
    lemma_pow2_pos(k);
    lemma_div_pos_is_pos(v, pow2(k) as int);
    lemma_div_nonincreasing(v, pow2(k) as int);
}

/// What the ancestors of a tile are to it and to each other.
pub proof fn lemma_ancestor(tile: TileJob, z: int)
    requires
        0 <= z <= tile.z,
    ensures
        ancestor(tile, z).z == z,
        ancestor(tile, z).x == tile.x as int / pow2((tile.z - z) as nat) as int,
        ancestor(tile, z).y == tile.y as int / pow2((tile.z - z) as nat) as int,
        ancestor(tile, tile.z as int) == tile,
        z < tile.z ==> pyramid::above(ancestor(tile, z), tile),
        z > 0 ==> ancestor(tile, z - 1).x == ancestor(tile, z).x / 2,
        z > 0 ==> ancestor(tile, z - 1).y == ancestor(tile, z).y / 2,
{
    let k = (tile.z - z) as nat;
    lemma_quotient_small(tile.x as int, k);
    lemma_quotient_small(tile.y as int, k);
    lemma2_to64();
    lemma_div_basics(tile.x as int);
    lemma_div_basics(tile.y as int);
    if z > 0 {
        assert((tile.z - (z - 1)) as nat == k + 1);
        lemma_halve(tile.x as int, k);
        lemma_halve(tile.y as int, k);
        lemma_quotient_small(tile.x as int, k + 1);
        lemma_quotient_small(tile.y as int, k + 1);
    }
}

/// A tile is above another exactly if it is its ancestor.
pub proof fn lemma_above_is_ancestor(tile: TileJob, other: TileJob)
    requires
        pyramid::above(tile, other),
    ensures
        tile == ancestor(other, tile.z as int),
{
    lemma_ancestor(other, tile.z as int);
}

/// The ancestors of a tile within bounds are within bounds.
pub proof fn lemma_ancestor_in_bounds(
    tile: TileJob,
    bounds: Seq<TileBounds>,
    min_z: u8,
    max_z: u8,
    z: int,
)
    requires
        pyramid::pyramid(bounds, min_z, max_z),
        frontier::in_bounds(bounds, tile),
        min_z <= z <= tile.z,
    ensures
        frontier::in_bounds(bounds, ancestor(tile, z)),
{
    pyramid::lemma_pyramid_at(bounds, min_z, max_z, tile.z);
    pyramid::lemma_pyramid_at(bounds, min_z, max_z, z as u8);
    let i = z - min_z;
    let j = tile.z - min_z;
    pyramid::lemma_nested_chain(bounds, min_z, max_z, i, j);
    lemma_ancestor(tile, z);
    let s = pow2((tile.z - z) as nat) as int;
    lemma_pow2_pos((tile.z - z) as nat);
    let a = bounds[i];
    let x = ancestor(tile, z).x as int;
    let y = ancestor(tile, z).y as int;
    pyramid::lemma_divides_below(tile.x as int, x, s);
    pyramid::lemma_divides_below(tile.y as int, y, s);
    lemma_between(x, a.x0 as int, a.x1 as int, tile.x as int, s);
    lemma_between(y, a.y0 as int, a.y1 as int, tile.y as int, s);
}

proof fn lemma_between(c: int, lo: int, hi: int, v: int, s: int)
    requires
        s >= 1,
        c * s <= v <= (c + 1) * s - 1,
        lo * s <= v < (hi + 1) * s,
    ensures
        lo <= c <= hi,
{
    if c < lo {
        assert((c + 1) * s <= lo * s) by (nonlinear_arith)
            requires
                c + 1 <= lo,
                s >= 1,
        ;
    }
    if c > hi {
        assert((hi + 1) * s <= c * s) by (nonlinear_arith)
            requires
                hi + 1 <= c,
                s >= 1,
        ;
    }
}

/// The children of a tile that a run visits are the tiles of the next zoom, within bounds, of which
/// it is the parent.
pub proof fn lemma_children_exact(
    tile: TileJob,
    bounds: Seq<TileBounds>,
    max_z: u8,
    child: TileJob,
)
    requires
        frontier::children_fit(tile, max_z, bounds),
    ensures
        frontier::children_in_bounds(tile, max_z, bounds).contains(child) <==> {
            &&& tile.z < max_z
            &&& child.z == tile.z + 1
            &&& frontier::in_bounds(bounds, child)
            &&& child.x / 2 == tile.x
            &&& child.y / 2 == tile.y
        },
{
    generation::lemma_children(tile, bounds, max_z);
    let kids = frontier::children_in_bounds(tile, max_z, bounds);
    if kids.contains(child) {
        let i = choose|i: int| 0 <= i < kids.len() && kids[i] == child;
        assert(kids[i].z == tile.z + 1);
        assert(tile.z < max_z);
    }
    if tile.z < max_z && child.z == tile.z + 1 && frontier::in_bounds(bounds, child) && child.x / 2
        == tile.x && child.y / 2 == tile.y {
        broadcast use vstd::seq_lib::group_filter_ensures;

        let c = frontier::children(tile);
        let keep = |child: TileJob| frontier::in_bounds(bounds, child);
        assert(c[0] == child || c[1] == child || c[2] == child || c[3] == child);
        assert forall|i: int| 0 <= i < 4 && c[i] == child implies kids.contains(child) by {
            assert(keep(c[i]));
            assert(c.filter(keep).contains(c[i]));
        }
    }
}

/// Whether the tile of an event answers for all its descendants: it was empty, it was uniform, or
/// it failed.
pub open spec fn answers(event: TileEvent) -> bool {
    match event {
        TileEvent::Settled { outcome } => match outcome {
            TileOutcome::Data { uniform_color, .. } => uniform_color is Some,
            TileOutcome::Empty { .. } => true,
            TileOutcome::Error { .. } => true,
        },
        TileEvent::Restored { uniform_color, .. } => uniform_color is Some,
    }
}

/// Whether some event of the first `n` zooms answers for a tile.
pub open spec fn answered(history: Seq<Seq<TileEvent>>, tile: TileJob, n: int) -> bool {
    exists|i: int, k: int|
        0 <= i < n && 0 <= k < history[i].len() && answers(#[trigger] history[i][k])
            && pyramid::above(history[i][k].tile(), tile)
}

/// Whether a tile has an event of its own.
pub open spec fn visited(history: Seq<Seq<TileEvent>>, tile: TileJob) -> bool {
    exists|i: int, k: int|
        0 <= i < history.len() && 0 <= k < history[i].len() && (
        #[trigger] history[i][k]).tile() == tile
}

/// The children that some events leave, one by one.
pub proof fn lemma_children_of_contains(
    events: Seq<TileEvent>,
    bounds: Seq<TileBounds>,
    max_z: u8,
    child: TileJob,
)
    ensures
        generation::children_of(events, bounds, max_z).contains(child) <==> exists|k: int|
            0 <= k < events.len() && (#[trigger] events[k]).effect(
                bounds,
                max_z,
            ).children.contains(child),
    decreases events.len(),
{
    let all = generation::children_of(events, bounds, max_z);
    if events.len() > 0 {
        let less = events.drop_last();
        lemma_children_of_contains(less, bounds, max_z, child);
        let head = generation::children_of(less, bounds, max_z);
        let kids = events.last().effect(bounds, max_z).children;
        assert(all =~= head + kids);
        if all.contains(child) {
            let i = choose|i: int| 0 <= i < all.len() && all[i] == child;
            if i < head.len() {
                assert(head[i] == child);
                let k = choose|k: int|
                    0 <= k < less.len() && (#[trigger] less[k]).effect(
                        bounds,
                        max_z,
                    ).children.contains(child);
                assert(events[k] == less[k]);
            } else {
                assert(kids[i - head.len()] == child);
                assert(events[events.len() - 1].effect(bounds, max_z).children.contains(child));
            }
        }
        if exists|k: int|
            0 <= k < events.len() && (#[trigger] events[k]).effect(
                bounds,
                max_z,
            ).children.contains(child) {
            let k = choose|k: int|
                0 <= k < events.len() && (#[trigger] events[k]).effect(
                    bounds,
                    max_z,
                ).children.contains(child);
            if k < less.len() {
                assert(less[k] == events[k]);
                let i = choose|i: int| 0 <= i < head.len() && head[i] == child;
                assert(all[i] == child);
            } else {
                let i = choose|i: int| 0 <= i < kids.len() && kids[i] == child;
                assert(all[head.len() + i] == child);
            }
        }
    }
}

/// Where a zoom stands, its frontier is one of that zoom.
proof fn lemma_frontier_at_ok(
    history: Seq<Seq<TileEvent>>,
    bounds: Seq<TileBounds>,
    min_z: u8,
    max_z: u8,
    i: int,
)
    requires
        pyramid::pyramid(bounds, min_z, max_z),
        generation::is_history(history, bounds, min_z, max_z),
        0 <= i <= history.len(),
    ensures
        generation::frontier_ok(
            generation::frontier_at(history, bounds, min_z, max_z, i),
            bounds,
            min_z + i,
        ),
    decreases i,
{
    if i == 0 {
        generation::lemma_first_frontier_ok(bounds, min_z, max_z);
    } else {
        lemma_frontier_at_ok(history, bounds, min_z, max_z, i - 1);
        let tiles = generation::frontier_at(history, bounds, min_z, max_z, i - 1);
        assert(generation::covers(history[i - 1], tiles));
        generation::law_zoom_conserves(tiles, history[i - 1], bounds, min_z, max_z, min_z + i - 1);
    }
}

/// A tile of a frontier has exactly one event.
pub proof fn lemma_covers_one(events: Seq<TileEvent>, tiles: Seq<TileJob>, tile: TileJob)
    requires
        generation::covers(events, tiles),
        tiles.no_duplicates(),
    ensures
        tiles.contains(tile) <==> exists|k: int|
            0 <= k < events.len() && (#[trigger] events[k]).tile() == tile,
        forall|j: int, k: int|
            0 <= j < events.len() && 0 <= k < events.len() && (#[trigger] events[j]).tile() == (
            #[trigger] events[k]).tile() ==> j == k,
{
    let t = generation::tiles_of(events);
    t.to_multiset_ensures();
    tiles.to_multiset_ensures();
    tiles.lemma_multiset_has_no_duplicates();
    t.lemma_multiset_has_no_duplicates_conv();
    if tiles.contains(tile) {
        assert(tiles.to_multiset().count(tile) > 0);
        assert(t.contains(tile));
        let k = choose|k: int| 0 <= k < t.len() && t[k] == tile;
        assert(events[k].tile() == tile);
    }
    if exists|k: int| 0 <= k < events.len() && (#[trigger] events[k]).tile() == tile {
        let k = choose|k: int| 0 <= k < events.len() && (#[trigger] events[k]).tile() == tile;
        assert(t[k] == tile);
        assert(t.contains(tile));
        assert(t.to_multiset().count(tile) > 0);
    }
    assert forall|j: int, k: int|
        0 <= j < events.len() && 0 <= k < events.len() && (#[trigger] events[j]).tile() == (
        #[trigger] events[k]).tile() implies j == k by {
        assert(t[j] == t[k]);
    }
}

/// Down to its own zoom, the ancestor of a tile is on the frontier exactly if nothing has answered
/// for the tile yet.
proof fn lemma_on_frontier_or_answered(
    history: Seq<Seq<TileEvent>>,
    bounds: Seq<TileBounds>,
    min_z: u8,
    max_z: u8,
    tile: TileJob,
    i: int,
)
    requires
        pyramid::pyramid(bounds, min_z, max_z),
        generation::is_history(history, bounds, min_z, max_z),
        frontier::in_bounds(bounds, tile),
        0 <= i <= tile.z - min_z,
        i <= history.len(),
    ensures
        generation::frontier_at(history, bounds, min_z, max_z, i).contains(
            ancestor(tile, min_z + i),
        ) <==> !answered(history, tile, i),
    decreases i,
{
    let here = generation::frontier_at(history, bounds, min_z, max_z, i);
    let me = ancestor(tile, min_z + i);
    lemma_ancestor(tile, min_z + i);
    lemma_ancestor_in_bounds(tile, bounds, min_z, max_z, min_z + i);
    if i == 0 {
        let b = bounds[0];
        assert(pyramid::proper(b));
        pyramid::lemma_pyramid_at(bounds, min_z, max_z, min_z);
        pyramid::lemma_grid_contains(
            min_z,
            b.x0 as int,
            b.x1 as int,
            b.y0 as int,
            b.y1 as int,
            me,
        );
    } else {
        lemma_on_frontier_or_answered(history, bounds, min_z, max_z, tile, i - 1);
        lemma_frontier_at_ok(history, bounds, min_z, max_z, i - 1);
        let before = generation::frontier_at(history, bounds, min_z, max_z, i - 1);
        let events = history[i - 1];
        assert(generation::covers(events, before));
        let parent = ancestor(tile, min_z + i - 1);
        lemma_ancestor(tile, min_z + i - 1);
        lemma_ancestor_in_bounds(tile, bounds, min_z, max_z, min_z + i - 1);
        generation::lemma_in_bounds_fits(parent, bounds, min_z, max_z);
        generation::lemma_in_bounds_fits(tile, bounds, min_z, max_z);
        lemma_covers_one(events, before, parent);
        lemma_children_of_contains(events, bounds, max_z, me);
        lemma_children_exact(parent, bounds, max_z, me);
        // A child on the frontier comes from its parent, and from a parent that goes on.
        if here.contains(me) {
            let k = choose|k: int|
                0 <= k < events.len() && (#[trigger] events[k]).effect(
                    bounds,
                    max_z,
                ).children.contains(me);
            let from = events[k].tile();
            assert(generation::tiles_of(events)[k] == from);
            lemma_event_tile_ok(events, before, bounds, min_z + i - 1, k);
            generation::lemma_in_bounds_fits(from, bounds, min_z, max_z);
            assert(!answers(events[k]));
            lemma_children_exact(from, bounds, max_z, me);
            assert(from == parent);
            assert(before.contains(parent));
            if answered(history, tile, i) {
                let (a, c) = choose|a: int, c: int|
                    0 <= a < i && 0 <= c < history[a].len() && answers(#[trigger] history[a][c])
                        && pyramid::above(history[a][c].tile(), tile);
                if a < i - 1 {
                    assert(answered(history, tile, i - 1));
                } else {
                    lemma_event_tile_ok(events, before, bounds, min_z + i - 1, c);
                    lemma_above_is_ancestor(events[c].tile(), tile);
                    assert(events[c].tile() == parent);
                    assert(c == k);
                }
            }
        }
        if !answered(history, tile, i) {
            assert(!answered(history, tile, i - 1)) by {
                if answered(history, tile, i - 1) {
                    let (a, c) = choose|a: int, c: int|
                        0 <= a < i - 1 && 0 <= c < history[a].len() && answers(
                            #[trigger] history[a][c],
                        ) && pyramid::above(history[a][c].tile(), tile);
                    assert(answers(history[a][c]) && pyramid::above(history[a][c].tile(), tile));
                }
            }
            assert(before.contains(parent));
            let k = choose|k: int| 0 <= k < events.len() && (#[trigger] events[k]).tile() == parent;
            if answers(events[k]) {
                assert(answers(history[i - 1][k]) && pyramid::above(
                    history[i - 1][k].tile(),
                    tile,
                ));
                assert(false);
            }
            assert(events[k].effect(bounds, max_z).children
                == frontier::children_in_bounds(parent, max_z, bounds));
            assert(events[k].effect(bounds, max_z).children.contains(me));
        }
    }
}

/// The tile of an event is one of the frontier.
proof fn lemma_event_tile_ok(
    events: Seq<TileEvent>,
    tiles: Seq<TileJob>,
    bounds: Seq<TileBounds>,
    z: int,
    k: int,
)
    requires
        generation::covers(events, tiles),
        generation::frontier_ok(tiles, bounds, z),
        0 <= k < events.len(),
    ensures
        tiles.contains(events[k].tile()),
        events[k].tile().z == z,
        frontier::in_bounds(bounds, events[k].tile()),
{
    lemma_covers_one(events, tiles, events[k].tile());
    let i = choose|i: int| 0 <= i < tiles.len() && tiles[i] == events[k].tile();
    assert(tiles[i].z == z);
}

/// Every candidate tile of a run is looked at itself, or else stands below a tile that answered for
/// it because it was empty, uniform or failed; never both.
pub proof fn law_every_candidate_once(
    history: Seq<Seq<TileEvent>>,
    bounds: Seq<TileBounds>,
    min_z: u8,
    max_z: u8,
    tile: TileJob,
)
    requires
        pyramid::pyramid(bounds, min_z, max_z),
        generation::is_history(history, bounds, min_z, max_z),
        history.len() == max_z - min_z + 1,
        frontier::in_bounds(bounds, tile),
    ensures
        visited(history, tile) <==> !answered(history, tile, history.len() as int),
{
    generation::lemma_in_bounds_fits(tile, bounds, min_z, max_z);
    let i = tile.z - min_z;
    lemma_on_frontier_or_answered(history, bounds, min_z, max_z, tile, i);
    lemma_ancestor(tile, tile.z as int);
    lemma_frontier_at_ok(history, bounds, min_z, max_z, i);
    let here = generation::frontier_at(history, bounds, min_z, max_z, i);
    assert(generation::covers(history[i], here));
    lemma_covers_one(history[i], here, tile);
    if here.contains(tile) {
        let k = choose|k: int| 0 <= k < history[i].len() && (#[trigger] history[i][k]).tile() == tile;
        assert(history[i][k].tile() == tile);
    }
    if visited(history, tile) {
        let (a, k) = choose|a: int, k: int|
            0 <= a < history.len() && 0 <= k < history[a].len() && (
            #[trigger] history[a][k]).tile() == tile;
        lemma_frontier_at_ok(history, bounds, min_z, max_z, a);
        let there = generation::frontier_at(history, bounds, min_z, max_z, a);
        assert(generation::covers(history[a], there));
        lemma_event_tile_ok(history[a], there, bounds, min_z + a, k);
        assert(a == i);
        assert(here.contains(tile));
    }
    // Nothing at the tile's own zoom or below stands above it.
    if answered(history, tile, history.len() as int) {
        let (a, k) = choose|a: int, k: int|
            0 <= a < history.len() && 0 <= k < history[a].len() && answers(
                #[trigger] history[a][k],
            ) && pyramid::above(history[a][k].tile(), tile);
        lemma_frontier_at_ok(history, bounds, min_z, max_z, a);
        let there = generation::frontier_at(history, bounds, min_z, max_z, a);
        assert(generation::covers(history[a], there));
        lemma_event_tile_ok(history[a], there, bounds, min_z + a, k);
        assert(a < i);
        assert(answers(history[a][k]) && pyramid::above(history[a][k].tile(), tile));
        assert(answered(history, tile, i));
    }
    if answered(history, tile, i) {
        let (a, k) = choose|a: int, k: int|
            0 <= a < i && 0 <= k < history[a].len() && answers(#[trigger] history[a][k])
                && pyramid::above(history[a][k].tile(), tile);
        assert(answers(history[a][k]) && pyramid::above(history[a][k].tile(), tile));
        assert(answered(history, tile, history.len() as int));
    }
}

/// Whether the tile of an event has data.
pub open spec fn with_data(event: TileEvent) -> bool {
    match event {
        TileEvent::Settled { outcome } => outcome is Data,
        TileEvent::Restored { .. } => true,
    }
}

/// The colour that the tile of an event gives to all its descendants, if it gives one.
pub open spec fn color_given(event: TileEvent) -> Option<[u8; 3]> {
    match event {
        TileEvent::Settled { outcome } => match outcome {
            TileOutcome::Data { uniform_color, .. } => uniform_color,
            TileOutcome::Empty { .. } => None,
            TileOutcome::Error { .. } => None,
        },
        TileEvent::Restored { uniform_color, .. } => uniform_color,
    }
}

/// Whether the tile of an event gives its colour to all its descendants.
pub open spec fn is_uniform(event: TileEvent) -> bool {
    color_given(event) is Some
}

/// Whether a tile was looked at and has data.
pub open spec fn made(history: Seq<Seq<TileEvent>>, tile: TileJob) -> bool {
    exists|i: int, k: int|
        0 <= i < history.len() && 0 <= k < history[i].len() && with_data(#[trigger] history[i][k])
            && history[i][k].tile() == tile
}

/// Whether a tile stands below a uniform one.
pub open spec fn colored(history: Seq<Seq<TileEvent>>, tile: TileJob) -> bool {
    exists|i: int, k: int|
        0 <= i < history.len() && 0 <= k < history[i].len() && is_uniform(#[trigger] history[i][k])
            && pyramid::above(history[i][k].tile(), tile)
}

/// Whether a tile stands below a uniform one of a colour.
pub open spec fn colored_in(history: Seq<Seq<TileEvent>>, tile: TileJob, color: [u8; 3]) -> bool {
    exists|i: int, k: int|
        0 <= i < history.len() && 0 <= k < history[i].len() && color_given(
            #[trigger] history[i][k],
        ) == Some(color) && pyramid::above(history[i][k].tile(), tile)
}

/// Whether the directories hold what a run has made: at each zoom the tiles that have data.
pub open spec fn directories_hold(names: Seq<Vec<String>>, history: Seq<Seq<TileEvent>>) -> bool {
    &&& names.len() == history.len()
    &&& forall|i: int, tile: TileJob|
        0 <= i < names.len() ==> (#[trigger] spool::tiles_named(
            archive::names_at(names, i),
        ).contains(tile) <==> exists|k: int|
            0 <= k < history[i].len() && with_data(#[trigger] history[i][k])
                && history[i][k].tile() == tile)
}

/// Whether a fill rule is in the colour of a uniform tile, its root.
pub open spec fn rule_holds(fill: UniformFill, history: Seq<Seq<TileEvent>>) -> bool {
    exists|i: int, k: int|
        0 <= i < history.len() && 0 <= k < history[i].len() && color_given(
            #[trigger] history[i][k],
        ) == Some(fill.color) && history[i][k].tile() == fill.root
}

/// Whether the rule file holds the rules of a run: a rule for each uniform tile that has
/// descendants, and no rule that is not in the colour of its tile.
pub open spec fn rules_hold(
    fills: Seq<UniformFill>,
    history: Seq<Seq<TileEvent>>,
    bounds: Seq<TileBounds>,
    max_z: u8,
) -> bool {
    &&& forall|j: int| 0 <= j < fills.len() ==> rule_holds(#[trigger] fills[j], history)
    &&& forall|tile: TileJob|
        #[trigger] spool::roots(fills).contains(tile) <==> {
            &&& frontier::descendant_count(tile, bounds, max_z) > 0
            &&& exists|i: int, k: int|
                0 <= i < history.len() && 0 <= k < history[i].len() && is_uniform(
                    #[trigger] history[i][k],
                ) && history[i][k].tile() == tile
        }
}

/// Whether each directory lists, in whatever order, the files of the tiles of its zoom that have
/// data.
pub open spec fn files_written(names: Seq<Vec<String>>, history: Seq<Seq<TileEvent>>) -> bool {
    &&& names.len() == history.len()
    &&& forall|i: int, name: Seq<char>|
        0 <= i < names.len() ==> (#[trigger] archive::names_at(names, i).contains(name)
            <==> exists|k: int|
            0 <= k < history[i].len() && with_data(#[trigger] history[i][k])
                && frontier::filename(history[i][k].tile()) == name)
}

/// Whether the rules are, in whatever order, those that a run gives out for its tiles.
pub open spec fn rules_written(
    fills: Seq<UniformFill>,
    history: Seq<Seq<TileEvent>>,
    bounds: Seq<TileBounds>,
    max_z: u8,
) -> bool {
    forall|fill: UniformFill| #[trigger]
        fills.contains(fill) <==> exists|i: int, k: int|
            0 <= i < history.len() && 0 <= k < history[i].len() && pmtiles_flow::fill_rule(
                (#[trigger] history[i][k]).tile(),
                color_given(history[i][k]),
                bounds,
                max_z,
            ) == Some(fill)
}

/// A tile is named by a directory if one of its names is read as the tile.
pub proof fn lemma_tiles_named(names: Seq<Seq<char>>, tile: TileJob)
    ensures
        spool::tiles_named(names).contains(tile) <==> exists|j: int|
            0 <= j < names.len() && frontier::parsed_filename(#[trigger] names[j]) == Some(tile),
    decreases names.len(),
{
    if names.len() > 0 {
        let less = names.drop_last();
        let head = spool::tiles_named(less);
        let all = spool::tiles_named(names);
        lemma_tiles_named(less, tile);
        if head.contains(tile) {
            let m = choose|m: int| 0 <= m < head.len() && head[m] == tile;
            assert(all[m] == tile);
            let j = choose|j: int|
                0 <= j < less.len() && frontier::parsed_filename(#[trigger] less[j]) == Some(tile);
            assert(frontier::parsed_filename(names[j]) == Some(tile));
        } else if frontier::parsed_filename(names.last()) == Some(tile) {
            assert(all.last() == tile);
            assert(frontier::parsed_filename(names[names.len() - 1]) == Some(tile));
        } else {
            assert(forall|j: int| 0 <= j < less.len() ==> less[j] == #[trigger] names[j]);
            assert(forall|m: int| 0 <= m < head.len() ==> all[m] == #[trigger] head[m]);
        }
    }
}

/// A run whose tiles with data all have their files, and whose rules all stand in the rule file,
/// leaves directories that hold what it has made and a rule file that holds its rules.
pub proof fn law_run_leaves_what_it_made(
    history: Seq<Seq<TileEvent>>,
    names: Seq<Vec<String>>,
    fills: Seq<UniformFill>,
    bounds: Seq<TileBounds>,
    max_z: u8,
)
    requires
        files_written(names, history),
        rules_written(fills, history, bounds, max_z),
    ensures
        directories_hold(names, history),
        rules_hold(fills, history, bounds, max_z),
{
    assert forall|i: int, tile: TileJob| 0 <= i < names.len() implies (
    #[trigger] spool::tiles_named(archive::names_at(names, i)).contains(tile) <==> exists|k: int|
        0 <= k < history[i].len() && with_data(#[trigger] history[i][k])
            && history[i][k].tile() == tile) by {
        let here = archive::names_at(names, i);
        lemma_tiles_named(here, tile);
        if spool::tiles_named(here).contains(tile) {
            let j = choose|j: int|
                0 <= j < here.len() && frontier::parsed_filename(#[trigger] here[j]) == Some(tile);
            assert(here.contains(here[j]));
            let k = choose|k: int|
                0 <= k < history[i].len() && with_data(#[trigger] history[i][k])
                    && frontier::filename(history[i][k].tile()) == here[j];
            frontier::law_filename_reads_back(history[i][k].tile());
            assert(with_data(history[i][k]) && history[i][k].tile() == tile);
        }
        if exists|k: int|
            0 <= k < history[i].len() && with_data(#[trigger] history[i][k])
                && history[i][k].tile() == tile {
            let k = choose|k: int|
                0 <= k < history[i].len() && with_data(#[trigger] history[i][k])
                    && history[i][k].tile() == tile;
            frontier::law_filename_reads_back(tile);
            assert(frontier::filename(history[i][k].tile()) == frontier::filename(tile));
            assert(here.contains(frontier::filename(tile)));
            let j = choose|j: int| 0 <= j < here.len() && here[j] == frontier::filename(tile);
            assert(frontier::parsed_filename(here[j]) == Some(tile));
        }
    }
    assert forall|j: int| 0 <= j < fills.len() implies rule_holds(#[trigger] fills[j], history) by {
        assert(fills.contains(fills[j]));
        let (i, k) = choose|i: int, k: int|
            0 <= i < history.len() && 0 <= k < history[i].len() && pmtiles_flow::fill_rule(
                (#[trigger] history[i][k]).tile(),
                color_given(history[i][k]),
                bounds,
                max_z,
            ) == Some(fills[j]);
        assert(color_given(history[i][k]) == Some(fills[j].color));
    }
    assert forall|tile: TileJob| #[trigger] spool::roots(fills).contains(tile) <==> {
        &&& frontier::descendant_count(tile, bounds, max_z) > 0
        &&& exists|i: int, k: int|
            0 <= i < history.len() && 0 <= k < history[i].len() && is_uniform(
                #[trigger] history[i][k],
            ) && history[i][k].tile() == tile
    } by {
        let roots = spool::roots(fills);
        if roots.contains(tile) {
            let j = choose|j: int| 0 <= j < roots.len() && roots[j] == tile;
            assert(fills.contains(fills[j]));
            let (i, k) = choose|i: int, k: int|
                0 <= i < history.len() && 0 <= k < history[i].len() && pmtiles_flow::fill_rule(
                    (#[trigger] history[i][k]).tile(),
                    color_given(history[i][k]),
                    bounds,
                    max_z,
                ) == Some(fills[j]);
            assert(is_uniform(history[i][k]) && history[i][k].tile() == tile);
        }
        if frontier::descendant_count(tile, bounds, max_z) > 0 && exists|i: int, k: int|
            0 <= i < history.len() && 0 <= k < history[i].len() && is_uniform(
                #[trigger] history[i][k],
            ) && history[i][k].tile() == tile {
            let (i, k) = choose|i: int, k: int|
                0 <= i < history.len() && 0 <= k < history[i].len() && is_uniform(
                    #[trigger] history[i][k],
                ) && history[i][k].tile() == tile;
            let fill = UniformFill { root: tile, color: color_given(history[i][k])->0 };
            assert(pmtiles_flow::fill_rule(
                history[i][k].tile(),
                color_given(history[i][k]),
                bounds,
                max_z,
            ) == Some(fill));
            assert(fills.contains(fill));
            let j = choose|j: int| 0 <= j < fills.len() && fills[j] == fill;
            assert(roots[j] == tile);
        }
    }
}

/// The staged tiles of a directory are those that its names stand for.
proof fn lemma_staged_tiles(zoom: u8, names: Seq<Seq<char>>)
    ensures
        archive::tiles_of(archive::staged(zoom, names)) == spool::tiles_named(names),
    decreases names.len(),
{
    if names.len() > 0 {
        lemma_staged_tiles(zoom, names.drop_last());
        let head = archive::staged(zoom, names.drop_last());
        if let Some(tile) = frontier::parsed_filename(names.last()) {
            assert(archive::tiles_of(archive::staged(zoom, names)) =~= archive::tiles_of(
                head,
            ).push(tile));
        }
    }
    assert(archive::tiles_of(archive::staged(zoom, names)) =~= spool::tiles_named(names));
}

/// The steps of an archive are those of its zooms.
pub proof fn lemma_plan_contains(
    names: Seq<Vec<String>>,
    fills: Seq<BuildStep>,
    min_z: u8,
    step: BuildStep,
)
    requires
        min_z + names.len() <= 256,
    ensures
        archive::plan_steps(names, fills, min_z).contains(step) <==> exists|i: int|
            0 <= i < names.len() && archive::zoom_steps(
                archive::by_id(
                    archive::staged((min_z + i) as u8, #[trigger] archive::names_at(names, i)),
                ),
                archive::fills_at(fills, (min_z + i) as u8),
            ).contains(step),
    decreases names.len(),
{
    let all = archive::plan_steps(names, fills, min_z);
    if names.len() > 0 {
        let less = names.drop_last();
        let n = names.len() - 1;
        lemma_plan_contains(less, fills, min_z, step);
        let head = archive::plan_steps(less, fills, min_z);
        let z = (min_z + n) as u8;
        let here = archive::zoom_steps(
            archive::by_id(archive::staged(z, archive::names_at(names, n))),
            archive::fills_at(fills, z),
        );
        assert(all =~= head + here);
        if all.contains(step) {
            let j = choose|j: int| 0 <= j < all.len() && all[j] == step;
            if j < head.len() {
                assert(head[j] == step);
                let i = choose|i: int|
                    0 <= i < less.len() && archive::zoom_steps(
                        archive::by_id(
                            archive::staged((min_z + i) as u8, #[trigger] archive::names_at(less, i)),
                        ),
                        archive::fills_at(fills, (min_z + i) as u8),
                    ).contains(step);
                assert(archive::names_at(names, i) == archive::names_at(less, i));
            } else {
                assert(here[j - head.len()] == step);
                assert(here.contains(step));
                assert(archive::names_at(names, n) == archive::names_at(names, n));
            }
        }
        if exists|i: int|
            0 <= i < names.len() && archive::zoom_steps(
                archive::by_id(
                    archive::staged((min_z + i) as u8, #[trigger] archive::names_at(names, i)),
                ),
                archive::fills_at(fills, (min_z + i) as u8),
            ).contains(step) {
            let i = choose|i: int|
                0 <= i < names.len() && archive::zoom_steps(
                    archive::by_id(
                        archive::staged((min_z + i) as u8, #[trigger] archive::names_at(names, i)),
                    ),
                    archive::fills_at(fills, (min_z + i) as u8),
                ).contains(step);
            if i < n {
                assert(archive::names_at(less, i) == archive::names_at(names, i));
                assert(head.contains(step));
                let j = choose|j: int| 0 <= j < head.len() && head[j] == step;
                assert(all[j] == step);
            } else {
                let j = choose|j: int| 0 <= j < here.len() && here[j] == step;
                assert(all[head.len() + j] == step);
            }
        }
    }
}

/// There is a first rule above a tile exactly if there is a rule above it.
proof fn lemma_first_rule(fills: Seq<UniformFill>, tile: TileJob)
    ensures
        archive::first_rule(fills, tile) < fills.len() <==> exists|i: int|
            0 <= i < fills.len() && pyramid::above((#[trigger] fills[i]).root, tile),
        archive::first_rule(fills, tile) < fills.len() ==> pyramid::above(
            fills[archive::first_rule(fills, tile) as int].root,
            tile,
        ),
    decreases fills.len(),
{
    if fills.len() > 0 {
        let head = fills.drop_last();
        lemma_first_rule(head, tile);
        archive::lemma_first_rule_bound(head, tile);
        if archive::first_rule(head, tile) < head.len() {
            let i = choose|i: int|
                0 <= i < head.len() && pyramid::above((#[trigger] head[i]).root, tile);
            assert(fills[i] == head[i]);
            let f = archive::first_rule(head, tile) as int;
            assert(fills[f] == head[f]);
        } else if pyramid::above(fills.last().root, tile) {
            assert(pyramid::above(fills[fills.len() - 1].root, tile));
        } else if exists|i: int|
            0 <= i < fills.len() && pyramid::above((#[trigger] fills[i]).root, tile) {
            let i = choose|i: int|
                0 <= i < fills.len() && pyramid::above((#[trigger] fills[i]).root, tile);
            assert(i < head.len());
            assert(head[i] == fills[i]);
        }
    }
}

/// A tile of the run below another is one of its descendants.
proof fn lemma_below_counts(
    tile: TileJob,
    below: TileJob,
    bounds: Seq<TileBounds>,
    max_z: u8,
)
    requires
        pyramid::above(tile, below),
        archive::of_run(bounds, max_z, below),
    ensures
        frontier::descendant_count(tile, bounds, max_z) > 0,
{
    pyramid::law_descendants_exact(tile, bounds, max_z);
    assert(frontier::descendants(tile, bounds, max_z).contains(below));
}

/// Where the bytes of a tile come from: of one that was made, from a file of its zoom that is named
/// after it; of one below a uniform tile, from the colour of that tile.
pub open spec fn source_holds(
    step: BuildStep,
    history: Seq<Seq<TileEvent>>,
    names: Seq<Vec<String>>,
    min_z: u8,
) -> bool {
    let tile = step.tile;
    &&& made(history, tile) ==> {
        &&& step.source matches TileSource::File { zoom, index }
        &&& zoom == tile.z
        &&& index < archive::names_at(names, tile.z - min_z).len()
        &&& frontier::parsed_filename(archive::names_at(names, tile.z - min_z)[index as int])
            == Some(tile)
    }
    &&& forall|color: [u8; 3]| #[trigger]
        colored_in(history, tile, color) ==> step.source == (TileSource::Color { color })
}

/// The archive of a run holds the tiles that were looked at and have data, and those that stand
/// below a uniform tile; no other tile of the run. The former come from their own files, the latter
/// have the colour of the uniform tile.
pub proof fn law_archive_holds_the_run(
    history: Seq<Seq<TileEvent>>,
    names: Seq<Vec<String>>,
    fills: Seq<UniformFill>,
    bounds: Seq<TileBounds>,
    min_z: u8,
    max_z: u8,
    tile: TileJob,
)
    requires
        pyramid::pyramid(bounds, min_z, max_z),
        frontier::keys_fit(bounds),
        generation::is_history(history, bounds, min_z, max_z),
        history.len() == max_z - min_z + 1,
        directories_hold(names, history),
        rules_hold(fills, history, bounds, max_z),
        frontier::in_bounds(bounds, tile),
    ensures
        archive::tiles_of(
            archive::plan_steps(names, archive::filled_tiles(fills, bounds, max_z), min_z),
        ).contains(tile) <==> made(history, tile) || colored(history, tile),
        forall|j: int|
            0 <= j < archive::plan_steps(
                names,
                archive::filled_tiles(fills, bounds, max_z),
                min_z,
            ).len() && (#[trigger] archive::plan_steps(
                names,
                archive::filled_tiles(fills, bounds, max_z),
                min_z,
            )[j]).tile == tile ==> source_holds(
                archive::plan_steps(names, archive::filled_tiles(fills, bounds, max_z), min_z)[j],
                history,
                names,
                min_z,
            ),
{
    let filled = archive::filled_tiles(fills, bounds, max_z);
    let plan = archive::plan_steps(names, filled, min_z);
    assert forall|j: int| 0 <= j < plan.len() && (#[trigger] plan[j]).tile == tile implies
        source_holds(plan[j], history, names, min_z) by {
        assert(plan.contains(plan[j]));
        lemma_source_holds(history, names, fills, bounds, min_z, max_z, plan[j]);
    }
    generation::lemma_in_bounds_fits(tile, bounds, min_z, max_z);
    archive::law_filled_tiles_exact(fills, bounds, max_z);
    lemma_first_rule(fills, tile);
    assert(archive::of_run(bounds, max_z, tile));
    assert(archive::tiles_of(filled).contains(tile) <==> archive::first_rule(fills, tile)
        < fills.len());
    // Below a uniform tile is below the root of a rule.
    assert(colored(history, tile) <==> archive::first_rule(fills, tile) < fills.len()) by {
        if colored(history, tile) {
            let (i, k) = choose|i: int, k: int|
                0 <= i < history.len() && 0 <= k < history[i].len() && is_uniform(
                    #[trigger] history[i][k],
                ) && pyramid::above(history[i][k].tile(), tile);
            let root = history[i][k].tile();
            lemma_below_counts(root, tile, bounds, max_z);
            assert(spool::roots(fills).contains(root));
            let j = choose|j: int| 0 <= j < spool::roots(fills).len() && spool::roots(fills)[j] == root;
            assert(pyramid::above(fills[j].root, tile));
        }
        if archive::first_rule(fills, tile) < fills.len() {
            let j = choose|j: int|
                0 <= j < fills.len() && pyramid::above((#[trigger] fills[j]).root, tile);
            let root = fills[j].root;
            assert(spool::roots(fills)[j] == root);
            assert(spool::roots(fills).contains(root));
            let (i, k) = choose|i: int, k: int|
                0 <= i < history.len() && 0 <= k < history[i].len() && is_uniform(
                    #[trigger] history[i][k],
                ) && history[i][k].tile() == root;
            assert(is_uniform(history[i][k]) && pyramid::above(history[i][k].tile(), tile));
        }
    }
    if archive::tiles_of(plan).contains(tile) {
        let j = choose|j: int|
            0 <= j < archive::tiles_of(plan).len() && archive::tiles_of(plan)[j] == tile;
        let step = plan[j];
        assert(plan.contains(step));
        lemma_plan_contains(names, filled, min_z, step);
        let i = choose|i: int|
            0 <= i < names.len() && archive::zoom_steps(
                archive::by_id(
                    archive::staged((min_z + i) as u8, #[trigger] archive::names_at(names, i)),
                ),
                archive::fills_at(filled, (min_z + i) as u8),
            ).contains(step);
        let z = (min_z + i) as u8;
        let here = archive::names_at(names, i);
        archive::law_zoom_steps_exact(z, here, filled, step);
        lemma_staged_tiles(z, here);
        if archive::staged(z, here).contains(step) {
            let m = choose|m: int|
                0 <= m < archive::staged(z, here).len() && archive::staged(z, here)[m] == step;
            assert(archive::tiles_of(archive::staged(z, here))[m] == tile);
            assert(spool::tiles_named(here).contains(tile));
            let k = choose|k: int|
                0 <= k < history[i].len() && with_data(#[trigger] history[i][k])
                    && history[i][k].tile() == tile;
            assert(with_data(history[i][k]) && history[i][k].tile() == tile);
            assert(made(history, tile));
        } else {
            let m = choose|m: int| 0 <= m < filled.len() && filled[m] == step;
            assert(archive::tiles_of(filled)[m] == tile);
            assert(archive::tiles_of(filled).contains(tile));
        }
    }
    if made(history, tile) {
        let (i, k) = choose|i: int, k: int|
            0 <= i < history.len() && 0 <= k < history[i].len() && with_data(
                #[trigger] history[i][k],
            ) && history[i][k].tile() == tile;
        let z = (min_z + i) as u8;
        let here = archive::names_at(names, i);
        assert(spool::tiles_named(here).contains(tile));
        lemma_staged_tiles(z, here);
        let all = archive::staged(z, here);
        let m = choose|m: int|
            0 <= m < archive::tiles_of(all).len() && archive::tiles_of(all)[m] == tile;
        let step = all[m];
        assert(all.contains(step));
        lemma_step_in_plan(names, filled, min_z, i, step);
    } else if colored(history, tile) {
        let m = choose|m: int|
            0 <= m < archive::tiles_of(filled).len() && archive::tiles_of(filled)[m] == tile;
        let step = filled[m];
        assert(filled.contains(step));
        let i = tile.z - min_z;
        let here = archive::names_at(names, i);
        lemma_staged_tiles(tile.z, here);
        lemma_unstaged_key(history, names, bounds, min_z, max_z, tile);
        lemma_step_in_plan(names, filled, min_z, i, step);
    }
}

/// A staged step comes from a file of its directory that is named after its tile.
proof fn lemma_staged_source(zoom: u8, names: Seq<Seq<char>>, step: BuildStep)
    requires
        names.len() <= usize::MAX,
        archive::staged(zoom, names).contains(step),
    ensures
        step.source matches TileSource::File { zoom: z, index } && z == zoom && index < names.len()
            && frontier::parsed_filename(names[index as int]) == Some(step.tile),
    decreases names.len(),
{
    let all = archive::staged(zoom, names);
    if names.len() > 0 {
        let less = names.drop_last();
        let head = archive::staged(zoom, less);
        let i = choose|i: int| 0 <= i < all.len() && all[i] == step;
        if i < head.len() {
            assert(head[i] == step);
            lemma_staged_source(zoom, less, step);
        }
    }
}

/// An ancestor of an ancestor is an ancestor.
pub proof fn lemma_above_chain(upper: TileJob, lower: TileJob, tile: TileJob)
    requires
        pyramid::above(upper, tile),
        pyramid::above(lower, tile),
        upper.z < lower.z,
    ensures
        pyramid::above(upper, lower),
{
    let a = (tile.z - lower.z) as nat;
    let b = (lower.z - upper.z) as nat;
    lemma_pow2_pos(a);
    lemma_pow2_pos(b);
    lemma_pow2_adds(a, b);
    lemma_div_denominator(tile.x as int, pow2(a) as int, pow2(b) as int);
    lemma_div_denominator(tile.y as int, pow2(a) as int, pow2(b) as int);
    assert(a + b == (tile.z - upper.z) as nat);
}

/// The tile of an event is of the zoom of its frontier and within bounds.
pub proof fn lemma_history_tile(
    history: Seq<Seq<TileEvent>>,
    bounds: Seq<TileBounds>,
    min_z: u8,
    max_z: u8,
    i: int,
    k: int,
)
    requires
        pyramid::pyramid(bounds, min_z, max_z),
        generation::is_history(history, bounds, min_z, max_z),
        0 <= i < history.len(),
        0 <= k < history[i].len(),
    ensures
        history[i][k].tile().z == min_z + i,
        frontier::in_bounds(bounds, history[i][k].tile()),
        forall|m: int|
            0 <= m < history[i].len() && (#[trigger] history[i][m]).tile() == history[i][k].tile()
                ==> m == k,
{
    lemma_frontier_at_ok(history, bounds, min_z, max_z, i);
    let tiles = generation::frontier_at(history, bounds, min_z, max_z, i);
    assert(generation::covers(history[i], tiles));
    lemma_event_tile_ok(history[i], tiles, bounds, min_z + i, k);
    lemma_covers_one(history[i], tiles, history[i][k].tile());
}

/// A tile stands below one tile at most that answered for it.
pub proof fn law_one_tile_answers(
    history: Seq<Seq<TileEvent>>,
    bounds: Seq<TileBounds>,
    min_z: u8,
    max_z: u8,
    tile: TileJob,
    a: int,
    k: int,
    b: int,
    m: int,
)
    requires
        pyramid::pyramid(bounds, min_z, max_z),
        generation::is_history(history, bounds, min_z, max_z),
        history.len() == max_z - min_z + 1,
        0 <= a < history.len() && 0 <= k < history[a].len(),
        0 <= b < history.len() && 0 <= m < history[b].len(),
        answers(history[a][k]) && pyramid::above(history[a][k].tile(), tile),
        answers(history[b][m]) && pyramid::above(history[b][m].tile(), tile),
    ensures
        a == b && k == m,
{
    lemma_history_tile(history, bounds, min_z, max_z, a, k);
    lemma_history_tile(history, bounds, min_z, max_z, b, m);
    let p = history[a][k];
    let q = history[b][m];
    lemma_above_is_ancestor(p.tile(), tile);
    lemma_above_is_ancestor(q.tile(), tile);
    if a == b {
        assert(p.tile() == q.tile());
    } else {
        let (i, j, up, low) = if a < b {
            (a, k, p, q)
        } else {
            (b, m, q, p)
        };
        lemma_above_chain(up.tile(), low.tile(), tile);
        law_every_candidate_once(history, bounds, min_z, max_z, low.tile());
        assert(history[i][j] == up);
        assert(answers(history[i][j]) && pyramid::above(history[i][j].tile(), low.tile()));
        assert(answered(history, low.tile(), history.len() as int));
        if a < b {
            assert(history[b][m].tile() == low.tile());
        } else {
            assert(history[a][k].tile() == low.tile());
        }
        assert(visited(history, low.tile()));
        assert(false);
    }
}

/// A tile stands below uniform tiles of one colour at most.
proof fn lemma_one_color(
    history: Seq<Seq<TileEvent>>,
    bounds: Seq<TileBounds>,
    min_z: u8,
    max_z: u8,
    tile: TileJob,
    first: [u8; 3],
    second: [u8; 3],
)
    requires
        pyramid::pyramid(bounds, min_z, max_z),
        generation::is_history(history, bounds, min_z, max_z),
        history.len() == max_z - min_z + 1,
        colored_in(history, tile, first),
        colored_in(history, tile, second),
    ensures
        first == second,
{
    let (a, k) = choose|i: int, k: int|
        0 <= i < history.len() && 0 <= k < history[i].len() && color_given(
            #[trigger] history[i][k],
        ) == Some(first) && pyramid::above(history[i][k].tile(), tile);
    let (b, m) = choose|i: int, k: int|
        0 <= i < history.len() && 0 <= k < history[i].len() && color_given(
            #[trigger] history[i][k],
        ) == Some(second) && pyramid::above(history[i][k].tile(), tile);
    law_one_tile_answers(history, bounds, min_z, max_z, tile, a, k, b, m);
}

/// A tile that was made stands below no uniform tile.
proof fn lemma_made_not_colored(
    history: Seq<Seq<TileEvent>>,
    bounds: Seq<TileBounds>,
    min_z: u8,
    max_z: u8,
    tile: TileJob,
    color: [u8; 3],
)
    requires
        pyramid::pyramid(bounds, min_z, max_z),
        generation::is_history(history, bounds, min_z, max_z),
        history.len() == max_z - min_z + 1,
        frontier::in_bounds(bounds, tile),
        made(history, tile),
    ensures
        !colored_in(history, tile, color),
{
    law_every_candidate_once(history, bounds, min_z, max_z, tile);
    let (i, k) = choose|i: int, k: int|
        0 <= i < history.len() && 0 <= k < history[i].len() && with_data(#[trigger] history[i][k])
            && history[i][k].tile() == tile;
    assert(history[i][k].tile() == tile);
    assert(visited(history, tile));
    if colored_in(history, tile, color) {
        let (a, m) = choose|i: int, k: int|
            0 <= i < history.len() && 0 <= k < history[i].len() && color_given(
                #[trigger] history[i][k],
            ) == Some(color) && pyramid::above(history[i][k].tile(), tile);
        assert(answers(history[a][m]) && pyramid::above(history[a][m].tile(), tile));
        assert(answered(history, tile, history.len() as int));
    }
}

/// The step of a tile comes from its own file, or from the colour of the uniform tile above it.
proof fn lemma_source_holds(
    history: Seq<Seq<TileEvent>>,
    names: Seq<Vec<String>>,
    fills: Seq<UniformFill>,
    bounds: Seq<TileBounds>,
    min_z: u8,
    max_z: u8,
    step: BuildStep,
)
    requires
        pyramid::pyramid(bounds, min_z, max_z),
        frontier::keys_fit(bounds),
        generation::is_history(history, bounds, min_z, max_z),
        history.len() == max_z - min_z + 1,
        directories_hold(names, history),
        rules_hold(fills, history, bounds, max_z),
        frontier::in_bounds(bounds, step.tile),
        archive::plan_steps(
            names,
            archive::filled_tiles(fills, bounds, max_z),
            min_z,
        ).contains(step),
    ensures
        source_holds(step, history, names, min_z),
{
    let tile = step.tile;
    let filled = archive::filled_tiles(fills, bounds, max_z);
    generation::lemma_in_bounds_fits(tile, bounds, min_z, max_z);
    lemma_plan_contains(names, filled, min_z, step);
    let i = choose|i: int|
        0 <= i < names.len() && archive::zoom_steps(
            archive::by_id(
                archive::staged((min_z + i) as u8, #[trigger] archive::names_at(names, i)),
            ),
            archive::fills_at(filled, (min_z + i) as u8),
        ).contains(step);
    let z = (min_z + i) as u8;
    let here = archive::names_at(names, i);
    archive::law_zoom_steps_exact(z, here, filled, step);
    lemma_staged_tiles(z, here);
    if archive::staged(z, here).contains(step) {
        assert(names[i].len() == names[i]@.len());
        lemma_staged_source(z, here, step);
        let all = archive::staged(z, here);
        let m = choose|m: int| 0 <= m < all.len() && all[m] == step;
        assert(archive::tiles_of(all)[m] == tile);
        assert(spool::tiles_named(here).contains(tile));
        let k = choose|k: int|
            0 <= k < history[i].len() && with_data(#[trigger] history[i][k])
                && history[i][k].tile() == tile;
        lemma_history_tile(history, bounds, min_z, max_z, i, k);
        assert(with_data(history[i][k]) && history[i][k].tile() == tile);
        assert(made(history, tile));
        assert forall|color: [u8; 3]| #[trigger]
            colored_in(history, tile, color) implies step.source == (TileSource::Color {
            color,
        }) by {
            lemma_made_not_colored(history, bounds, min_z, max_z, tile, color);
        }
    } else {
        archive::law_filled_tiles_exact(fills, bounds, max_z);
        lemma_first_rule(fills, tile);
        let m = choose|m: int| 0 <= m < filled.len() && filled[m] == step;
        assert(archive::tiles_of(filled)[m] == tile);
        assert(archive::tiles_of(filled).contains(tile));
        let f = archive::first_rule(fills, tile) as int;
        assert(f < fills.len());
        let color = fills[f].color;
        assert(step == archive::step_for(tile, TileSource::Color { color }));
        assert(rule_holds(fills[f], history));
        let (a, k) = choose|i: int, k: int|
            0 <= i < history.len() && 0 <= k < history[i].len() && color_given(
                #[trigger] history[i][k],
            ) == Some(color) && history[i][k].tile() == fills[f].root;
        assert(color_given(history[a][k]) == Some(color) && pyramid::above(
            history[a][k].tile(),
            tile,
        ));
        assert(colored_in(history, tile, color));
        if made(history, tile) {
            lemma_made_not_colored(history, bounds, min_z, max_z, tile, color);
        }
        assert forall|other: [u8; 3]| #[trigger]
            colored_in(history, tile, other) implies step.source == (TileSource::Color {
            color: other,
        }) by {
            lemma_one_color(history, bounds, min_z, max_z, tile, color, other);
        }
    }
}

/// A step of one zoom is a step of the archive.
proof fn lemma_step_in_plan(
    names: Seq<Vec<String>>,
    filled: Seq<BuildStep>,
    min_z: u8,
    i: int,
    step: BuildStep,
)
    requires
        min_z + names.len() <= 256,
        0 <= i < names.len(),
        ({
            let z = (min_z + i) as u8;
            let here = archive::names_at(names, i);
            ||| archive::staged(z, here).contains(step)
            ||| {
                &&& filled.contains(step)
                &&& step.tile.z == z
                &&& !crate::pipeline::keys_of(
                    archive::tiles_of(archive::staged(z, here)),
                ).contains(frontier::key_of(step.tile))
            }
        }),
    ensures
        archive::tiles_of(archive::plan_steps(names, filled, min_z)).contains(step.tile),
{
    let z = (min_z + i) as u8;
    let here = archive::names_at(names, i);
    archive::law_zoom_steps_exact(z, here, filled, step);
    lemma_plan_contains(names, filled, min_z, step);
    let plan = archive::plan_steps(names, filled, min_z);
    assert(plan.contains(step));
    let j = choose|j: int| 0 <= j < plan.len() && plan[j] == step;
    assert(archive::tiles_of(plan)[j] == step.tile);
}

/// The key of a tile that was not made is not that of a staged tile.
proof fn lemma_unstaged_key(
    history: Seq<Seq<TileEvent>>,
    names: Seq<Vec<String>>,
    bounds: Seq<TileBounds>,
    min_z: u8,
    max_z: u8,
    tile: TileJob,
)
    requires
        pyramid::pyramid(bounds, min_z, max_z),
        frontier::keys_fit(bounds),
        generation::is_history(history, bounds, min_z, max_z),
        history.len() == max_z - min_z + 1,
        directories_hold(names, history),
        frontier::in_bounds(bounds, tile),
        min_z <= tile.z <= max_z,
        !made(history, tile),
    ensures
        !crate::pipeline::keys_of(
            spool::tiles_named(archive::names_at(names, tile.z - min_z)),
        ).contains(frontier::key_of(tile)),
{
    let i = tile.z - min_z;
    let there = spool::tiles_named(archive::names_at(names, i));
    let key = frontier::key_of(tile);
    if crate::pipeline::keys_of(there).contains(key) {
        let m = choose|m: int| 0 <= m < there.len() && frontier::key_of(#[trigger] there[m]) == key;
        let other = there[m];
        assert(there.contains(other));
        let k = choose|k: int|
            0 <= k < history[i].len() && with_data(#[trigger] history[i][k])
                && history[i][k].tile() == other;
        lemma_frontier_at_ok(history, bounds, min_z, max_z, i);
        let tiles = generation::frontier_at(history, bounds, min_z, max_z, i);
        assert(generation::covers(history[i], tiles));
        lemma_event_tile_ok(history[i], tiles, bounds, min_z + i, k);
        archive::lemma_of_run_key_fits(bounds, max_z, tile);
        archive::lemma_of_run_key_fits(bounds, max_z, other);
        frontier::law_tile_key_injective(tile, other);
        assert(with_data(history[i][k]) && history[i][k].tile() == tile);
    }
}

/// What is appended below a tile are its four children, one zoom deeper, as far as the bounds of
/// that zoom have them, row by row from the left; none below the last zoom. What was there before
/// stays.
pub proof fn law_appended_are_the_children(
    tile: TileJob,
    next: &mut Vec<TileJob>,
    max_z: u8,
    bounds: &[TileBounds],
    level: Option<TileBounds>,
    child: TileJob,
)
    requires
        frontier::children_fit(tile, max_z, bounds@),
        call_ensures(frontier::append_children_in_bounds, (tile, next, max_z, bounds), ()),
        call_ensures(frontier::find_bounds, (bounds, child.z), level),
    ensures
        ({
            let n = old(next)@.len() as int;
            let kids = final(next)@.skip(n);
            &&& final(next)@.len() >= n
            &&& final(next)@.take(n) == old(next)@
            &&& kids.contains(child) <==> {
                &&& tile.z < max_z
                &&& child.z == tile.z + 1
                &&& child.x == 2 * tile.x || child.x == 2 * tile.x + 1
                &&& child.y == 2 * tile.y || child.y == 2 * tile.y + 1
                &&& level matches Some(b) && b.x0 <= child.x && child.x <= b.x1 && b.y0 <= child.y
                    && child.y <= b.y1
            }
            &&& forall|i: int, j: int|
                0 <= i < j < kids.len() ==> {
                    let a = #[trigger] kids[i];
                    let b = #[trigger] kids[j];
                    a.y < b.y || (a.y == b.y && a.x < b.x)
                }
        }),
{
    let n = old(next)@.len() as int;
    let kids = frontier::children_in_bounds(tile, max_z, bounds@);
    assert(final(next)@.skip(n) =~= kids);
    assert(final(next)@.take(n) =~= old(next)@);
    lemma_children_exact(tile, bounds@, max_z, child);
    frontier::law_within_what_is_found(bounds, child, level);
    if tile.z < max_z {
        let keep = |child: TileJob| frontier::in_bounds(bounds@, child);
        frontier::lemma_filter_four(frontier::children(tile), keep);
        if frontier::bounds_at(bounds@, (tile.z + 1) as u8) is None {
            assert(kids =~= seq![]);
        }
    }
}

} // verus!
