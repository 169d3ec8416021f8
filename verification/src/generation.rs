//! What each tile does to a run: to its tally, to its progress and to the frontier of the next
//! zoom; and what adds up over a zoom and over the run.

use vstd::prelude::*;

use crate::frontier;
use crate::frontier::{TileBounds, TileJob};
use crate::pipeline::{TileOutcome, TileStats};
use crate::pyramid;

verus! {

/// What one tile adds to a run.
#[verifier::ext_equal]
pub struct Effect {
    pub written: nat,
    pub empty: nat,
    pub errors: nat,
    pub restored: nat,
    pub pruned: nat,
    pub filled: nat,
    pub advance: nat,
    pub children: Seq<TileJob>,
}

/// A tile with data is written and goes on to its children. A uniform one stands for all its
/// descendants instead.
pub open spec fn data_effect(
    tile: TileJob,
    uniform: bool,
    bounds: Seq<TileBounds>,
    max_z: u8,
) -> Effect {
    let below = frontier::descendant_count(tile, bounds, max_z);
    if uniform {
        Effect {
            written: 1 + below,
            empty: 0,
            errors: 0,
            restored: 0,
            pruned: 0,
            filled: below,
            advance: 1 + below,
            children: seq![],
        }
    } else {
        Effect {
            written: 1,
            empty: 0,
            errors: 0,
            restored: 0,
            pruned: 0,
            filled: 0,
            advance: 1,
            children: frontier::children_in_bounds(tile, max_z, bounds),
        }
    }
}

/// An empty tile rules out all its descendants.
pub open spec fn empty_effect(tile: TileJob, bounds: Seq<TileBounds>, max_z: u8) -> Effect {
    let below = frontier::descendant_count(tile, bounds, max_z);
    Effect {
        written: 0,
        empty: 1,
        errors: 0,
        restored: 0,
        pruned: below,
        filled: 0,
        advance: 1 + below,
        children: seq![],
    }
}

/// A tile that failed counts for itself alone.
pub open spec fn error_effect() -> Effect {
    Effect {
        written: 0,
        empty: 0,
        errors: 1,
        restored: 0,
        pruned: 0,
        filled: 0,
        advance: 1,
        children: seq![],
    }
}

/// What an outcome adds to a run.
pub open spec fn outcome_effect(
    outcome: TileOutcome,
    bounds: Seq<TileBounds>,
    max_z: u8,
) -> Effect {
    match outcome {
        TileOutcome::Data { coord, uniform_color, .. } => data_effect(
            coord,
            uniform_color is Some,
            bounds,
            max_z,
        ),
        TileOutcome::Empty { coord } => empty_effect(coord, bounds, max_z),
        TileOutcome::Error { .. } => error_effect(),
    }
}

/// What a tile adds that an earlier run had left: as much as when it was made.
pub open spec fn restored_effect(
    tile: TileJob,
    uniform: bool,
    bounds: Seq<TileBounds>,
    max_z: u8,
) -> Effect {
    Effect { restored: 1, ..data_effect(tile, uniform, bounds, max_z) }
}

/// A tally after one more tile.
pub open spec fn counted(stats: TileStats, e: Effect) -> TileStats {
    TileStats {
        checked: (stats.checked + 1) as u64,
        written: (stats.written + e.written) as u64,
        empty: (stats.empty + e.empty) as u64,
        errors: (stats.errors + e.errors) as u64,
        restored: (stats.restored + e.restored) as u64,
        pruned: (stats.pruned + e.pruned) as u64,
        filled: (stats.filled + e.filled) as u64,
    }
}

/// Whether the counters of a tally agree: each tile looked at is written, empty or failed, and
/// whatever else is written was filled.
pub open spec fn balanced(stats: TileStats) -> bool {
    stats.written + stats.empty + stats.errors == stats.checked + stats.filled
}

/// How many candidate tiles a tally accounts for.
pub open spec fn accounted(stats: TileStats) -> int {
    stats.checked + stats.pruned + stats.filled
}

/// What happens to one tile of a frontier.
pub enum TileEvent {
    /// It was processed.
    Settled { outcome: TileOutcome },
    /// It was left by an earlier run, with a fill rule in this colour if it is uniform.
    Restored { coord: TileJob, uniform_color: Option<[u8; 3]> },
}

impl TileEvent {
    /// The tile.
    pub open spec fn tile(self) -> TileJob {
        match self {
            TileEvent::Settled { outcome } => outcome.tile(),
            TileEvent::Restored { coord, .. } => coord,
        }
    }

    /// What it adds to the run.
    pub open spec fn effect(self, bounds: Seq<TileBounds>, max_z: u8) -> Effect {
        match self {
            TileEvent::Settled { outcome } => outcome_effect(outcome, bounds, max_z),
            TileEvent::Restored { coord, uniform_color } => restored_effect(
                coord,
                uniform_color is Some,
                bounds,
                max_z,
            ),
        }
    }

    /// Whether the tile failed.
    pub open spec fn failed(self) -> bool {
        self matches TileEvent::Settled { outcome: TileOutcome::Error { .. } }
    }

    /// The descendants that a failed tile leaves unvisited.
    pub open spec fn lost(self, bounds: Seq<TileBounds>, max_z: u8) -> nat {
        if self.failed() {
            frontier::descendant_count(self.tile(), bounds, max_z)
        } else {
            0
        }
    }
}

/// One more tile keeps a tally in agreement, and accounts for as much as it advances the progress.
pub proof fn law_tally_stays_balanced(
    stats: TileStats,
    event: TileEvent,
    bounds: Seq<TileBounds>,
    max_z: u8,
)
    requires
        stats.has_room(),
        frontier::depth_fits(event.tile(), bounds, max_z),
        balanced(stats),
    ensures
        balanced(counted(stats, event.effect(bounds, max_z))),
        accounted(counted(stats, event.effect(bounds, max_z))) == accounted(stats) + event.effect(
            bounds,
            max_z,
        ).advance,
{
    lemma_below_fits(event.tile(), bounds, max_z);
}

/// What lies below a tile can be counted.
pub proof fn lemma_below_fits(tile: TileJob, bounds: Seq<TileBounds>, max_z: u8)
    requires
        frontier::depth_fits(tile, bounds, max_z),
    ensures
        frontier::descendant_count(tile, bounds, max_z) <= 0x8000_0000_0000_0000,
{
    if tile.z <= max_z {
        frontier::lemma_descendants_to_len(tile, bounds, max_z, max_z as int);
    }
}

/// What a tile accounts for, what its children stand for and what it loses are together the tile
/// and everything below it. So an empty or a uniform tile advances the progress by itself and all
/// its descendants at once, and a restored tile by what it advanced it when it was made.
pub proof fn law_event_conserves(
    event: TileEvent,
    bounds: Seq<TileBounds>,
    min_z: u8,
    max_z: u8,
)
    requires
        pyramid::pyramid(bounds, min_z, max_z),
        min_z <= event.tile().z,
        frontier::children_fit(event.tile(), max_z, bounds),
    ensures
        event.effect(bounds, max_z).advance + pyramid::total_weight(
            event.effect(bounds, max_z).children,
            bounds,
            max_z,
        ) + event.lost(bounds, max_z) == pyramid::weight(event.tile(), bounds, max_z),
{
    pyramid::law_children_share_descendants(event.tile(), bounds, min_z, max_z);
}

/// What some events advance the progress by.
pub open spec fn advance_of(events: Seq<TileEvent>, bounds: Seq<TileBounds>, max_z: u8) -> nat
    decreases events.len(),
{
    if events.len() == 0 {
        0
    } else {
        advance_of(events.drop_last(), bounds, max_z) + events.last().effect(bounds, max_z).advance
    }
}

/// The frontier that some events leave for the next zoom.
pub open spec fn children_of(events: Seq<TileEvent>, bounds: Seq<TileBounds>, max_z: u8) -> Seq<
    TileJob,
>
    decreases events.len(),
{
    if events.len() == 0 {
        seq![]
    } else {
        children_of(events.drop_last(), bounds, max_z) + events.last().effect(
            bounds,
            max_z,
        ).children
    }
}

/// What some events lose.
pub open spec fn lost_of(events: Seq<TileEvent>, bounds: Seq<TileBounds>, max_z: u8) -> nat
    decreases events.len(),
{
    if events.len() == 0 {
        0
    } else {
        lost_of(events.drop_last(), bounds, max_z) + events.last().lost(bounds, max_z)
    }
}

/// The tiles of some events.
pub open spec fn tiles_of(events: Seq<TileEvent>) -> Seq<TileJob> {
    Seq::new(events.len(), |i: int| events[i].tile())
}

/// Whether some tiles are those of a zoom within its bounds, none twice.
pub open spec fn frontier_ok(tiles: Seq<TileJob>, bounds: Seq<TileBounds>, z: int) -> bool {
    &&& tiles.no_duplicates()
    &&& forall|i: int|
        0 <= i < tiles.len() ==> (#[trigger] tiles[i]).z == z && frontier::in_bounds(
            bounds,
            tiles[i],
        )
}

/// In a pyramid the children of a tile within bounds fit.
pub proof fn lemma_in_bounds_fits(
    tile: TileJob,
    bounds: Seq<TileBounds>,
    min_z: u8,
    max_z: u8,
)
    requires
        pyramid::pyramid(bounds, min_z, max_z),
        frontier::in_bounds(bounds, tile),
    ensures
        min_z <= tile.z <= max_z,
        frontier::children_fit(tile, max_z, bounds),
        frontier::depth_fits(tile, bounds, max_z),
        crate::tile_id::exists_tile(tile),
{
    pyramid::lemma_pyramid_at(bounds, min_z, max_z, tile.z);
    let b = bounds[tile.z - min_z];
    assert(pyramid::proper(b));
    if tile.z < max_z {
        vstd::arithmetic::power2::lemma_pow2_strictly_increases(tile.z as nat, 31);
        vstd::arithmetic::power2::lemma2_to64();
    }
}

/// The children of a tile that a run visits: of the next zoom, within its bounds, none twice, and
/// each half as far from the origin as its parent says.
pub proof fn lemma_children(tile: TileJob, bounds: Seq<TileBounds>, max_z: u8)
    requires
        frontier::children_fit(tile, max_z, bounds),
    ensures
        frontier_ok(
            frontier::children_in_bounds(tile, max_z, bounds),
            bounds,
            tile.z + 1,
        ),
        forall|i: int|
            0 <= i < frontier::children_in_bounds(tile, max_z, bounds).len() ==> (
            #[trigger] frontier::children_in_bounds(tile, max_z, bounds)[i]).x / 2 == tile.x
                && frontier::children_in_bounds(tile, max_z, bounds)[i].y / 2 == tile.y,
        forall|child: TileJob|
            #![trigger frontier::children_in_bounds(tile, max_z, bounds).contains(child)]
            frontier::children_in_bounds(tile, max_z, bounds).contains(child) ==> child.x / 2
                == tile.x && child.y / 2 == tile.y,
{
    if tile.z < max_z {
        let keep = |child: TileJob| frontier::in_bounds(bounds, child);
        frontier::lemma_filter_four(frontier::children(tile), keep);
        if frontier::bounds_at(bounds, (tile.z + 1) as u8) is Some {
            let c = frontier::children(tile);
            assert(c[0] != c[1] && c[0] != c[2] && c[0] != c[3] && c[1] != c[2] && c[1] != c[3]
                && c[2] != c[3]);
        }
    }
}

/// The frontier of the next zoom is one of that zoom, within its bounds, with no tile twice.
pub proof fn law_next_frontier_ok(
    events: Seq<TileEvent>,
    bounds: Seq<TileBounds>,
    min_z: u8,
    max_z: u8,
    z: int,
)
    requires
        pyramid::pyramid(bounds, min_z, max_z),
        frontier_ok(tiles_of(events), bounds, z),
    ensures
        frontier_ok(children_of(events, bounds, max_z), bounds, z + 1),
{
    lemma_next_frontier(events, bounds, min_z, max_z, z);
}

proof fn lemma_next_frontier(
    events: Seq<TileEvent>,
    bounds: Seq<TileBounds>,
    min_z: u8,
    max_z: u8,
    z: int,
)
    requires
        pyramid::pyramid(bounds, min_z, max_z),
        frontier_ok(tiles_of(events), bounds, z),
    ensures
        frontier_ok(children_of(events, bounds, max_z), bounds, z + 1),
        forall|i: int|
            0 <= i < children_of(events, bounds, max_z).len() ==> exists|k: int|
                0 <= k < events.len() && (#[trigger] children_of(events, bounds, max_z)[i]).x / 2
                    == (#[trigger] events[k]).tile().x && children_of(events, bounds, max_z)[i].y
                    / 2 == events[k].tile().y,
    decreases events.len(),
{
    if events.len() > 0 {
        let less = events.drop_last();
        let last = events.last();
        let tiles = tiles_of(events);
        assert(tiles_of(less) =~= tiles.drop_last());
        assert forall|i: int| 0 <= i < tiles_of(less).len() implies (
        #[trigger] tiles_of(less)[i]).z == z && frontier::in_bounds(
            bounds,
            tiles_of(less)[i],
        ) by {
            assert(tiles[i] == tiles_of(less)[i]);
        }
        lemma_next_frontier(less, bounds, min_z, max_z, z);
        assert(tiles[tiles.len() - 1] == last.tile());
        lemma_in_bounds_fits(last.tile(), bounds, min_z, max_z);
        lemma_children(last.tile(), bounds, max_z);
        let head = children_of(less, bounds, max_z);
        let kids = last.effect(bounds, max_z).children;
        let all = children_of(events, bounds, max_z);
        assert(all =~= head + kids);
        assert(kids =~= seq![] || kids == frontier::children_in_bounds(
            last.tile(),
            max_z,
            bounds,
        ));
        assert forall|i: int| 0 <= i < all.len() implies exists|k: int|
            0 <= k < events.len() && (#[trigger] all[i]).x / 2 == (
            #[trigger] events[k]).tile().x && all[i].y / 2 == events[k].tile().y by {
            if i < head.len() {
                assert(all[i] == head[i]);
                let k = choose|k: int|
                    0 <= k < less.len() && head[i].x / 2 == (#[trigger] less[k]).tile().x
                        && head[i].y / 2 == less[k].tile().y;
                assert(events[k] == less[k]);
            } else {
                assert(all[i] == kids[i - head.len()]);
                assert(events[events.len() - 1] == last);
            }
        }
        assert forall|i: int, j: int|
            0 <= i < all.len() && 0 <= j < all.len() && i != j implies all[i] != all[j] by {
            if i < head.len() && j < head.len() {
                assert(head[i] != head[j]);
            } else if i >= head.len() && j >= head.len() {
                assert(kids[i - head.len()] != kids[j - head.len()]);
            } else {
                let (p, q) = if i < head.len() {
                    (i, j)
                } else {
                    (j, i)
                };
                assert(all[p] == head[p]);
                assert(all[q] == kids[q - head.len()]);
                let k = choose|k: int|
                    0 <= k < less.len() && head[p].x / 2 == (#[trigger] less[k]).tile().x
                        && head[p].y / 2 == less[k].tile().y;
                assert(tiles[k] == less[k].tile());
                assert(tiles[k] != tiles[tiles.len() - 1]);
            }
        }
    }
}

/// The weight of some tiles does not depend on their order.
proof fn lemma_weight_permutes(
    a: Seq<TileJob>,
    b: Seq<TileJob>,
    bounds: Seq<TileBounds>,
    max_z: u8,
)
    requires
        a.to_multiset() == b.to_multiset(),
    ensures
        pyramid::total_weight(a, bounds, max_z) == pyramid::total_weight(b, bounds, max_z),
    decreases a.len(),
{
    a.to_multiset_ensures();
    b.to_multiset_ensures();
    assert(a.len() == b.len());
    if a.len() > 0 {
        let x = a.last();
        assert(a.contains(a[a.len() - 1]));
        assert(a.to_multiset().count(x) > 0);
        assert(b.contains(x));
        let k = choose|k: int| 0 <= k < b.len() && b[k] == x;
        let a1 = a.drop_last();
        let b1 = b.remove(k);
        assert(a.remove(a.len() - 1) =~= a1);
        assert(a1.to_multiset() =~= a.to_multiset().remove(x));
        assert(b1.to_multiset() =~= b.to_multiset().remove(x));
        lemma_weight_permutes(a1, b1, bounds, max_z);
        let front = b.take(k);
        let back = b.skip(k + 1);
        assert(b1 =~= front + back);
        assert(b =~= front + seq![x] + back);
        pyramid::lemma_total_weight_add(front, back, bounds, max_z);
        pyramid::lemma_total_weight_add(front, seq![x], bounds, max_z);
        pyramid::lemma_total_weight_add(front + seq![x], back, bounds, max_z);
        pyramid::lemma_total_weight_one(x, bounds, max_z);
    }
}

proof fn lemma_events_conserve(
    events: Seq<TileEvent>,
    bounds: Seq<TileBounds>,
    min_z: u8,
    max_z: u8,
)
    requires
        pyramid::pyramid(bounds, min_z, max_z),
        forall|i: int|
            0 <= i < events.len() ==> frontier::in_bounds(bounds, (#[trigger] events[i]).tile()),
    ensures
        advance_of(events, bounds, max_z) + pyramid::total_weight(
            children_of(events, bounds, max_z),
            bounds,
            max_z,
        ) + lost_of(events, bounds, max_z) == pyramid::total_weight(
            tiles_of(events),
            bounds,
            max_z,
        ),
    decreases events.len(),
{
    if events.len() > 0 {
        let less = events.drop_last();
        let last = events.last();
        assert forall|i: int| 0 <= i < less.len() implies frontier::in_bounds(
            bounds,
            (#[trigger] less[i]).tile(),
        ) by {
            assert(events[i] == less[i]);
        }
        lemma_events_conserve(less, bounds, min_z, max_z);
        assert(tiles_of(events).drop_last() =~= tiles_of(less));
        assert(events[events.len() - 1] == last);
        lemma_in_bounds_fits(last.tile(), bounds, min_z, max_z);
        law_event_conserves(last, bounds, min_z, max_z);
        pyramid::lemma_total_weight_add(
            children_of(less, bounds, max_z),
            last.effect(bounds, max_z).children,
            bounds,
            max_z,
        );
    }
}

/// Whether each tile of a frontier had its event, in whatever order.
pub open spec fn covers(events: Seq<TileEvent>, tiles: Seq<TileJob>) -> bool {
    tiles_of(events).to_multiset() == tiles.to_multiset()
}

/// In whatever order the tiles of a frontier come back: what they account for, what the next
/// frontier stands for and what failed tiles lose are together what the frontier stood for.
pub proof fn law_zoom_conserves(
    tiles: Seq<TileJob>,
    events: Seq<TileEvent>,
    bounds: Seq<TileBounds>,
    min_z: u8,
    max_z: u8,
    z: int,
)
    requires
        pyramid::pyramid(bounds, min_z, max_z),
        frontier_ok(tiles, bounds, z),
        covers(events, tiles),
    ensures
        advance_of(events, bounds, max_z) + pyramid::total_weight(
            children_of(events, bounds, max_z),
            bounds,
            max_z,
        ) + lost_of(events, bounds, max_z) == pyramid::total_weight(tiles, bounds, max_z),
        frontier_ok(children_of(events, bounds, max_z), bounds, z + 1),
{
    lemma_covers_ok(tiles, events, bounds, z);
    assert forall|i: int| 0 <= i < events.len() implies frontier::in_bounds(
        bounds,
        (#[trigger] events[i]).tile(),
    ) by {
        assert(tiles_of(events)[i] == events[i].tile());
    }
    lemma_events_conserve(events, bounds, min_z, max_z);
    lemma_weight_permutes(tiles_of(events), tiles, bounds, max_z);
    law_next_frontier_ok(events, bounds, min_z, max_z, z);
}

/// Events that cover a frontier are for tiles of that zoom within its bounds, none twice.
proof fn lemma_covers_ok(
    tiles: Seq<TileJob>,
    events: Seq<TileEvent>,
    bounds: Seq<TileBounds>,
    z: int,
)
    requires
        frontier_ok(tiles, bounds, z),
        covers(events, tiles),
    ensures
        frontier_ok(tiles_of(events), bounds, z),
{
    let t = tiles_of(events);
    t.to_multiset_ensures();
    tiles.to_multiset_ensures();
    tiles.lemma_multiset_has_no_duplicates();
    assert(t.to_multiset().len() == t.len());
    assert forall|i: int| 0 <= i < t.len() implies (#[trigger] t[i]).z == z && frontier::in_bounds(
        bounds,
        t[i],
    ) by {
        assert(t.contains(t[i]));
        assert(t.to_multiset().count(t[i]) > 0);
        assert(tiles.contains(t[i]));
        let k = choose|k: int| 0 <= k < tiles.len() && tiles[k] == t[i];
        assert(tiles[k].z == z);
    }
    t.lemma_multiset_has_no_duplicates_conv();
}

/// The frontier of each zoom of a run, from the events of the zooms before.
pub open spec fn frontier_at(
    history: Seq<Seq<TileEvent>>,
    bounds: Seq<TileBounds>,
    min_z: u8,
    max_z: u8,
    i: int,
) -> Seq<TileJob> {
    if i <= 0 {
        pyramid::first_tiles(bounds, min_z)
    } else {
        children_of(history[i - 1], bounds, max_z)
    }
}

/// Whether a history is one of a run: at each zoom every tile of the frontier has its event.
pub open spec fn is_history(
    history: Seq<Seq<TileEvent>>,
    bounds: Seq<TileBounds>,
    min_z: u8,
    max_z: u8,
) -> bool {
    forall|i: int|
        0 <= i < history.len() ==> covers(
            #[trigger] history[i],
            frontier_at(history, bounds, min_z, max_z, i),
        )
}

/// What a history accounts for.
pub open spec fn advance_total(
    history: Seq<Seq<TileEvent>>,
    bounds: Seq<TileBounds>,
    max_z: u8,
) -> nat
    decreases history.len(),
{
    if history.len() == 0 {
        0
    } else {
        advance_total(history.drop_last(), bounds, max_z) + advance_of(
            history.last(),
            bounds,
            max_z,
        )
    }
}

/// What a history loses.
pub open spec fn lost_total(history: Seq<Seq<TileEvent>>, bounds: Seq<TileBounds>, max_z: u8) -> nat
    decreases history.len(),
{
    if history.len() == 0 {
        0
    } else {
        lost_total(history.drop_last(), bounds, max_z) + lost_of(history.last(), bounds, max_z)
    }
}

/// The tiles that a run starts from are those of its first zoom within bounds, none twice.
pub proof fn lemma_first_frontier_ok(bounds: Seq<TileBounds>, min_z: u8, max_z: u8)
    requires
        pyramid::pyramid(bounds, min_z, max_z),
    ensures
        frontier_ok(pyramid::first_tiles(bounds, min_z), bounds, min_z as int),
{
    let b = bounds[0];
    assert(pyramid::proper(b));
    let tiles = pyramid::first_tiles(bounds, min_z);
    pyramid::lemma_grid_no_duplicates(min_z, b.x0 as int, b.x1 as int, b.y0 as int, b.y1 as int);
    pyramid::lemma_pyramid_at(bounds, min_z, max_z, min_z);
    assert forall|i: int| 0 <= i < tiles.len() implies (#[trigger] tiles[i]).z == min_z
        && frontier::in_bounds(bounds, tiles[i]) by {
        assert(tiles.contains(tiles[i]));
        pyramid::lemma_grid_contains(
            min_z,
            b.x0 as int,
            b.x1 as int,
            b.y0 as int,
            b.y1 as int,
            tiles[i],
        );
    }
}

proof fn lemma_history(
    history: Seq<Seq<TileEvent>>,
    bounds: Seq<TileBounds>,
    min_z: u8,
    max_z: u8,
)
    requires
        pyramid::pyramid(bounds, min_z, max_z),
        is_history(history, bounds, min_z, max_z),
    ensures
        advance_total(history, bounds, max_z) + lost_total(history, bounds, max_z)
            + pyramid::total_weight(
            frontier_at(history, bounds, min_z, max_z, history.len() as int),
            bounds,
            max_z,
        ) == pyramid::total_area(bounds),
        frontier_ok(
            frontier_at(history, bounds, min_z, max_z, history.len() as int),
            bounds,
            min_z + history.len(),
        ),
    decreases history.len(),
{
    if history.len() == 0 {
        pyramid::law_first_tiles_weigh_everything(bounds, min_z, max_z);
        lemma_first_frontier_ok(bounds, min_z, max_z);
    } else {
        let less = history.drop_last();
        let n = less.len() as int;
        assert forall|i: int| 0 <= i < less.len() implies covers(
            #[trigger] less[i],
            frontier_at(less, bounds, min_z, max_z, i),
        ) by {
            assert(history[i] == less[i]);
            assert(frontier_at(history, bounds, min_z, max_z, i) == frontier_at(
                less,
                bounds,
                min_z,
                max_z,
                i,
            ));
        }
        lemma_history(less, bounds, min_z, max_z);
        let tiles = frontier_at(less, bounds, min_z, max_z, n);
        assert(frontier_at(history, bounds, min_z, max_z, n) == tiles);
        assert(covers(history[n], tiles));
        law_zoom_conserves(tiles, history[n], bounds, min_z, max_z, min_z + n);
    }
}

/// Whatever order tiles come back in, whatever comes of each and wherever a run was resumed: after
/// its last zoom a run has accounted for every candidate tile, but for those below tiles that
/// failed. Without failures its progress ends exactly at its total.
pub proof fn law_run_accounts_for_everything(
    history: Seq<Seq<TileEvent>>,
    bounds: Seq<TileBounds>,
    min_z: u8,
    max_z: u8,
)
    requires
        pyramid::pyramid(bounds, min_z, max_z),
        is_history(history, bounds, min_z, max_z),
        history.len() == max_z - min_z + 1,
    ensures
        advance_total(history, bounds, max_z) + lost_total(history, bounds, max_z)
            == pyramid::total_area(bounds),
        (forall|i: int, k: int|
            0 <= i < history.len() && 0 <= k < history[i].len() ==> !(
            #[trigger] history[i][k]).failed()) ==> advance_total(history, bounds, max_z)
            == pyramid::total_area(bounds),
{
    lemma_history(history, bounds, min_z, max_z);
    let rest = frontier_at(history, bounds, min_z, max_z, history.len() as int);
    if rest.len() > 0 {
        assert(rest[0].z == max_z + 1);
        pyramid::lemma_pyramid_at(bounds, min_z, max_z, rest[0].z);
        assert(false);
    }
    if forall|i: int, k: int|
        0 <= i < history.len() && 0 <= k < history[i].len() ==> !(
        #[trigger] history[i][k]).failed() {
        lemma_nothing_lost(history, bounds, max_z);
    }
}

proof fn lemma_nothing_lost(history: Seq<Seq<TileEvent>>, bounds: Seq<TileBounds>, max_z: u8)
    requires
        forall|i: int, k: int|
            0 <= i < history.len() && 0 <= k < history[i].len() ==> !(
            #[trigger] history[i][k]).failed(),
    ensures
        lost_total(history, bounds, max_z) == 0,
    decreases history.len(),
{
    if history.len() > 0 {
        let less = history.drop_last();
        assert forall|i: int, k: int| 0 <= i < less.len() && 0 <= k < less[i].len() implies !(
        #[trigger] less[i][k]).failed() by {
            assert(history[i][k] == less[i][k]);
        }
        lemma_nothing_lost(less, bounds, max_z);
        let last = history.last();
        assert forall|k: int| 0 <= k < last.len() implies !(#[trigger] last[k]).failed() by {
            assert(history[history.len() - 1][k] == last[k]);
        }
        lemma_no_event_lost(last, bounds, max_z);
    }
}

proof fn lemma_no_event_lost(events: Seq<TileEvent>, bounds: Seq<TileBounds>, max_z: u8)
    requires
        forall|k: int| 0 <= k < events.len() ==> !(#[trigger] events[k]).failed(),
    ensures
        lost_of(events, bounds, max_z) == 0,
    decreases events.len(),
{
    if events.len() > 0 {
        let less = events.drop_last();
        assert forall|k: int| 0 <= k < less.len() implies !(#[trigger] less[k]).failed() by {
            assert(events[k] == less[k]);
        }
        lemma_no_event_lost(less, bounds, max_z);
    }
}

} // verus!
