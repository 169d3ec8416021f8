//! The tiles of a whole run: how many lie below a tile, how they divide among its children, and
//! how many there are in all.

use vstd::arithmetic::div_mod::*;
use vstd::arithmetic::power2::*;
use vstd::prelude::*;

use crate::frontier;
use crate::frontier::{TileBounds, TileJob};

verus! {

/// Whether `inner` lies below `outer`, which is for the zoom above.
pub open spec fn nested(outer: TileBounds, inner: TileBounds) -> bool {
    &&& 2 * outer.x0 <= inner.x0
    &&& inner.x1 <= 2 * outer.x1 + 1
    &&& 2 * outer.y0 <= inner.y0
    &&& inner.y1 <= 2 * outer.y1 + 1
}

/// Whether bounds are in order and name only tiles that exist at their zoom.
pub open spec fn proper(b: TileBounds) -> bool {
    &&& b.x0 <= b.x1 < pow2(b.z as nat)
    &&& b.y0 <= b.y1 < pow2(b.z as nat)
}

/// The bounds of one area over the zooms of a run: one entry for each zoom, in order, each below
/// the one before.
pub open spec fn pyramid(bounds: Seq<TileBounds>, min_z: u8, max_z: u8) -> bool {
    &&& min_z <= max_z <= 31
    &&& bounds.len() == max_z - min_z + 1
    &&& forall|i: int| 0 <= i < bounds.len() ==> (#[trigger] bounds[i]).z == min_z + i
    &&& forall|i: int| 0 <= i < bounds.len() ==> proper(#[trigger] bounds[i])
    &&& forall|i: int, j: int|
        0 <= i && j == i + 1 && j < bounds.len() ==> nested(
            #[trigger] bounds[i],
            #[trigger] bounds[j],
        )
}

/// Whether the bounds of a run are those of one area over its zooms.
pub fn is_pyramid(bounds: &[TileBounds], min_z: u8, max_z: u8) -> (r: bool)
    ensures
        r == pyramid(bounds@, min_z, max_z),
{
    if min_z > max_z || max_z > 31 || bounds.len() != (max_z - min_z) as usize + 1 {
        return false;
    }
    let mut i: usize = 0;
    while i < bounds.len()
        invariant
            i <= bounds.len(),
            min_z <= max_z <= 31,
            bounds@.len() == max_z - min_z + 1,
            forall|j: int| 0 <= j < i ==> (#[trigger] bounds@[j]).z == min_z + j,
            forall|j: int| 0 <= j < i ==> proper(#[trigger] bounds@[j]),
            forall|j: int, k: int|
                0 <= j && k == j + 1 && k < i ==> nested(
                    #[trigger] bounds@[j],
                    #[trigger] bounds@[k],
                ),
        decreases bounds.len() - i,
    {
        let b = bounds[i];
        if b.z != min_z + i as u8 {
            assert(bounds@[i as int].z != min_z + i);
            return false;
        }
        let side: u64 = 1u64 << b.z as u64;
        proof {
            vstd::bits::lemma_u64_pow2_no_overflow(b.z as nat);
            vstd::bits::lemma_u64_shl_is_mul(1, b.z as u64);
        }
        if b.x0 > b.x1 || b.x1 as u64 >= side || b.y0 > b.y1 || b.y1 as u64 >= side {
            assert(!proper(bounds@[i as int]));
            return false;
        }
        if i > 0 {
            let a = bounds[i - 1];
            if 2 * a.x0 as u64 > b.x0 as u64 || b.x1 as u64 > 2 * a.x1 as u64 + 1 || 2 * a.y0 as u64
                > b.y0 as u64 || b.y1 as u64 > 2 * a.y1 as u64 + 1 {
                assert(!nested(bounds@[i - 1], bounds@[i as int]));
                return false;
            }
        }
        i += 1;
    }
    true
}

/// In a pyramid the bounds of a zoom stand at its distance from the first.
pub proof fn lemma_pyramid_at(bounds: Seq<TileBounds>, min_z: u8, max_z: u8, z: u8)
    requires
        pyramid(bounds, min_z, max_z),
    ensures
        min_z <= z <= max_z ==> frontier::bounds_at(bounds, z) == Some(bounds[z - min_z]),
        !(min_z <= z <= max_z) ==> frontier::bounds_at(bounds, z) is None,
{
    let i = if min_z <= z <= max_z {
        z - min_z
    } else {
        bounds.len() as int
    };
    frontier::lemma_bounds_index(bounds, z, i);
}

/// Keys tell the tiles of a run apart up to zoom 29, whatever its area.
pub proof fn law_keys_fit_to_zoom_29(bounds: Seq<TileBounds>, min_z: u8, max_z: u8)
    requires
        max_z <= 29,
        pyramid(bounds, min_z, max_z),
    ensures
        frontier::keys_fit(bounds),
{
    assert forall|i: int| 0 <= i < bounds.len() implies (#[trigger] bounds[i]).x1 < 0x2000_0000
        && bounds[i].y1 < 0x2000_0000 by {
        assert(proper(bounds[i]));
        assert(bounds[i].z == min_z + i);
        if bounds[i].z < 29 {
            lemma_pow2_strictly_increases(bounds[i].z as nat, 29);
        }
        lemma2_to64();
    }
}

/// Whether `tile` is an ancestor of `other`: the one that covers it at a lesser zoom.
pub open spec fn above(tile: TileJob, other: TileJob) -> bool {
    &&& tile.z < other.z
    &&& other.x as int / pow2((other.z - tile.z) as nat) as int == tile.x
    &&& other.y as int / pow2((other.z - tile.z) as nat) as int == tile.y
}

/// What a rectangle holds.
pub proof fn lemma_grid_contains(z: u8, x0: int, x1: int, y0: int, y1: int, t: TileJob)
    requires
        0 <= x0,
        x1 <= u32::MAX,
        0 <= y0,
        y1 <= u32::MAX,
    ensures
        frontier::grid(z, x0, x1, y0, y1).contains(t) <==> t.z == z && x0 <= t.x <= x1 && y0 <= t.y
            <= y1,
    decreases x1 - x0 + 1,
{
    let all = frontier::grid(z, x0, x1, y0, y1);
    if x0 <= x1 {
        lemma_grid_contains(z, x0, x1 - 1, y0, y1, t);
        let left = frontier::grid(z, x0, x1 - 1, y0, y1);
        let col = frontier::column(z, x1, y0, y1);
        assert(all =~= left + col);
        if all.contains(t) {
            let i = choose|i: int| 0 <= i < all.len() && all[i] == t;
            if i < left.len() {
                assert(left[i] == t);
            } else {
                assert(col[i - left.len()] == t);
            }
        }
        if t.z == z && x0 <= t.x <= x1 && y0 <= t.y <= y1 {
            if t.x < x1 {
                let i = choose|i: int| 0 <= i < left.len() && left[i] == t;
                assert(all[i] == t);
            } else {
                let i = t.y - y0;
                assert(col[i] == t);
                assert(all[left.len() + i] == t);
            }
        }
    }
}

/// No tile stands twice in a rectangle.
pub proof fn lemma_grid_no_duplicates(z: u8, x0: int, x1: int, y0: int, y1: int)
    requires
        0 <= x0,
        x1 <= u32::MAX,
        0 <= y0,
        y1 <= u32::MAX,
    ensures
        frontier::grid(z, x0, x1, y0, y1).no_duplicates(),
    decreases x1 - x0 + 1,
{
    if x0 <= x1 {
        lemma_grid_no_duplicates(z, x0, x1 - 1, y0, y1);
        let all = frontier::grid(z, x0, x1, y0, y1);
        let left = frontier::grid(z, x0, x1 - 1, y0, y1);
        let col = frontier::column(z, x1, y0, y1);
        assert(all =~= left + col);
        assert forall|i: int, j: int|
            0 <= i < all.len() && 0 <= j < all.len() && i != j implies all[i] != all[j] by {
            if i < left.len() {
                lemma_grid_contains(z, x0, x1 - 1, y0, y1, left[i]);
                assert(left.contains(left[i]));
            }
            if j < left.len() {
                lemma_grid_contains(z, x0, x1 - 1, y0, y1, left[j]);
                assert(left.contains(left[j]));
            }
        }
    }
}

/// Dividing by the width of a tile gives its column exactly for the columns below it.
pub proof fn lemma_divides_below(v: int, c: int, scale: int)
    requires
        scale >= 1,
        v >= 0,
    ensures
        v / scale == c <==> c * scale <= v <= (c + 1) * scale - 1,
{
    assert((c + 1) * scale == c * scale + scale) by (nonlinear_arith);
    lemma_fundamental_div_mod(v, scale);
    assert(scale * (v / scale) == (v / scale) * scale) by (nonlinear_arith);
    if c * scale <= v <= (c + 1) * scale - 1 {
        lemma_fundamental_div_mod_converse(v, scale, c, v - c * scale);
    }
}

/// One level of descendants holds the tiles of that zoom that lie below the tile and within the
/// bounds, each once.
pub proof fn lemma_descendants_at(tile: TileJob, bounds: Seq<TileBounds>, z: u8)
    requires
        tile.z < z,
    ensures
        frontier::descendants_at(tile, bounds, z).no_duplicates(),
        forall|d: TileJob|
            #![trigger frontier::descendants_at(tile, bounds, z).contains(d)]
            frontier::descendants_at(tile, bounds, z).contains(d) <==> d.z == z
                && frontier::in_bounds(bounds, d) && above(tile, d),
{
    let scale = pow2((z - tile.z) as nat) as int;
    lemma_pow2_pos((z - tile.z) as nat);
    frontier::lemma_bounds_at(bounds, z);
    if let Some(b) = frontier::bounds_at(bounds, z) {
        let x0 = frontier::first_below(tile.x as int, b.x0 as int, scale);
        let x1 = frontier::last_below(tile.x as int, b.x1 as int, scale);
        let y0 = frontier::first_below(tile.y as int, b.y0 as int, scale);
        let y1 = frontier::last_below(tile.y as int, b.y1 as int, scale);
        lemma_grid_no_duplicates(z, x0, x1, y0, y1);
        assert forall|d: TileJob|
            #![trigger frontier::descendants_at(tile, bounds, z).contains(d)]
            frontier::descendants_at(tile, bounds, z).contains(d) <==> d.z == z
                && frontier::in_bounds(bounds, d) && above(tile, d) by {
            lemma_grid_contains(z, x0, x1, y0, y1, d);
            lemma_divides_below(d.x as int, tile.x as int, scale);
            lemma_divides_below(d.y as int, tile.y as int, scale);
        }
    }
}

proof fn lemma_descendants_to(tile: TileJob, bounds: Seq<TileBounds>, z: int)
    requires
        z <= u8::MAX,
    ensures
        frontier::descendants_to(tile, bounds, z).no_duplicates(),
        forall|d: TileJob|
            #![trigger frontier::descendants_to(tile, bounds, z).contains(d)]
            frontier::descendants_to(tile, bounds, z).contains(d) <==> d.z <= z
                && frontier::in_bounds(bounds, d) && above(tile, d),
    decreases z - tile.z,
{
    let all = frontier::descendants_to(tile, bounds, z);
    if z > tile.z {
        lemma_descendants_to(tile, bounds, z - 1);
        lemma_descendants_at(tile, bounds, z as u8);
        let upper = frontier::descendants_to(tile, bounds, z - 1);
        let level = frontier::descendants_at(tile, bounds, z as u8);
        assert(all =~= upper + level);
        assert forall|i: int, j: int|
            0 <= i < all.len() && 0 <= j < all.len() && i != j implies all[i] != all[j] by {
            if i < upper.len() {
                assert(upper.contains(upper[i]));
            } else {
                assert(level.contains(level[i - upper.len()]));
            }
            if j < upper.len() {
                assert(upper.contains(upper[j]));
            } else {
                assert(level.contains(level[j - upper.len()]));
            }
        }
        assert forall|d: TileJob| #![trigger all.contains(d)]
            all.contains(d) <==> d.z <= z && frontier::in_bounds(bounds, d) && above(tile, d) by {
            if all.contains(d) {
                let i = choose|i: int| 0 <= i < all.len() && all[i] == d;
                if i < upper.len() {
                    assert(upper.contains(upper[i]));
                } else {
                    assert(level.contains(level[i - upper.len()]));
                }
            }
            if d.z <= z && frontier::in_bounds(bounds, d) && above(tile, d) {
                if d.z < z {
                    assert(upper.contains(d));
                    let i = choose|i: int| 0 <= i < upper.len() && upper[i] == d;
                    assert(all[i] == d);
                } else {
                    assert(level.contains(d));
                    let i = choose|i: int| 0 <= i < level.len() && level[i] == d;
                    assert(all[upper.len() + i] == d);
                }
            }
        }
    }
}

/// The descendants of a tile are exactly the tiles down to the last zoom that lie below it and
/// within the bounds of their zoom, each once, and the count is the number of those tiles.
pub proof fn law_descendants_exact(tile: TileJob, bounds: Seq<TileBounds>, max_z: u8)
    ensures
        frontier::descendants(tile, bounds, max_z).no_duplicates(),
        forall|d: TileJob|
            #![trigger frontier::descendants(tile, bounds, max_z).contains(d)]
            frontier::descendants(tile, bounds, max_z).contains(d) <==> d.z <= max_z
                && frontier::in_bounds(bounds, d) && above(tile, d),
        frontier::descendant_count(tile, bounds, max_z) == frontier::descendants(
            tile,
            bounds,
            max_z,
        ).to_set().len(),
{
    lemma_descendants_to(tile, bounds, max_z as int);
    frontier::descendants(tile, bounds, max_z).unique_seq_to_set();
}

/// How many columns (or rows) from `lo` to `hi` lie below `c` when each tile is `scale` wide.
pub open spec fn overlap(c: int, lo: int, hi: int, scale: int) -> nat {
    frontier::span(frontier::first_below(c, lo, scale), frontier::last_below(c, hi, scale))
}

/// A tile that counts itself and its descendants.
pub open spec fn weight(tile: TileJob, bounds: Seq<TileBounds>, max_z: u8) -> nat {
    1 + frontier::descendant_count(tile, bounds, max_z)
}

/// The weights of some tiles, added up.
pub open spec fn total_weight(tiles: Seq<TileJob>, bounds: Seq<TileBounds>, max_z: u8) -> nat
    decreases tiles.len(),
{
    if tiles.len() == 0 {
        0
    } else {
        total_weight(tiles.drop_last(), bounds, max_z) + weight(tiles.last(), bounds, max_z)
    }
}

/// The weight of two lists in a row is the sum of their weights.
pub proof fn lemma_total_weight_add(
    a: Seq<TileJob>,
    b: Seq<TileJob>,
    bounds: Seq<TileBounds>,
    max_z: u8,
)
    ensures
        total_weight(a + b, bounds, max_z) == total_weight(a, bounds, max_z) + total_weight(
            b,
            bounds,
            max_z,
        ),
    decreases b.len(),
{
    if b.len() == 0 {
        assert(a + b =~= a);
    } else {
        assert((a + b).drop_last() =~= a + b.drop_last());
        lemma_total_weight_add(a, b.drop_last(), bounds, max_z);
    }
}

/// The weight of one tile as a list.
pub proof fn lemma_total_weight_one(tile: TileJob, bounds: Seq<TileBounds>, max_z: u8)
    ensures
        total_weight(seq![tile], bounds, max_z) == weight(tile, bounds, max_z),
        total_weight(seq![], bounds, max_z) == 0,
{
    assert(seq![tile].drop_last() =~= seq![]);
    reveal_with_fuel(total_weight, 2);
}

/// What lies below a column splits into what lies below its two halves.
proof fn lemma_overlap_halves(c: int, lo: int, hi: int, half: int)
    requires
        half >= 1,
        lo <= hi,
    ensures
        overlap(c, lo, hi, 2 * half) == overlap(2 * c, lo, hi, half) + overlap(
            2 * c + 1,
            lo,
            hi,
            half,
        ),
{
    assert(c * (2 * half) == 2 * c * half) by (nonlinear_arith);
    assert((c + 1) * (2 * half) == 2 * c * half + 2 * half) by (nonlinear_arith);
    assert((2 * c + 1) * half == 2 * c * half + half) by (nonlinear_arith);
    assert((2 * c + 1 + 1) * half == 2 * c * half + 2 * half) by (nonlinear_arith);
}

/// Where tiles are one column wide, a column overlaps what it lies within once.
proof fn lemma_overlap_unit(c: int, lo: int, hi: int)
    requires
        lo <= hi,
    ensures
        overlap(c, lo, hi, 1) == (if lo <= c <= hi {
            1nat
        } else {
            0nat
        }),
{
    assert(c * 1 == c);
    assert((c + 1) * 1 == c + 1);
}

/// One level of descendants is as wide as its columns and as high as its rows.
proof fn lemma_level_product(tile: TileJob, bounds: Seq<TileBounds>, z: u8, b: TileBounds)
    requires
        frontier::bounds_at(bounds, z) == Some(b),
    ensures
        frontier::descendants_at(tile, bounds, z).len() == overlap(
            tile.x as int,
            b.x0 as int,
            b.x1 as int,
            pow2((z - tile.z) as nat) as int,
        ) * overlap(
            tile.y as int,
            b.y0 as int,
            b.y1 as int,
            pow2((z - tile.z) as nat) as int,
        ),
{
    let scale = pow2((z - tile.z) as nat) as int;
    frontier::lemma_grid_len(
        z,
        frontier::first_below(tile.x as int, b.x0 as int, scale),
        frontier::last_below(tile.x as int, b.x1 as int, scale),
        frontier::first_below(tile.y as int, b.y0 as int, scale),
        frontier::last_below(tile.y as int, b.y1 as int, scale),
    );
}

/// Bounds that lie below one another, level by level, lie below over any distance.
pub proof fn lemma_nested_chain(bounds: Seq<TileBounds>, min_z: u8, max_z: u8, i: int, j: int)
    requires
        pyramid(bounds, min_z, max_z),
        0 <= i <= j < bounds.len(),
    ensures
        bounds[i].x0 * pow2((j - i) as nat) <= bounds[j].x0,
        bounds[j].x1 < (bounds[i].x1 + 1) * pow2((j - i) as nat),
        bounds[i].y0 * pow2((j - i) as nat) <= bounds[j].y0,
        bounds[j].y1 < (bounds[i].y1 + 1) * pow2((j - i) as nat),
    decreases j - i,
{
    if i == j {
        lemma2_to64();
        assert(bounds[i].x0 * 1 == bounds[i].x0);
    } else {
        lemma_nested_chain(bounds, min_z, max_z, i, j - 1);
        assert(nested(bounds[j - 1], bounds[j]));
        let s = pow2((j - 1 - i) as nat) as int;
        lemma_pow2_unfold((j - i) as nat);
        assert(pow2((j - i) as nat) == 2 * s);
        let a = bounds[i];
        let x0 = a.x0 as int;
        let x1 = a.x1 as int + 1;
        let y0 = a.y0 as int;
        let y1 = a.y1 as int + 1;
        assert(x0 * (2 * s) == 2 * (x0 * s)) by (nonlinear_arith);
        assert(x1 * (2 * s) == 2 * (x1 * s)) by (nonlinear_arith);
        assert(y0 * (2 * s) == 2 * (y0 * s)) by (nonlinear_arith);
        assert(y1 * (2 * s) == 2 * (y1 * s)) by (nonlinear_arith);
    }
}

/// Below a tile outside the bounds of its zoom there is nothing within the bounds.
pub proof fn lemma_outside_is_empty(
    tile: TileJob,
    bounds: Seq<TileBounds>,
    min_z: u8,
    max_z: u8,
    z: u8,
)
    requires
        pyramid(bounds, min_z, max_z),
        min_z <= tile.z < z <= max_z,
        !frontier::in_bounds(bounds, tile),
    ensures
        frontier::descendants_at(tile, bounds, z).len() == 0,
{
    lemma_pyramid_at(bounds, min_z, max_z, tile.z);
    lemma_pyramid_at(bounds, min_z, max_z, z);
    let i = tile.z - min_z;
    let j = z - min_z;
    lemma_nested_chain(bounds, min_z, max_z, i, j);
    let a = bounds[i];
    let b = bounds[j];
    let s = pow2((z - tile.z) as nat) as int;
    lemma_pow2_pos((z - tile.z) as nat);
    lemma_level_product(tile, bounds, z, b);
    let x = tile.x as int;
    let y = tile.y as int;
    let w = overlap(x, b.x0 as int, b.x1 as int, s);
    let h = overlap(y, b.y0 as int, b.y1 as int, s);
    if x < a.x0 || x > a.x1 {
        lemma_outside_overlap(x, a.x0 as int, a.x1 as int, b.x0 as int, b.x1 as int, s);
        assert(0 * h == 0);
    } else {
        lemma_outside_overlap(y, a.y0 as int, a.y1 as int, b.y0 as int, b.y1 as int, s);
        assert(w * 0 == 0);
    }
}

proof fn lemma_outside_overlap(c: int, lo: int, hi: int, deep_lo: int, deep_hi: int, scale: int)
    requires
        scale >= 1,
        c < lo || c > hi,
        lo * scale <= deep_lo,
        deep_hi < (hi + 1) * scale,
    ensures
        overlap(c, deep_lo, deep_hi, scale) == 0,
{
    if c < lo {
        assert((c + 1) * scale <= lo * scale) by (nonlinear_arith)
            requires
                c + 1 <= lo,
                scale >= 1,
        ;
    } else {
        assert((hi + 1) * scale <= c * scale) by (nonlinear_arith)
            requires
                hi + 1 <= c,
                scale >= 1,
        ;
    }
}

/// A level of descendants divides among the four children.
proof fn lemma_level_split(
    tile: TileJob,
    bounds: Seq<TileBounds>,
    min_z: u8,
    max_z: u8,
    z: u8,
)
    requires
        pyramid(bounds, min_z, max_z),
        min_z <= tile.z,
        tile.z + 1 < z <= max_z,
        tile.x < 0x8000_0000,
        tile.y < 0x8000_0000,
    ensures
        ({
            let c = frontier::children(tile);
            frontier::descendants_at(tile, bounds, z).len() == frontier::descendants_at(
                c[0],
                bounds,
                z,
            ).len() + frontier::descendants_at(c[1], bounds, z).len() + frontier::descendants_at(
                c[2],
                bounds,
                z,
            ).len() + frontier::descendants_at(c[3], bounds, z).len()
        }),
{
    lemma_pyramid_at(bounds, min_z, max_z, z);
    let b = bounds[z - min_z];
    let c = frontier::children(tile);
    let half = pow2((z - tile.z - 1) as nat) as int;
    lemma_pow2_pos((z - tile.z - 1) as nat);
    lemma_pow2_unfold((z - tile.z) as nat);
    let x = tile.x as int;
    let y = tile.y as int;
    lemma_level_product(tile, bounds, z, b);
    lemma_level_product(c[0], bounds, z, b);
    lemma_level_product(c[1], bounds, z, b);
    lemma_level_product(c[2], bounds, z, b);
    lemma_level_product(c[3], bounds, z, b);
    lemma_overlap_halves(x, b.x0 as int, b.x1 as int, half);
    lemma_overlap_halves(y, b.y0 as int, b.y1 as int, half);
    let l = overlap(2 * x, b.x0 as int, b.x1 as int, half);
    let r = overlap(2 * x + 1, b.x0 as int, b.x1 as int, half);
    let u = overlap(2 * y, b.y0 as int, b.y1 as int, half);
    let d = overlap(2 * y + 1, b.y0 as int, b.y1 as int, half);
    assert((l + r) * (u + d) == l * u + r * u + l * d + r * d) by (nonlinear_arith);
}

/// What a child adds to the count of its parent, down to a zoom.
spec fn share(child: TileJob, bounds: Seq<TileBounds>, z: int) -> nat {
    if frontier::in_bounds(bounds, child) {
        1 + frontier::descendants_to(child, bounds, z).len()
    } else {
        0
    }
}

proof fn lemma_split_to(tile: TileJob, bounds: Seq<TileBounds>, min_z: u8, max_z: u8, z: int)
    requires
        pyramid(bounds, min_z, max_z),
        min_z <= tile.z,
        tile.z < z <= max_z,
        tile.x < 0x8000_0000,
        tile.y < 0x8000_0000,
    ensures
        ({
            let c = frontier::children(tile);
            frontier::descendants_to(tile, bounds, z).len() == share(c[0], bounds, z) + share(
                c[1],
                bounds,
                z,
            ) + share(c[2], bounds, z) + share(c[3], bounds, z)
        }),
    decreases z,
{
    let c = frontier::children(tile);
    let x = tile.x as int;
    let y = tile.y as int;
    if z == tile.z + 1 {
        let zz = z as u8;
        lemma_pyramid_at(bounds, min_z, max_z, zz);
        let b = bounds[z - min_z];
        lemma_level_product(tile, bounds, zz, b);
        lemma2_to64();
        lemma_overlap_halves(x, b.x0 as int, b.x1 as int, 1);
        lemma_overlap_halves(y, b.y0 as int, b.y1 as int, 1);
        let l = overlap(2 * x, b.x0 as int, b.x1 as int, 1);
        let r = overlap(2 * x + 1, b.x0 as int, b.x1 as int, 1);
        let u = overlap(2 * y, b.y0 as int, b.y1 as int, 1);
        let d = overlap(2 * y + 1, b.y0 as int, b.y1 as int, 1);
        assert((l + r) * (u + d) == l * u + r * u + l * d + r * d) by (nonlinear_arith);
        lemma_overlap_unit(2 * x, b.x0 as int, b.x1 as int);
        lemma_overlap_unit(2 * x + 1, b.x0 as int, b.x1 as int);
        lemma_overlap_unit(2 * y, b.y0 as int, b.y1 as int);
        lemma_overlap_unit(2 * y + 1, b.y0 as int, b.y1 as int);
        assert(l * u == (if l == 1 && u == 1 { 1int } else { 0int })) by (nonlinear_arith)
            requires
                0 <= l <= 1,
                0 <= u <= 1,
        ;
        assert(r * u == (if r == 1 && u == 1 { 1int } else { 0int })) by (nonlinear_arith)
            requires
                0 <= r <= 1,
                0 <= u <= 1,
        ;
        assert(l * d == (if l == 1 && d == 1 { 1int } else { 0int })) by (nonlinear_arith)
            requires
                0 <= l <= 1,
                0 <= d <= 1,
        ;
        assert(r * d == (if r == 1 && d == 1 { 1int } else { 0int })) by (nonlinear_arith)
            requires
                0 <= r <= 1,
                0 <= d <= 1,
        ;
        assert(frontier::descendants_to(tile, bounds, tile.z as int) =~= seq![]);
        assert(frontier::descendants_to(tile, bounds, z).len() == frontier::descendants_at(
            tile,
            bounds,
            zz,
        ).len());
    } else {
        let zz = z as u8;
        lemma_split_to(tile, bounds, min_z, max_z, z - 1);
        lemma_level_split(tile, bounds, min_z, max_z, zz);
        assert forall|i: int| 0 <= i < 4 implies share(#[trigger] c[i], bounds, z) == share(
            c[i],
            bounds,
            z - 1,
        ) + frontier::descendants_at(c[i], bounds, zz).len() by {
            if !frontier::in_bounds(bounds, c[i]) {
                lemma_outside_is_empty(c[i], bounds, min_z, max_z, zz);
            }
        }
        assert(share(c[0], bounds, z) == share(c[0], bounds, z - 1) + frontier::descendants_at(
            c[0],
            bounds,
            zz,
        ).len());
        assert(share(c[1], bounds, z) == share(c[1], bounds, z - 1) + frontier::descendants_at(
            c[1],
            bounds,
            zz,
        ).len());
        assert(share(c[2], bounds, z) == share(c[2], bounds, z - 1) + frontier::descendants_at(
            c[2],
            bounds,
            zz,
        ).len());
        assert(share(c[3], bounds, z) == share(c[3], bounds, z - 1) + frontier::descendants_at(
            c[3],
            bounds,
            zz,
        ).len());
    }
}

/// What lies below a tile is what its children in bounds stand for: each of them, and what lies
/// below each.
pub proof fn law_children_share_descendants(
    tile: TileJob,
    bounds: Seq<TileBounds>,
    min_z: u8,
    max_z: u8,
)
    requires
        pyramid(bounds, min_z, max_z),
        min_z <= tile.z,
        frontier::children_fit(tile, max_z, bounds),
    ensures
        frontier::descendant_count(tile, bounds, max_z) == total_weight(
            frontier::children_in_bounds(tile, max_z, bounds),
            bounds,
            max_z,
        ),
{
    if tile.z < max_z {
        lemma_pyramid_at(bounds, min_z, max_z, (tile.z + 1) as u8);
        lemma_split_to(tile, bounds, min_z, max_z, max_z as int);
        let c = frontier::children(tile);
        let keep = |child: TileJob| frontier::in_bounds(bounds, child);
        frontier::lemma_filter_four(c, keep);
        let pick = |i: int|
            if keep(c[i]) {
                seq![c[i]]
            } else {
                Seq::<TileJob>::empty()
            };
        assert forall|i: int| 0 <= i < 4 implies total_weight(#[trigger] pick(i), bounds, max_z)
            == share(c[i], bounds, max_z as int) by {
            lemma_total_weight_one(c[i], bounds, max_z);
        }
        let p0 = pick(0);
        let p1 = pick(1);
        let p2 = pick(2);
        let p3 = pick(3);
        lemma_total_weight_add(p0, p1, bounds, max_z);
        lemma_total_weight_add(p0 + p1, p2, bounds, max_z);
        lemma_total_weight_add(p0 + p1 + p2, p3, bounds, max_z);
        assert(frontier::children_in_bounds(tile, max_z, bounds) == p0 + p1 + p2 + p3);
    }
}

/// How many tiles bounds hold.
pub open spec fn area(b: TileBounds) -> nat {
    frontier::span(b.x0 as int, b.x1 as int) * frontier::span(b.y0 as int, b.y1 as int)
}

/// How many tiles all bounds hold together.
pub open spec fn total_area(bounds: Seq<TileBounds>) -> nat
    decreases bounds.len(),
{
    if bounds.len() == 0 {
        0
    } else {
        total_area(bounds.drop_last()) + area(bounds.last())
    }
}

/// Fewer bounds hold no more tiles.
proof fn lemma_total_area_grows(bounds: Seq<TileBounds>, i: int, j: int)
    requires
        0 <= i <= j <= bounds.len(),
    ensures
        total_area(bounds.take(i)) <= total_area(bounds.take(j)),
    decreases j - i,
{
    if i < j {
        lemma_total_area_grows(bounds, i, j - 1);
        assert(bounds.take(j).drop_last() =~= bounds.take(j - 1));
    }
}

/// The number of candidate tiles of a run: everything that its bounds hold.
pub fn upper_bound_tiles(bounds: &[TileBounds]) -> (count: u64)
    requires
        forall|i: int|
            0 <= i < bounds@.len() ==> (#[trigger] bounds@[i]).x0 <= bounds@[i].x1 && bounds@[i].y0
                <= bounds@[i].y1,
        total_area(bounds@) <= u64::MAX,
    ensures
        count == total_area(bounds@),
{
    let mut count: u64 = 0;
    let mut i: usize = 0;
    assert(bounds@.take(0) =~= seq![]);
    while i < bounds.len()
        invariant
            i <= bounds.len(),
            forall|i: int|
                0 <= i < bounds@.len() ==> (#[trigger] bounds@[i]).x0 <= bounds@[i].x1
                    && bounds@[i].y0 <= bounds@[i].y1,
            total_area(bounds@) <= u64::MAX,
            count == total_area(bounds@.take(i as int)),
        decreases bounds.len() - i,
    {
        let b = bounds[i];
        let ghost before = bounds@.take(i as int);
        let ghost after = bounds@.take(i + 1);
        proof {
            assert(after.drop_last() =~= before);
            assert(after.last() == b);
            lemma_total_area_grows(bounds@, i + 1, bounds@.len() as int);
            assert(bounds@.take(bounds@.len() as int) =~= bounds@);
        }
        count += (b.x1 as u64 - b.x0 as u64 + 1) * (b.y1 as u64 - b.y0 as u64 + 1);
        i += 1;
    }
    assert(bounds@.take(i as int) =~= bounds@);
    count
}

/// The descendants at one zoom below some tiles, added up.
spec fn level_sum(tiles: Seq<TileJob>, bounds: Seq<TileBounds>, z: u8) -> nat
    decreases tiles.len(),
{
    if tiles.len() == 0 {
        0
    } else {
        level_sum(tiles.drop_last(), bounds, z) + frontier::descendants_at(
            tiles.last(),
            bounds,
            z,
        ).len()
    }
}

proof fn lemma_level_sum_add(a: Seq<TileJob>, b: Seq<TileJob>, bounds: Seq<TileBounds>, z: u8)
    ensures
        level_sum(a + b, bounds, z) == level_sum(a, bounds, z) + level_sum(b, bounds, z),
    decreases b.len(),
{
    if b.len() == 0 {
        assert(a + b =~= a);
    } else {
        assert((a + b).drop_last() =~= a + b.drop_last());
        lemma_level_sum_add(a, b.drop_last(), bounds, z);
    }
}

/// Some tiles with their descendants down to a zoom, added up.
spec fn weight_to(tiles: Seq<TileJob>, bounds: Seq<TileBounds>, z: int) -> nat
    decreases tiles.len(),
{
    if tiles.len() == 0 {
        0
    } else {
        weight_to(tiles.drop_last(), bounds, z) + 1 + frontier::descendants_to(
            tiles.last(),
            bounds,
            z,
        ).len()
    }
}

proof fn lemma_weight_to_steps(tiles: Seq<TileJob>, bounds: Seq<TileBounds>, z0: u8, z: int)
    requires
        forall|i: int| 0 <= i < tiles.len() ==> (#[trigger] tiles[i]).z == z0,
        z0 <= z <= u8::MAX,
    ensures
        z == z0 ==> weight_to(tiles, bounds, z) == tiles.len(),
        z > z0 ==> weight_to(tiles, bounds, z) == weight_to(tiles, bounds, z - 1) + level_sum(
            tiles,
            bounds,
            z as u8,
        ),
    decreases tiles.len(),
{
    if tiles.len() > 0 {
        assert(tiles.last().z == z0);
        lemma_weight_to_steps(tiles.drop_last(), bounds, z0, z);
    }
}

proof fn lemma_weight_to_total(tiles: Seq<TileJob>, bounds: Seq<TileBounds>, max_z: u8)
    ensures
        weight_to(tiles, bounds, max_z as int) == total_weight(tiles, bounds, max_z),
    decreases tiles.len(),
{
    if tiles.len() > 0 {
        lemma_weight_to_total(tiles.drop_last(), bounds, max_z);
    }
}

/// The last column (or row) below `c` or before it, not after `hi`.
spec fn reach(c: int, hi: int, scale: int) -> int {
    frontier::last_below(c, hi, scale)
}

/// The part of a level below one column of tiles is as wide as the column's own part, and as high
/// as everything the rows reach.
proof fn lemma_column_level(
    bounds: Seq<TileBounds>,
    z0: u8,
    z: u8,
    b: TileBounds,
    x: int,
    y0: int,
    y1: int,
)
    requires
        frontier::bounds_at(bounds, z) == Some(b),
        z0 < z,
        0 <= x <= u32::MAX,
        0 <= y0,
        y0 - 1 <= y1 <= u32::MAX,
        y0 * pow2((z - z0) as nat) <= b.y0,
    ensures
        ({
            let s = pow2((z - z0) as nat) as int;
            level_sum(frontier::column(z0, x, y0, y1), bounds, z) == overlap(
                x,
                b.x0 as int,
                b.x1 as int,
                s,
            ) * frontier::span(b.y0 as int, reach(y1, b.y1 as int, s))
        }),
    decreases y1 - y0 + 1,
{
    let s = pow2((z - z0) as nat) as int;
    lemma_pow2_pos((z - z0) as nat);
    let col = frontier::column(z0, x, y0, y1);
    let w = overlap(x, b.x0 as int, b.x1 as int, s);
    if y1 < y0 {
        assert((y1 + 1) * s == y0 * s);
        assert(w * 0 == 0);
    } else {
        lemma_column_level(bounds, z0, z, b, x, y0, y1 - 1);
        assert(col.drop_last() =~= frontier::column(z0, x, y0, y1 - 1));
        let t = TileJob { z: z0, x: x as u32, y: y1 as u32 };
        assert(col.last() == t);
        lemma_level_product(t, bounds, z, b);
        let h = overlap(y1, b.y0 as int, b.y1 as int, s);
        let below = frontier::span(b.y0 as int, reach(y1 - 1, b.y1 as int, s));
        let all = frontier::span(b.y0 as int, reach(y1, b.y1 as int, s));
        assert((y1 + 1) * s == y1 * s + s) by (nonlinear_arith);
        assert(y1 - 1 + 1 == y1);
        assert(y1 * s >= y0 * s) by (nonlinear_arith)
            requires
                y1 >= y0,
                s >= 1,
        ;
        assert(below + h == all);
        assert(w * below + w * h == w * (below + h)) by (nonlinear_arith);
    }
}

proof fn lemma_grid_level(
    bounds: Seq<TileBounds>,
    z0: u8,
    z: u8,
    b: TileBounds,
    x0: int,
    x1: int,
    y0: int,
    y1: int,
)
    requires
        frontier::bounds_at(bounds, z) == Some(b),
        z0 < z,
        0 <= x0,
        x0 - 1 <= x1 <= u32::MAX,
        0 <= y0,
        y0 - 1 <= y1 <= u32::MAX,
        x0 * pow2((z - z0) as nat) <= b.x0,
        y0 * pow2((z - z0) as nat) <= b.y0,
    ensures
        ({
            let s = pow2((z - z0) as nat) as int;
            level_sum(frontier::grid(z0, x0, x1, y0, y1), bounds, z) == frontier::span(
                b.x0 as int,
                reach(x1, b.x1 as int, s),
            ) * frontier::span(b.y0 as int, reach(y1, b.y1 as int, s))
        }),
    decreases x1 - x0 + 1,
{
    let s = pow2((z - z0) as nat) as int;
    lemma_pow2_pos((z - z0) as nat);
    let h = frontier::span(b.y0 as int, reach(y1, b.y1 as int, s));
    if x1 < x0 {
        assert((x1 + 1) * s == x0 * s);
        assert(0 * h == 0);
    } else {
        lemma_grid_level(bounds, z0, z, b, x0, x1 - 1, y0, y1);
        lemma_column_level(bounds, z0, z, b, x1, y0, y1);
        lemma_level_sum_add(
            frontier::grid(z0, x0, x1 - 1, y0, y1),
            frontier::column(z0, x1, y0, y1),
            bounds,
            z,
        );
        let w = overlap(x1, b.x0 as int, b.x1 as int, s);
        let left = frontier::span(b.x0 as int, reach(x1 - 1, b.x1 as int, s));
        let all = frontier::span(b.x0 as int, reach(x1, b.x1 as int, s));
        assert((x1 + 1) * s == x1 * s + s) by (nonlinear_arith);
        assert(x1 - 1 + 1 == x1);
        assert(x1 * s >= x0 * s) by (nonlinear_arith)
            requires
                x1 >= x0,
                s >= 1,
        ;
        assert(left + w == all);
        assert(left * h + w * h == (left + w) * h) by (nonlinear_arith);
    }
}

/// The tiles of the first zoom.
pub open spec fn first_tiles(bounds: Seq<TileBounds>, min_z: u8) -> Seq<TileJob> {
    frontier::grid(
        min_z,
        bounds[0].x0 as int,
        bounds[0].x1 as int,
        bounds[0].y0 as int,
        bounds[0].y1 as int,
    )
}

/// A run starts with the tiles that its first bounds hold.
pub proof fn law_run_starts_at_its_first_bounds(
    area: frontier::TileSpan,
    bounds: Seq<TileBounds>,
    min_z: u8,
)
    requires
        bounds.len() > 0,
        bounds[0] == frontier::bounds_of(area, min_z),
    ensures
        first_tiles(bounds, min_z) == frontier::grid(
            min_z,
            area.x0 as int,
            area.x1 as int,
            area.y0 as int,
            area.y1 as int,
        ),
{
}

proof fn lemma_whole_to(bounds: Seq<TileBounds>, min_z: u8, max_z: u8, z: int)
    requires
        pyramid(bounds, min_z, max_z),
        min_z <= z <= max_z,
    ensures
        weight_to(first_tiles(bounds, min_z), bounds, z) == total_area(
            bounds.take(z - min_z + 1),
        ),
    decreases z - min_z,
{
    let tiles = first_tiles(bounds, min_z);
    let a = bounds[0];
    assert(proper(a));
    assert forall|i: int| 0 <= i < tiles.len() implies (#[trigger] tiles[i]).z == min_z by {
        lemma_grid_contains(
            min_z,
            a.x0 as int,
            a.x1 as int,
            a.y0 as int,
            a.y1 as int,
            tiles[i],
        );
        assert(tiles.contains(tiles[i]));
    }
    lemma_weight_to_steps(tiles, bounds, min_z, z);
    let upto = bounds.take(z - min_z + 1);
    assert(upto.drop_last() =~= bounds.take(z - min_z));
    assert(upto.last() == bounds[z - min_z]);
    if z == min_z {
        frontier::lemma_grid_len(min_z, a.x0 as int, a.x1 as int, a.y0 as int, a.y1 as int);
        assert(bounds.take(0) =~= seq![]);
        assert(total_area(bounds.take(0)) == 0);
    } else {
        lemma_whole_to(bounds, min_z, max_z, z - 1);
        lemma_pyramid_at(bounds, min_z, max_z, z as u8);
        let b = bounds[z - min_z];
        assert(proper(b));
        lemma_nested_chain(bounds, min_z, max_z, 0, z - min_z);
        lemma_grid_level(
            bounds,
            min_z,
            z as u8,
            b,
            a.x0 as int,
            a.x1 as int,
            a.y0 as int,
            a.y1 as int,
        );
    }
}

/// The tiles of the first zoom, with everything below them, are all candidate tiles of the run.
pub proof fn law_first_tiles_weigh_everything(bounds: Seq<TileBounds>, min_z: u8, max_z: u8)
    requires
        pyramid(bounds, min_z, max_z),
    ensures
        total_weight(first_tiles(bounds, min_z), bounds, max_z) == total_area(bounds),
{
    lemma_whole_to(bounds, min_z, max_z, max_z as int);
    lemma_weight_to_total(first_tiles(bounds, min_z), bounds, max_z);
    assert(bounds.take(bounds.len() as int) =~= bounds);
}

/// The candidate tiles of a run can be counted.
pub proof fn law_candidates_fit(bounds: Seq<TileBounds>, min_z: u8, max_z: u8)
    requires
        pyramid(bounds, min_z, max_z),
    ensures
        total_area(bounds) <= u64::MAX,
{
    lemma_areas_fit(bounds, min_z, max_z, bounds.len() as int);
    assert(bounds.take(bounds.len() as int) =~= bounds);
    lemma2_to64_rest();
    if max_z < 31 {
        lemma_pow2_strictly_increases(2 * max_z as nat, 62);
    }
}

proof fn lemma_areas_fit(bounds: Seq<TileBounds>, min_z: u8, max_z: u8, n: int)
    requires
        pyramid(bounds, min_z, max_z),
        1 <= n <= bounds.len(),
    ensures
        total_area(bounds.take(n)) <= 2 * pow2(2 * (min_z + n - 1) as nat),
    decreases n,
{
    let b = bounds[n - 1];
    assert(proper(b));
    let k = (min_z + n - 1) as nat;
    let side = pow2(k) as int;
    let w = frontier::span(b.x0 as int, b.x1 as int);
    let h = frontier::span(b.y0 as int, b.y1 as int);
    assert(w * h <= side * side) by (nonlinear_arith)
        requires
            0 <= w <= side,
            0 <= h <= side,
    ;
    lemma_pow2_adds(k, k);
    assert(bounds.take(n).drop_last() =~= bounds.take(n - 1));
    assert(bounds.take(n).last() == b);
    if n == 1 {
        assert(bounds.take(0) =~= seq![]);
        assert(total_area(bounds.take(0)) == 0);
    } else {
        lemma_areas_fit(bounds, min_z, max_z, n - 1);
        lemma_pow2_unfold(2 * k);
        lemma_pow2_unfold((2 * k - 1) as nat);
        assert((2 * k - 2) as nat == 2 * (k - 1) as nat);
    }
}

/// A tile is above another exactly if the other lies within the square that the tile covers at
/// that zoom.
pub proof fn law_above_is_covering(tile: TileJob, other: TileJob)
    ensures
        above(tile, other) <==> tile.z < other.z && {
            let side = pow2((other.z - tile.z) as nat);
            &&& tile.x * side <= other.x < (tile.x + 1) * side
            &&& tile.y * side <= other.y < (tile.y + 1) * side
        },
{
    if tile.z < other.z {
        let side = pow2((other.z - tile.z) as nat) as int;
        lemma_pow2_pos((other.z - tile.z) as nat);
        lemma_divides_below(other.x as int, tile.x as int, side);
        lemma_divides_below(other.y as int, tile.y as int, side);
    }
}

/// The tiles of a rectangle stand column by column, and in a column from the upper end down.
proof fn lemma_grid_order(z: u8, x0: int, x1: int, y0: int, y1: int)
    requires
        0 <= x0,
        x1 <= u32::MAX,
        0 <= y0,
        y1 <= u32::MAX,
    ensures
        forall|i: int, j: int|
            0 <= i < j < frontier::grid(z, x0, x1, y0, y1).len() ==> {
                let a = #[trigger] frontier::grid(z, x0, x1, y0, y1)[i];
                let b = #[trigger] frontier::grid(z, x0, x1, y0, y1)[j];
                a.x < b.x || (a.x == b.x && a.y < b.y)
            },
    decreases x1 - x0 + 1,
{
    if x0 <= x1 {
        lemma_grid_order(z, x0, x1 - 1, y0, y1);
        let all = frontier::grid(z, x0, x1, y0, y1);
        let head = frontier::grid(z, x0, x1 - 1, y0, y1);
        let last = frontier::column(z, x1, y0, y1);
        assert(all == head + last);
        assert forall|i: int, j: int| 0 <= i < j < all.len() implies {
            let a = #[trigger] all[i];
            let b = #[trigger] all[j];
            a.x < b.x || (a.x == b.x && a.y < b.y)
        } by {
            if i < head.len() && j < head.len() {
                assert(all[i] == head[i] && all[j] == head[j]);
            } else if i < head.len() {
                assert(all[i] == head[i] && all[j] == last[j - head.len()]);
                assert(head.contains(head[i]));
                lemma_grid_contains(z, x0, x1 - 1, y0, y1, head[i]);
            } else {
                assert(all[i] == last[i - head.len()] && all[j] == last[j - head.len()]);
            }
        }
    }
}

/// A run starts with all tiles of the area at its first zoom, each once, column by column.
pub proof fn law_run_starts_with_its_area(
    area: frontier::TileSpan,
    z: u8,
    tiles: Vec<TileJob>,
    tile: TileJob,
    i: int,
    j: int,
)
    requires
        call_ensures(frontier::initial_frontier, (area, z), tiles),
    ensures
        tiles@.contains(tile) <==> tile.z == z && area.x0 <= tile.x && tile.x <= area.x1 && area.y0
            <= tile.y && tile.y <= area.y1,
        0 <= i < j < tiles@.len() ==> tiles@[i].x < tiles@[j].x || (tiles@[i].x == tiles@[j].x
            && tiles@[i].y < tiles@[j].y),
{
    let (x0, x1, y0, y1) = (area.x0 as int, area.x1 as int, area.y0 as int, area.y1 as int);
    lemma_grid_contains(z, x0, x1, y0, y1, tile);
    lemma_grid_order(z, x0, x1, y0, y1);
}

/// What is listed below a tile are the tiles down to the last zoom that lie within the square of
/// the tile and within the bounds of their zoom, each once; and so many are counted.
pub proof fn law_listed_below_is_below(
    tile: TileJob,
    bounds: &[TileBounds],
    max_z: u8,
    found: Vec<TileJob>,
    count: u64,
    other: TileJob,
    level: Option<TileBounds>,
)
    requires
        call_ensures(frontier::bounded_descendants, (tile, bounds, max_z), found),
        call_ensures(frontier::bounded_descendant_count, (tile, bounds, max_z), count),
        call_ensures(frontier::find_bounds, (bounds, other.z), level),
    ensures
        count == found@.len(),
        found@.no_duplicates(),
        found@.contains(other) <==> {
            let side = pow2((other.z - tile.z) as nat);
            &&& tile.z < other.z
            &&& other.z <= max_z
            &&& tile.x * side <= other.x < (tile.x + 1) * side
            &&& tile.y * side <= other.y < (tile.y + 1) * side
            &&& level matches Some(b) && b.x0 <= other.x && other.x <= b.x1 && b.y0 <= other.y
                && other.y <= b.y1
        },
{
    law_descendants_exact(tile, bounds@, max_z);
    law_above_is_covering(tile, other);
    frontier::law_within_what_is_found(bounds, other, level);
}

/// Bounds are those of one area exactly if there is an entry for each zoom, in order, that lies
/// within its zoom, and within what the entry before covers there.
pub proof fn law_pyramid_zoom_by_zoom(bounds: &[TileBounds], min_z: u8, max_z: u8, r: bool)
    requires
        call_ensures(is_pyramid, (bounds, min_z, max_z), r),
    ensures
        r ==> min_z <= max_z && max_z <= 31 && bounds@.len() == max_z - min_z + 1,
        r ==> forall|i: int|
            0 <= i < bounds@.len() ==> {
                let b = #[trigger] bounds@[i];
                b.z == min_z + i && b.x0 <= b.x1 && b.y0 <= b.y1 && b.x1 < pow2(b.z as nat) && b.y1
                    < pow2(b.z as nat)
            },
        r ==> forall|i: int|
            0 < i < bounds@.len() ==> {
                let b = #[trigger] bounds@[i];
                let a = bounds@[i - 1];
                2 * a.x0 <= b.x0 && b.x1 <= 2 * a.x1 + 1 && 2 * a.y0 <= b.y0 && b.y1 <= 2 * a.y1 + 1
            },
        min_z <= max_z && max_z <= 31 && bounds@.len() == max_z - min_z + 1 && (forall|i: int|
            0 <= i < bounds@.len() ==> {
                let b = #[trigger] bounds@[i];
                b.z == min_z + i && b.x0 <= b.x1 && b.y0 <= b.y1 && b.x1 < pow2(b.z as nat) && b.y1
                    < pow2(b.z as nat)
            }) && (forall|i: int|
            0 < i < bounds@.len() ==> {
                let b = #[trigger] bounds@[i];
                let a = bounds@[i - 1];
                2 * a.x0 <= b.x0 && b.x1 <= 2 * a.x1 + 1 && 2 * a.y0 <= b.y0 && b.y1 <= 2 * a.y1 + 1
            }) ==> r,
{
    let all = bounds@;
    if r {
        assert forall|i: int| 0 <= i < all.len() implies {
            let b = #[trigger] all[i];
            b.z == min_z + i && b.x0 <= b.x1 && b.y0 <= b.y1 && b.x1 < pow2(b.z as nat) && b.y1
                < pow2(b.z as nat)
        } by {
            assert(proper(all[i]));
        }
        assert forall|i: int| 0 < i < all.len() implies {
            let b = #[trigger] all[i];
            let a = all[i - 1];
            2 * a.x0 <= b.x0 && b.x1 <= 2 * a.x1 + 1 && 2 * a.y0 <= b.y0 && b.y1 <= 2 * a.y1 + 1
        } by {
            assert(nested(all[i - 1], all[i]));
        }
    }
}

/// The candidate tiles of a run are counted zoom by zoom, columns times rows.
pub proof fn law_candidates_zoom_by_zoom(
    bounds: &[TileBounds],
    more: &[TileBounds],
    b: TileBounds,
    count: u64,
    larger: u64,
)
    requires
        call_ensures(upper_bound_tiles, (bounds,), count),
        call_ensures(upper_bound_tiles, (more,), larger),
        more@ == bounds@.push(b),
        b.x0 <= b.x1 && b.y0 <= b.y1,
    ensures
        bounds@.len() == 0 ==> count == 0,
        larger == count + (b.x1 - b.x0 + 1) * (b.y1 - b.y0 + 1),
{
    assert(more@.drop_last() =~= bounds@);
}

/// What is below a tile is listed zoom by zoom, and within a zoom column by column.
proof fn lemma_descendants_order(tile: TileJob, bounds: Seq<TileBounds>, z: int)
    requires
        z <= u8::MAX,
    ensures
        forall|i: int, j: int|
            0 <= i < j < frontier::descendants_to(tile, bounds, z).len() ==> {
                let a = #[trigger] frontier::descendants_to(tile, bounds, z)[i];
                let b = #[trigger] frontier::descendants_to(tile, bounds, z)[j];
                a.z < b.z || (a.z == b.z && (a.x < b.x || (a.x == b.x && a.y < b.y)))
            },
        forall|i: int|
            0 <= i < frontier::descendants_to(tile, bounds, z).len() ==> (
            #[trigger] frontier::descendants_to(tile, bounds, z)[i]).z <= z,
    decreases z - tile.z,
{
    if z > tile.z {
        lemma_descendants_order(tile, bounds, z - 1);
        let all = frontier::descendants_to(tile, bounds, z);
        let head = frontier::descendants_to(tile, bounds, z - 1);
        let here = frontier::descendants_at(tile, bounds, z as u8);
        assert(all == head + here);
        if let Some(b) = frontier::bounds_at(bounds, z as u8) {
            let scale = pow2((z - tile.z) as nat) as int;
            lemma_pow2_pos((z - tile.z) as nat);
            let x0 = frontier::first_below(tile.x as int, b.x0 as int, scale);
            let x1 = frontier::last_below(tile.x as int, b.x1 as int, scale);
            let y0 = frontier::first_below(tile.y as int, b.y0 as int, scale);
            let y1 = frontier::last_below(tile.y as int, b.y1 as int, scale);
            assert(tile.x * scale >= 0 && tile.y * scale >= 0) by (nonlinear_arith)
                requires
                    scale >= 1,
            ;
            lemma_grid_order(z as u8, x0, x1, y0, y1);
            assert forall|i: int| 0 <= i < here.len() implies (#[trigger] here[i]).z == z by {
                assert(here.contains(here[i]));
                lemma_grid_contains(z as u8, x0, x1, y0, y1, here[i]);
            }
        }
        assert forall|i: int, j: int| 0 <= i < j < all.len() implies {
            let a = #[trigger] all[i];
            let b = #[trigger] all[j];
            a.z < b.z || (a.z == b.z && (a.x < b.x || (a.x == b.x && a.y < b.y)))
        } by {
            if j < head.len() {
                assert(all[i] == head[i] && all[j] == head[j]);
            } else if i < head.len() {
                assert(all[i] == head[i] && all[j] == here[j - head.len()]);
            } else {
                assert(all[i] == here[i - head.len()] && all[j] == here[j - head.len()]);
            }
        }
    }
}

/// What is below a tile is listed zoom by zoom, and within a zoom column by column.
pub proof fn law_listed_zoom_by_zoom(
    tile: TileJob,
    bounds: &[TileBounds],
    max_z: u8,
    found: Vec<TileJob>,
    i: int,
    j: int,
)
    requires
        call_ensures(frontier::bounded_descendants, (tile, bounds, max_z), found),
        0 <= i < j < found@.len(),
    ensures
        found@[i].z < found@[j].z || (found@[i].z == found@[j].z && (found@[i].x < found@[j].x || (
        found@[i].x == found@[j].x && found@[i].y < found@[j].y))),
{
    lemma_descendants_order(tile, bounds@, max_z as int);
}

} // verus!
