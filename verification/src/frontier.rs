//! Tiles, the bounds of a run at each zoom, and the walk from a tile to what lies below it.

use vstd::arithmetic::power2::*;
use vstd::prelude::*;
use vstd::string::*;

use crate::text;

verus! {

/// One tile of the XYZ scheme.
#[derive(Clone, Copy, Debug, PartialEq, Eq, Hash, Structural)]
pub struct TileJob {
    pub z: u8,
    pub x: u32,
    pub y: u32,
}

/// The columns and rows of a run at one zoom, both ends belonging to it.
#[derive(Clone, Copy, Debug)]
pub struct TileBounds {
    pub z: u8,
    pub x0: u32,
    pub x1: u32,
    pub y0: u32,
    pub y1: u32,
}

/// The columns and rows that the edges of an area fall into at some zoom.
#[derive(Clone, Copy, Debug)]
pub struct TileSpan {
    pub x0: u32,
    pub x1: u32,
    pub y0: u32,
    pub y1: u32,
}

impl TileBounds {
    /// The tiles that the bounds hold.
    pub open spec fn holds(self, tile: TileJob) -> bool {
        &&& tile.z == self.z
        &&& self.x0 <= tile.x <= self.x1
        &&& self.y0 <= tile.y <= self.y1
    }

    /// Whether the tile lies within these bounds.
    pub fn contains(&self, tile: TileJob) -> (r: bool)
        ensures
            r == self.holds(tile),
    {
        tile.z == self.z && tile.x >= self.x0 && tile.x <= self.x1 && tile.y >= self.y0 && tile.y
            <= self.y1
    }
}

/// The bits of a tile's key: the zoom from bit 58, the column from bit 29, the row from bit 0.
pub open spec fn key_of(tile: TileJob) -> u64 {
    ((tile.z as u64) << 58) | ((tile.x as u64) << 29) | tile.y as u64
}

/// The tiles whose three numbers fit side by side into a key.
pub open spec fn key_fits(tile: TileJob) -> bool {
    tile.z < 64 && tile.x < 0x2000_0000 && tile.y < 0x2000_0000
}

/// Whether all tiles within bounds fit into keys, as they do up to zoom 29 and, further down, left
/// of and above column and row 2^29.
pub open spec fn keys_fit(bounds: Seq<TileBounds>) -> bool {
    forall|i: int|
        0 <= i < bounds.len() ==> (#[trigger] bounds[i]).x1 < 0x2000_0000 && bounds[i].y1
            < 0x2000_0000
}

/// A number that stands for the tile in sets of tiles.
pub fn tile_key(tile: TileJob) -> (key: u64)
    ensures
        key == key_of(tile),
{
    ((tile.z as u64) << 58) | ((tile.x as u64) << 29) | tile.y as u64
}

/// Two tiles that fit into keys never share one.
pub proof fn law_tile_key_injective(a: TileJob, b: TileJob)
    requires
        key_fits(a),
        key_fits(b),
        key_of(a) == key_of(b),
    ensures
        a == b,
{
    let az: u64 = a.z as u64;
    let ax: u64 = a.x as u64;
    let ay: u64 = a.y as u64;
    let bz: u64 = b.z as u64;
    let bx: u64 = b.x as u64;
    let by: u64 = b.y as u64;
    assert(az == bz && ax == bx && ay == by) by (bit_vector)
        requires
            az < 64,
            bz < 64,
            ax < 0x2000_0000,
            bx < 0x2000_0000,
            ay < 0x2000_0000,
            by < 0x2000_0000,
            (az << 58) | (ax << 29) | ay == (bz << 58) | (bx << 29) | by,
    ;
}

/// The index of the first entry for a zoom, or the length where there is none.
pub open spec fn bounds_index(bounds: Seq<TileBounds>, z: u8) -> nat
    decreases bounds.len(),
{
    if bounds.len() == 0 {
        0
    } else if bounds[0].z == z {
        0
    } else {
        1 + bounds_index(bounds.drop_first(), z)
    }
}

/// The bounds of a zoom: the first entry that names it.
pub open spec fn bounds_at(bounds: Seq<TileBounds>, z: u8) -> Option<TileBounds> {
    let i = bounds_index(bounds, z);
    if i < bounds.len() {
        Some(bounds[i as int])
    } else {
        None
    }
}

/// Whether the bounds of the tile's own zoom hold it.
pub open spec fn in_bounds(bounds: Seq<TileBounds>, tile: TileJob) -> bool {
    match bounds_at(bounds, tile.z) {
        Some(b) => b.holds(tile),
        None => false,
    }
}

/// What `bounds_index` counts: everything before it names another zoom.
pub proof fn lemma_bounds_index(bounds: Seq<TileBounds>, z: u8, i: int)
    requires
        0 <= i <= bounds.len(),
        forall|j: int| 0 <= j < i ==> (#[trigger] bounds[j]).z != z,
        i < bounds.len() ==> bounds[i].z == z,
    ensures
        bounds_index(bounds, z) == i,
    decreases i,
{
    if i > 0 {
        assert(bounds[0].z != z);
        assert forall|j: int| 0 <= j < i - 1 implies (#[trigger] bounds.drop_first()[j]).z != z by {
            assert(bounds[j + 1].z != z);
        }
        lemma_bounds_index(bounds.drop_first(), z, i - 1);
    }
}

/// The entry that `bounds_at` names is for the zoom it was asked for.
pub proof fn lemma_bounds_at(bounds: Seq<TileBounds>, z: u8)
    ensures
        bounds_index(bounds, z) <= bounds.len(),
        bounds_at(bounds, z) matches Some(b) ==> b.z == z,
    decreases bounds.len(),
{
    if bounds.len() > 0 && bounds[0].z != z {
        lemma_bounds_at(bounds.drop_first(), z);
    }
}

/// The bounds of a zoom.
pub fn find_bounds(bounds: &[TileBounds], z: u8) -> (found: Option<TileBounds>)
    ensures
        found == bounds_at(bounds@, z),
{
    let mut i: usize = 0;
    while i < bounds.len()
        invariant
            i <= bounds.len(),
            forall|j: int| 0 <= j < i ==> (#[trigger] bounds@[j]).z != z,
        decreases bounds.len() - i,
    {
        if bounds[i].z == z {
            proof {
                lemma_bounds_index(bounds@, z, i as int);
            }
            return Some(bounds[i]);
        }
        i += 1;
    }
    proof {
        lemma_bounds_index(bounds@, z, i as int);
    }
    None
}

/// The four tiles that cover a tile one zoom deeper.
pub open spec fn children(tile: TileJob) -> Seq<TileJob> {
    let z = (tile.z + 1) as u8;
    let x = tile.x * 2;
    let y = tile.y * 2;
    seq![
        TileJob { z, x: x as u32, y: y as u32 },
        TileJob { z, x: (x + 1) as u32, y: y as u32 },
        TileJob { z, x: x as u32, y: (y + 1) as u32 },
        TileJob { z, x: (x + 1) as u32, y: (y + 1) as u32 },
    ]
}

/// The children that a run visits: none below its last zoom, none outside its bounds.
pub open spec fn children_in_bounds(
    tile: TileJob,
    max_z: u8,
    bounds: Seq<TileBounds>,
) -> Seq<TileJob> {
    if tile.z >= max_z {
        seq![]
    } else {
        children(tile).filter(|child: TileJob| in_bounds(bounds, child))
    }
}

/// Whether the numbers of a tile's children fit, wherever the run has any use for them.
pub open spec fn children_fit(tile: TileJob, max_z: u8, bounds: Seq<TileBounds>) -> bool {
    tile.z < max_z && bounds_at(bounds, (tile.z + 1) as u8) is Some ==> tile.x < 0x8000_0000
        && tile.y < 0x8000_0000
}

/// What filtering the four children leaves, one case for each.
pub proof fn lemma_filter_four(s: Seq<TileJob>, keep: spec_fn(TileJob) -> bool)
    requires
        s.len() == 4,
    ensures
        s.filter(keep) == (if keep(s[0]) {
            seq![s[0]]
        } else {
            seq![]
        }) + (if keep(s[1]) {
            seq![s[1]]
        } else {
            seq![]
        }) + (if keep(s[2]) {
            seq![s[2]]
        } else {
            seq![]
        }) + (if keep(s[3]) {
            seq![s[3]]
        } else {
            seq![]
        }),
{
    reveal_with_fuel(Seq::filter, 5);
    let a = s.drop_last();
    let b = a.drop_last();
    let c = b.drop_last();
    assert(c.drop_last() =~= seq![]);
    assert(c.last() == s[0] && b.last() == s[1] && a.last() == s[2]);
    assert(s.filter(keep) =~= (if keep(s[0]) {
        seq![s[0]]
    } else {
        seq![]
    }) + (if keep(s[1]) {
        seq![s[1]]
    } else {
        seq![]
    }) + (if keep(s[2]) {
        seq![s[2]]
    } else {
        seq![]
    }) + (if keep(s[3]) {
        seq![s[3]]
    } else {
        seq![]
    }));
}

/// Appends the children of a tile that lie within the bounds of their zoom: the left one before
/// the right one, the upper row before the lower one.
pub fn append_children_in_bounds(
    tile: TileJob,
    next_frontier: &mut Vec<TileJob>,
    max_z: u8,
    bounds: &[TileBounds],
)
    requires
        children_fit(tile, max_z, bounds@),
    ensures
        final(next_frontier)@ == old(next_frontier)@ + children_in_bounds(tile, max_z, bounds@),
{
    if tile.z >= max_z {
        return;
    }
    let z: u8 = tile.z + 1;
    let ghost keep = |child: TileJob| in_bounds(bounds@, child);
    proof {
        lemma_filter_four(children(tile), keep);
    }
    let next_bounds = match find_bounds(bounds, z) {
        Some(found) => found,
        None => {
            return;
        },
    };
    let x: u32 = tile.x * 2;
    let y: u32 = tile.y * 2;
    let upper_left = TileJob { z, x, y };
    let upper_right = TileJob { z, x: x + 1, y };
    let lower_left = TileJob { z, x, y: y + 1 };
    let lower_right = TileJob { z, x: x + 1, y: y + 1 };
    if next_bounds.contains(upper_left) {
        next_frontier.push(upper_left);
    }
    if next_bounds.contains(upper_right) {
        next_frontier.push(upper_right);
    }
    if next_bounds.contains(lower_left) {
        next_frontier.push(lower_left);
    }
    if next_bounds.contains(lower_right) {
        next_frontier.push(lower_right);
    }
}

/// How many numbers lie from `lo` to `hi`, both counted.
pub open spec fn span(lo: int, hi: int) -> nat {
    if lo <= hi {
        (hi - lo + 1) as nat
    } else {
        0
    }
}

/// The tiles of one column, from the upper end down.
pub open spec fn column(z: u8, x: int, y0: int, y1: int) -> Seq<TileJob> {
    Seq::new(span(y0, y1), |i: int| TileJob { z, x: x as u32, y: (y0 + i) as u32 })
}

/// The tiles of a rectangle, column after column.
pub open spec fn grid(z: u8, x0: int, x1: int, y0: int, y1: int) -> Seq<TileJob>
    decreases x1 - x0 + 1,
{
    if x0 > x1 {
        seq![]
    } else {
        grid(z, x0, x1 - 1, y0, y1) + column(z, x1, y0, y1)
    }
}

/// A rectangle holds width times height tiles.
pub proof fn lemma_grid_len(z: u8, x0: int, x1: int, y0: int, y1: int)
    ensures
        grid(z, x0, x1, y0, y1).len() == span(x0, x1) * span(y0, y1),
    decreases x1 - x0 + 1,
{
    if x0 <= x1 {
        lemma_grid_len(z, x0, x1 - 1, y0, y1);
        let w = span(x0, x1 - 1);
        let h = span(y0, y1);
        assert((w + 1) * h == w * h + h) by (nonlinear_arith);
    } else {
        assert(0 * span(y0, y1) == 0);
    }
}

/// Appends the tiles of a rectangle, column after column.
fn push_grid(out: &mut Vec<TileJob>, z: u8, x0: u32, x1: u32, y0: u32, y1: u32)
    ensures
        final(out)@ == old(out)@ + grid(z, x0 as int, x1 as int, y0 as int, y1 as int),
{
    let ghost before = out@;
    let mut x: u64 = x0 as u64;
    assert(grid(z, x0 as int, x0 - 1, y0 as int, y1 as int) =~= seq![]);
    while x <= x1 as u64
        invariant
            x0 <= x <= x1 + 1 || (x == x0 && x0 > x1),
            out@ == before + grid(z, x0 as int, x - 1, y0 as int, y1 as int),
        decreases x1 + 1 - x,
    {
        let ghost so_far = out@;
        let mut y: u64 = y0 as u64;
        while y <= y1 as u64
            invariant
                x <= x1,
                y0 <= y <= y1 + 1 || (y == y0 && y0 > y1),
                out@ == so_far + column(z, x as int, y0 as int, y - 1),
            decreases y1 + 1 - y,
        {
            out.push(TileJob { z, x: x as u32, y: y as u32 });
            y += 1;
            assert(out@ =~= so_far + column(z, x as int, y0 as int, y - 1));
        }
        proof {
            assert(column(z, x as int, y0 as int, y - 1) =~= column(
                z,
                x as int,
                y0 as int,
                y1 as int,
            ));
            assert(before + grid(z, x0 as int, x - 1, y0 as int, y1 as int) + column(
                z,
                x as int,
                y0 as int,
                y1 as int,
            ) =~= before + grid(z, x0 as int, x as int, y0 as int, y1 as int));
        }
        x += 1;
    }
    proof {
        if x0 > x1 {
            assert(grid(z, x0 as int, x1 as int, y0 as int, y1 as int) =~= seq![]);
        } else {
            assert(x - 1 == x1);
        }
    }
}

/// The tiles that a run starts from: everything that the area covers at its first zoom.
pub fn initial_frontier(area: TileSpan, z: u8) -> (frontier: Vec<TileJob>)
    ensures
        frontier@ == grid(z, area.x0 as int, area.x1 as int, area.y0 as int, area.y1 as int),
{
    let mut frontier: Vec<TileJob> = Vec::new();
    push_grid(&mut frontier, z, area.x0, area.x1, area.y0, area.y1);
    frontier
}

/// The bounds of an area at a zoom, from the columns and rows that its edges fall into.
pub open spec fn bounds_of(area: TileSpan, z: u8) -> TileBounds {
    TileBounds { z, x0: area.x0, x1: area.x1, y0: area.y0, y1: area.y1 }
}

/// The bounds of an area at a zoom.
pub fn bounds_for_zoom(area: TileSpan, z: u8) -> (bounds: TileBounds)
    ensures
        bounds == bounds_of(area, z),
{
    TileBounds { z, x0: area.x0, x1: area.x1, y0: area.y0, y1: area.y1 }
}

/// The bounds of an area at every zoom of a run, `areas` holding its columns and rows zoom by
/// zoom.
pub fn bounds_by_zoom(areas: &[TileSpan], min_z: u8, max_z: u8) -> (bounds: Vec<TileBounds>)
    requires
        areas@.len() == span(min_z as int, max_z as int),
    ensures
        bounds@ == Seq::new(
            areas@.len(),
            |i: int| bounds_of(areas@[i], (min_z + i) as u8),
        ),
{
    let mut bounds: Vec<TileBounds> = Vec::new();
    let mut i: usize = 0;
    while i < areas.len()
        invariant
            i <= areas.len(),
            areas@.len() == span(min_z as int, max_z as int),
            bounds@ == Seq::new(i as nat, |j: int| bounds_of(areas@[j], (min_z + j) as u8)),
        decreases areas.len() - i,
    {
        bounds.push(bounds_for_zoom(areas[i], min_z + i as u8));
        i += 1;
    }
    bounds
}

/// The first column or row, not before `lo`, that lies below `c` when each tile is `scale` wide.
pub open spec fn first_below(c: int, lo: int, scale: int) -> int {
    if c * scale >= lo {
        c * scale
    } else {
        lo
    }
}

/// The last column or row, not after `hi`, that lies below `c` when each tile is `scale` wide.
pub open spec fn last_below(c: int, hi: int, scale: int) -> int {
    if (c + 1) * scale - 1 <= hi {
        (c + 1) * scale - 1
    } else {
        hi
    }
}

/// The descendants of a tile at one deeper zoom that lie within the bounds of that zoom.
pub open spec fn descendants_at(tile: TileJob, bounds: Seq<TileBounds>, z: u8) -> Seq<TileJob> {
    match bounds_at(bounds, z) {
        Some(b) => {
            let scale = pow2((z - tile.z) as nat) as int;
            grid(
                z,
                first_below(tile.x as int, b.x0 as int, scale),
                last_below(tile.x as int, b.x1 as int, scale),
                first_below(tile.y as int, b.y0 as int, scale),
                last_below(tile.y as int, b.y1 as int, scale),
            )
        },
        None => seq![],
    }
}

/// The descendants of a tile down to a zoom: zoom by zoom, and within one column by column.
pub open spec fn descendants_to(tile: TileJob, bounds: Seq<TileBounds>, z: int) -> Seq<TileJob>
    decreases z - tile.z,
{
    if z <= tile.z {
        seq![]
    } else {
        descendants_to(tile, bounds, z - 1) + descendants_at(tile, bounds, z as u8)
    }
}

/// All descendants of a tile that a run would visit.
pub open spec fn descendants(tile: TileJob, bounds: Seq<TileBounds>, max_z: u8) -> Seq<TileJob> {
    descendants_to(tile, bounds, max_z as int)
}

/// How many descendants a run would visit below a tile.
pub open spec fn descendant_count(tile: TileJob, bounds: Seq<TileBounds>, max_z: u8) -> nat {
    descendants(tile, bounds, max_z).len()
}

/// No bounds below the tile lie more than 31 zooms deeper, so that what they hold of its
/// descendants can be counted in 64 bits.
pub open spec fn depth_fits(tile: TileJob, bounds: Seq<TileBounds>, max_z: u8) -> bool {
    forall|z: u8|
        tile.z < z <= max_z && #[trigger] bounds_at(bounds, z) is Some ==> z - tile.z <= 31
}

/// The width of a rectangle of descendants is at most that of the whole level.
proof fn lemma_below_width(c: int, lo: int, hi: int, scale: int)
    requires
        scale >= 1,
    ensures
        span(first_below(c, lo, scale), last_below(c, hi, scale)) <= scale,
{
    assert((c + 1) * scale == c * scale + scale) by (nonlinear_arith);
}

/// One level of descendants holds at most `4^k` tiles.
pub proof fn lemma_descendants_at_len(tile: TileJob, bounds: Seq<TileBounds>, z: u8)
    requires
        tile.z < z,
    ensures
        descendants_at(tile, bounds, z).len() <= pow2(2 * (z - tile.z) as nat),
{
    let k = (z - tile.z) as nat;
    let scale = pow2(k) as int;
    lemma_pow2_pos(k);
    lemma_pow2_pos(2 * k);
    if let Some(b) = bounds_at(bounds, z) {
        let x0 = first_below(tile.x as int, b.x0 as int, scale);
        let x1 = last_below(tile.x as int, b.x1 as int, scale);
        let y0 = first_below(tile.y as int, b.y0 as int, scale);
        let y1 = last_below(tile.y as int, b.y1 as int, scale);
        lemma_below_width(tile.x as int, b.x0 as int, b.x1 as int, scale);
        lemma_below_width(tile.y as int, b.y0 as int, b.y1 as int, scale);
        lemma_grid_len(z, x0, x1, y0, y1);
        let w = span(x0, x1);
        let h = span(y0, y1);
        assert(w * h <= scale * scale) by (nonlinear_arith)
            requires
                0 <= w <= scale,
                0 <= h <= scale,
        ;
        lemma_pow2_adds(k, k);
    }
}

/// The descendants down to any zoom are fewer than `2^63`.
pub proof fn lemma_descendants_to_len(tile: TileJob, bounds: Seq<TileBounds>, max_z: u8, z: int)
    requires
        tile.z <= z <= max_z,
        depth_fits(tile, bounds, max_z),
    ensures
        descendants_to(tile, bounds, z).len() <= 2 * pow2(
            2 * (if z - tile.z <= 31 {
                z - tile.z
            } else {
                31
            }) as nat,
        ),
        descendants_to(tile, bounds, z).len() <= 0x8000_0000_0000_0000,
    decreases z,
{
    let k = (if z - tile.z <= 31 {
        z - tile.z
    } else {
        31
    }) as nat;
    lemma_pow2_pos(2 * k);
    assert(pow2(2 * k) <= pow2(62)) by {
        if k < 31 {
            lemma_pow2_strictly_increases(2 * k, 62);
        }
    }
    assert(pow2(62) == 0x4000_0000_0000_0000) by {
        lemma2_to64_rest();
    }
    if z > tile.z {
        lemma_descendants_to_len(tile, bounds, max_z, z - 1);
        let zz = z as u8;
        if bounds_at(bounds, zz) is Some {
            assert(zz - tile.z <= 31);
            lemma_descendants_at_len(tile, bounds, zz);
            lemma_pow2_unfold(2 * k);
            lemma_pow2_unfold((2 * k - 1) as nat);
            assert((2 * k - 2) as nat == 2 * (k - 1) as nat);
        } else if z - tile.z <= 31 {
            lemma_pow2_strictly_increases(2 * (k - 1) as nat, 2 * k);
        }
    }
}

/// The part of a tile's descendants at one zoom that the bounds leave: first and last column, first
/// and last row. Where it is empty, one of the pairs is out of order.
fn descend_window(tile: TileJob, level: TileBounds) -> (window: (u64, u64, u64, u64))
    requires
        tile.z < level.z,
        level.z - tile.z <= 31,
    ensures
        ({
            let scale = pow2((level.z - tile.z) as nat) as int;
            &&& window.0 == first_below(tile.x as int, level.x0 as int, scale)
            &&& window.1 == last_below(tile.x as int, level.x1 as int, scale)
            &&& window.2 == first_below(tile.y as int, level.y0 as int, scale)
            &&& window.3 == last_below(tile.y as int, level.y1 as int, scale)
        }),
{
    let depth: u64 = (level.z - tile.z) as u64;
    let scale: u64 = 1u64 << depth;
    proof {
        vstd::bits::lemma_u64_pow2_no_overflow(depth as nat);
        vstd::bits::lemma_u64_shl_is_mul(1, depth);
        if depth < 31 {
            lemma_pow2_strictly_increases(depth as nat, 31);
        }
        lemma2_to64();
        assert(1 <= scale <= 0x8000_0000);
        let x = tile.x as int;
        let y = tile.y as int;
        assert(0 <= x * scale && (x + 1) * scale <= 0x1_0000_0000 * 0x8000_0000 && (x + 1) * scale
            >= scale) by (nonlinear_arith)
            requires
                0 <= x <= 0xffff_ffff,
                1 <= scale <= 0x8000_0000,
        ;
        assert(0 <= y * scale && (y + 1) * scale <= 0x1_0000_0000 * 0x8000_0000 && (y + 1) * scale
            >= scale) by (nonlinear_arith)
            requires
                0 <= y <= 0xffff_ffff,
                1 <= scale <= 0x8000_0000,
        ;
        assert(x * scale <= (x + 1) * scale && y * scale <= (y + 1) * scale) by (nonlinear_arith)
            requires
                scale >= 1,
        ;
    }
    let x0: u64 = tile.x as u64 * scale;
    let x1: u64 = (tile.x as u64 + 1) * scale - 1;
    let y0: u64 = tile.y as u64 * scale;
    let y1: u64 = (tile.y as u64 + 1) * scale - 1;
    let ix0: u64 = if x0 >= level.x0 as u64 {
        x0
    } else {
        level.x0 as u64
    };
    let ix1: u64 = if x1 <= level.x1 as u64 {
        x1
    } else {
        level.x1 as u64
    };
    let iy0: u64 = if y0 >= level.y0 as u64 {
        y0
    } else {
        level.y0 as u64
    };
    let iy1: u64 = if y1 <= level.y1 as u64 {
        y1
    } else {
        level.y1 as u64
    };
    (ix0, ix1, iy0, iy1)
}

/// How many descendants a run would visit below a tile.
pub fn bounded_descendant_count(tile: TileJob, bounds: &[TileBounds], max_z: u8) -> (count: u64)
    requires
        depth_fits(tile, bounds@, max_z),
    ensures
        count == descendant_count(tile, bounds@, max_z),
{
    if tile.z >= max_z {
        return 0;
    }
    let mut total: u64 = 0;
    let mut z: u8 = tile.z;
    while z < max_z
        invariant
            tile.z <= z <= max_z,
            depth_fits(tile, bounds@, max_z),
            total == descendants_to(tile, bounds@, z as int).len(),
        decreases max_z - z,
    {
        z += 1;
        proof {
            lemma_descendants_to_len(tile, bounds@, max_z, z as int);
            lemma_bounds_at(bounds@, z);
        }
        if let Some(level) = find_bounds(bounds, z) {
            assert(bounds_at(bounds@, z) is Some);
            let (x0, x1, y0, y1) = descend_window(tile, level);
            proof {
                lemma_grid_len(z, x0 as int, x1 as int, y0 as int, y1 as int);
                assert(span(x0 as int, x1 as int) * 0 == 0) by (nonlinear_arith);
                assert(0 * span(y0 as int, y1 as int) == 0) by (nonlinear_arith);
            }
            if x0 <= x1 && y0 <= y1 {
                total += (x1 - x0 + 1) * (y1 - y0 + 1);
            }
        }
    }
    total
}

/// The descendants that a run would visit below a tile: zoom by zoom, and within one column by
/// column.
pub fn bounded_descendants(tile: TileJob, bounds: &[TileBounds], max_z: u8) -> (found: Vec<TileJob>)
    requires
        depth_fits(tile, bounds@, max_z),
    ensures
        found@ == descendants(tile, bounds@, max_z),
{
    let mut found: Vec<TileJob> = Vec::new();
    if tile.z >= max_z {
        return found;
    }
    let mut z: u8 = tile.z;
    while z < max_z
        invariant
            tile.z <= z <= max_z,
            depth_fits(tile, bounds@, max_z),
            found@ == descendants_to(tile, bounds@, z as int),
        decreases max_z - z,
    {
        z += 1;
        proof {
            lemma_bounds_at(bounds@, z);
        }
        if let Some(level) = find_bounds(bounds, z) {
            assert(bounds_at(bounds@, z) is Some);
            let (x0, x1, y0, y1) = descend_window(tile, level);
            if x0 <= x1 && y0 <= y1 {
                push_grid(&mut found, z, x0 as u32, x1 as u32, y0 as u32, y1 as u32);
            } else {
                proof {
                    lemma_grid_len(z, x0 as int, x1 as int, y0 as int, y1 as int);
                    assert(span(x0 as int, x1 as int) * 0 == 0) by (nonlinear_arith);
                    assert(0 * span(y0 as int, y1 as int) == 0) by (nonlinear_arith);
                    assert(descendants_at(tile, bounds@, z) =~= seq![]);
                }
            }
        }
    }
    found
}

/// The numbers of a tile, in the order in which they are written.
pub open spec fn tile_numbers(tile: TileJob) -> Seq<nat> {
    seq![tile.z as nat, tile.x as nat, tile.y as nat]
}

/// The name of a tile's file: its numbers with underscores between them.
pub open spec fn filename(tile: TileJob) -> Seq<char> {
    text::separated(text::decimals(tile_numbers(tile)), '_')
}

/// The tile whose three numbers some texts give.
pub open spec fn tile_from_parts(parts: Seq<Seq<char>>) -> Option<TileJob> {
    let z = text::parsed(parts[0], u8::MAX as nat);
    let x = text::parsed(parts[1], u32::MAX as nat);
    let y = text::parsed(parts[2], u32::MAX as nat);
    if z is Some && x is Some && y is Some {
        Some(TileJob { z: z->0 as u8, x: x->0 as u32, y: y->0 as u32 })
    } else {
        None
    }
}

/// The tile that a file name stands for, if it is three numbers with underscores between them.
pub open spec fn parsed_filename(name: Seq<char>) -> Option<TileJob> {
    let parts = text::pieces(name, '_');
    if parts.len() == 3 {
        tile_from_parts(parts)
    } else {
        None
    }
}

/// How the name of a tile's file begins and goes on.
pub proof fn lemma_three_separated(a: Seq<char>, b: Seq<char>, c: Seq<char>, sep: char)
    ensures
        text::separated(seq![a, b, c], sep) == (a.push(sep) + b).push(sep) + c,
{
    let all = seq![a, b, c];
    assert(all.drop_last() =~= seq![a, b]);
    assert(seq![a, b].drop_last() =~= seq![a]);
    reveal_with_fuel(text::separated, 3);
}

/// Reads back the tile of a file name.
pub fn parse_tile_filename(name: &str) -> (tile: Option<TileJob>)
    ensures
        tile == parsed_filename(name@),
{
    let chars = text::chars_of(name);
    let parts = text::split_pieces(chars.as_slice(), '_');
    assert(text::contents(parts@).len() == parts@.len());
    if parts.len() != 3 {
        return None;
    }
    assert(text::contents(parts@)[0] == parts@[0]@);
    assert(text::contents(parts@)[1] == parts@[1]@);
    assert(text::contents(parts@)[2] == parts@[2]@);
    let z: u64 = match text::parse_number(parts[0].as_slice(), u8::MAX as u64) {
        Some(n) => n,
        None => {
            return None;
        },
    };
    let x: u64 = match text::parse_number(parts[1].as_slice(), u32::MAX as u64) {
        Some(n) => n,
        None => {
            return None;
        },
    };
    let y: u64 = match text::parse_number(parts[2].as_slice(), u32::MAX as u64) {
        Some(n) => n,
        None => {
            return None;
        },
    };
    Some(TileJob { z: z as u8, x: x as u32, y: y as u32 })
}

/// The name of a tile's file.
pub fn tile_filename(tile: TileJob) -> (name: String)
    ensures
        name@ == filename(tile),
{
    let mut name: String = String::new();
    text::push_number(&mut name, tile.z as u64);
    name.append("_");
    text::push_number(&mut name, tile.x as u64);
    name.append("_");
    text::push_number(&mut name, tile.y as u64);
    proof {
        reveal_strlit("_");
        assert(text::decimals(tile_numbers(tile)) =~= seq![
            text::decimal(tile.z as nat),
            text::decimal(tile.x as nat),
            text::decimal(tile.y as nat),
        ]);
        lemma_three_separated(
            text::decimal(tile.z as nat),
            text::decimal(tile.x as nat),
            text::decimal(tile.y as nat),
            '_',
        );
        assert(name@ =~= filename(tile));
    }
    name
}

/// The numbers of a tile are read back from their digits.
pub proof fn lemma_tile_from_digits(tile: TileJob)
    ensures
        tile_from_parts(text::decimals(tile_numbers(tile))) == Some(tile),
{
    text::law_decimal_parses(tile.z as nat, u8::MAX as nat);
    text::law_decimal_parses(tile.x as nat, u32::MAX as nat);
    text::law_decimal_parses(tile.y as nat, u32::MAX as nat);
}

/// The name of a tile's file gives the tile back.
pub proof fn law_filename_reads_back(tile: TileJob)
    ensures
        parsed_filename(filename(tile)) == Some(tile),
{
    text::lemma_decimals_pieces(tile_numbers(tile), '_');
    lemma_tile_from_digits(tile);
}

/// Bounds hold the tiles of their zoom from their first to their last column and row.
pub proof fn law_bounds_hold_both_ends(bounds: TileBounds, tile: TileJob, r: bool)
    requires
        call_ensures(TileBounds::contains, (&bounds, tile), r),
    ensures
        r <==> tile.z == bounds.z && bounds.x0 <= tile.x && tile.x <= bounds.x1 && bounds.y0
            <= tile.y && tile.y <= bounds.y1,
{
}

/// Two tiles whose columns and rows are less than 2^29 never share a key.
pub proof fn law_keys_tell_tiles_apart(a: TileJob, b: TileJob, key: u64)
    requires
        call_ensures(tile_key, (a,), key),
        call_ensures(tile_key, (b,), key),
        a.z < 64 && a.x < 0x2000_0000 && a.y < 0x2000_0000,
        b.z < 64 && b.x < 0x2000_0000 && b.y < 0x2000_0000,
    ensures
        a == b,
{
    law_tile_key_injective(a, b);
}

/// The key of a tile has its zoom, its column and its row side by side, from bits 58, 29 and 0.
pub proof fn law_key_by_its_bits(tile: TileJob, key: u64)
    requires
        call_ensures(tile_key, (tile,), key),
        tile.z < 64 && tile.x < 0x2000_0000 && tile.y < 0x2000_0000,
    ensures
        key == tile.z * 0x400_0000_0000_0000 + tile.x * 0x2000_0000 + tile.y,
{
    let z: u64 = tile.z as u64;
    let x: u64 = tile.x as u64;
    let y: u64 = tile.y as u64;
    assert((z << 58) | (x << 29) | y == z * 0x400_0000_0000_0000 + x * 0x2000_0000 + y)
        by (bit_vector)
        requires
            z < 64,
            x < 0x2000_0000,
            y < 0x2000_0000,
    ;
    assert(z * 0x400_0000_0000_0000 + x * 0x2000_0000 + y <= u64::MAX);
}

/// What is found for a zoom is the first entry of that zoom; nothing is found only where there is
/// none.
pub proof fn law_bounds_are_found(bounds: &[TileBounds], z: u8, found: Option<TileBounds>, i: int)
    requires
        call_ensures(find_bounds, (bounds, z), found),
        0 <= i < bounds@.len(),
        bounds@[i].z == z,
        forall|j: int| 0 <= j < i ==> (#[trigger] bounds@[j]).z != z,
    ensures
        found == Some(bounds@[i]),
{
    lemma_bounds_index(bounds@, z, i);
}

/// For a zoom that no entry is of, nothing is found.
pub proof fn law_no_bounds_no_zoom(bounds: &[TileBounds], z: u8, found: Option<TileBounds>)
    requires
        call_ensures(find_bounds, (bounds, z), found),
        forall|j: int| 0 <= j < bounds@.len() ==> (#[trigger] bounds@[j]).z != z,
    ensures
        found is None,
{
    lemma_bounds_index(bounds@, z, bounds@.len() as int);
}

/// A tile is within bounds exactly if what is found for its zoom has its column and its row.
pub proof fn law_within_what_is_found(
    bounds: &[TileBounds],
    tile: TileJob,
    found: Option<TileBounds>,
)
    requires
        call_ensures(find_bounds, (bounds, tile.z), found),
    ensures
        in_bounds(bounds@, tile) <==> (found matches Some(b) && b.x0 <= tile.x && tile.x <= b.x1
            && b.y0 <= tile.y && tile.y <= b.y1),
{
    lemma_bounds_at(bounds@, tile.z);
}

/// The bounds of each zoom are the columns and rows of the area at that zoom.
pub proof fn law_bounds_zoom_by_zoom(
    areas: &[TileSpan],
    min_z: u8,
    max_z: u8,
    bounds: Vec<TileBounds>,
    i: int,
    one: TileBounds,
)
    requires
        call_ensures(bounds_by_zoom, (areas, min_z, max_z), bounds),
        min_z <= max_z,
        areas@.len() == max_z - min_z + 1,
        0 <= i < areas@.len(),
        call_ensures(bounds_for_zoom, (areas@[i], (min_z + i) as u8), one),
    ensures
        bounds@.len() == areas@.len(),
        bounds@[i] == one,
        one.z == min_z + i,
        one.x0 == areas@[i].x0 && one.x1 == areas@[i].x1,
        one.y0 == areas@[i].y0 && one.y1 == areas@[i].y1,
{
}

/// The name of a tile's file is its zoom, its column and its row in digits, with underscores
/// between them, and is read as that tile again.
pub proof fn law_name_gives_zoom_column_row(
    tile: TileJob,
    name: String,
    z: String,
    x: String,
    y: String,
    again: &str,
    read: Option<TileJob>,
)
    requires
        call_ensures(tile_filename, (tile,), name),
        call_ensures(text::number_text, (tile.z as u64,), z),
        call_ensures(text::number_text, (tile.x as u64,), x),
        call_ensures(text::number_text, (tile.y as u64,), y),
        again@ == name@,
        call_ensures(parse_tile_filename, (again,), read),
    ensures
        name@ == z@ + seq!['_'] + x@ + seq!['_'] + y@,
        read == Some(tile),
{
    assert(text::decimals(tile_numbers(tile)) =~= seq![z@, x@, y@]);
    lemma_three_separated(z@, x@, y@, '_');
    assert((z@.push('_') + x@).push('_') + y@ =~= z@ + seq!['_'] + x@ + seq!['_'] + y@);
    law_filename_reads_back(tile);
}

/// A name is that of a tile exactly if it has three pieces between underscores, which are read as
/// its zoom, its column and its row.
pub proof fn law_name_is_read_piece_by_piece(
    name: &str,
    read: Option<TileJob>,
    chars: &[char],
    pieces: Vec<Vec<char>>,
    z: Option<u64>,
    x: Option<u64>,
    y: Option<u64>,
    a: &[char],
    b: &[char],
    c: &[char],
)
    requires
        call_ensures(parse_tile_filename, (name,), read),
        chars@ == name@,
        call_ensures(text::split_pieces, (chars, '_'), pieces),
        pieces@.len() == 3 ==> a@ == pieces@[0]@ && b@ == pieces@[1]@ && c@ == pieces@[2]@,
        call_ensures(text::parse_number, (a, 255u64), z),
        call_ensures(text::parse_number, (b, 0xffff_ffffu64), x),
        call_ensures(text::parse_number, (c, 0xffff_ffffu64), y),
    ensures
        pieces@.len() != 3 ==> read is None,
        pieces@.len() == 3 ==> (read is Some <==> z is Some && x is Some && y is Some),
        pieces@.len() == 3 ==> (read matches Some(tile) ==> z == Some(tile.z as u64) && x == Some(
            tile.x as u64,
        ) && y == Some(tile.y as u64)),
{
    let parts = text::contents(pieces@);
    assert(parts.len() == pieces@.len());
    if pieces@.len() == 3 {
        assert(parts[0] == a@ && parts[1] == b@ && parts[2] == c@);
    }
}

/// The key of any tile is its zoom, its column and its row, moved to bits 58, 29 and 0.
pub proof fn law_key_is_three_numbers(tile: TileJob, key: u64)
    requires
        call_ensures(tile_key, (tile,), key),
    ensures
        key == ((tile.z as u64) << 58) | ((tile.x as u64) << 29) | (tile.y as u64),
{
}

} // verus!
