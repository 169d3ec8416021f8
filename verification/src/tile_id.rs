//! The numbers by which a PMTiles archive orders and finds its tiles.

use vstd::arithmetic::power2::*;
use vstd::prelude::*;

use crate::frontier::TileJob;

verus! {

/// The errors of the `pmtiles` crate, carried through unread.
#[verifier::external_type_specification]
#[verifier::external_body]
pub struct ExPmtError(pmtiles::PmtError);

/// Whether a tile exists: its zoom is at most 31, its column and row lie within that zoom.
pub open spec fn exists_tile(tile: TileJob) -> bool {
    &&& tile.z <= 31
    &&& tile.x < pow2(tile.z as nat)
    &&& tile.y < pow2(tile.z as nat)
}

/// How many tiles there are at the zooms before `z`.
pub open spec fn tiles_before(z: nat) -> nat
    decreases z,
{
    if z == 0 {
        0
    } else {
        tiles_before((z - 1) as nat) + pow2(2 * (z - 1) as nat)
    }
}

/// The place of a tile along the Hilbert curve of its zoom. The curve goes through the quarters
/// upper left, lower left, lower right and upper right. In the first it is mirrored at the
/// falling diagonal, in the last at the rising one.
pub open spec fn hilbert(z: nat, x: int, y: int) -> int
    decreases z,
{
    if z == 0 {
        0
    } else {
        let finer = (z - 1) as nat;
        let half = pow2(finer) as int;
        if x < half && y < half {
            hilbert(finer, y, x)
        } else if x < half {
            half * half + hilbert(finer, x, y - half)
        } else if y >= half {
            2 * (half * half) + hilbert(finer, x - half, y - half)
        } else {
            3 * (half * half) + hilbert(finer, half - 1 - y, 2 * half - 1 - x)
        }
    }
}

/// The id of a tile in an archive: its place along the Hilbert curve of its zoom, after all tiles
/// of lesser zooms.
pub open spec fn id_of(tile: TileJob) -> u64 {
    (tiles_before(tile.z as nat) + hilbert(tile.z as nat, tile.x as int, tile.y as int)) as u64
}

/// `pmtiles::TileCoord::new` followed by `pmtiles::TileId::from` and `value`. It fails exactly for
/// a zoom over 31 and for a column or row that the zoom does not have. Otherwise it gives the
/// number of tiles of lesser zooms and, on top of that, the tile's place along the Hilbert curve.
#[verifier::external_body]
fn archive_tile_id(z: u8, x: u32, y: u32) -> (id: Result<u64, pmtiles::PmtError>)
    ensures
        id is Ok <==> exists_tile(TileJob { z, x, y }),
        id matches Ok(v) ==> v == tiles_before(z as nat) + hilbert(z as nat, x as int, y as int),
{
    Ok(pmtiles::TileId::from(pmtiles::TileCoord::new(z, x, y)?).value())
}

/// Why a tile has no id.
#[derive(Clone, Copy, Debug, PartialEq, Eq, Structural)]
pub enum TileIdError {
    NoSuchTile { tile: TileJob },
}

/// What holds of the id of a tile that exists: it lies between the number of tiles of the lesser
/// zooms and that number for the next zoom, and no other tile has it.
pub open spec fn id_known(tile: TileJob) -> bool {
    &&& exists_tile(tile)
    &&& tiles_before(tile.z as nat) <= id_of(tile) < tiles_before((tile.z + 1) as nat)
    &&& forall|other: TileJob|
        exists_tile(other) && #[trigger] id_of(other) == id_of(tile) ==> other == tile
}

/// The id of a tile in an archive.
pub fn pmtiles_tile_id(tile: TileJob) -> (id: Result<u64, TileIdError>)
    ensures
        id == (if exists_tile(tile) {
            Ok::<u64, TileIdError>(id_of(tile))
        } else {
            Err::<u64, TileIdError>(TileIdError::NoSuchTile { tile })
        }),
        id is Ok ==> id_known(tile),
{
    proof {
        if exists_tile(tile) {
            law_ids_known(tile);
        }
    }
    match archive_tile_id(tile.z, tile.x, tile.y) {
        Ok(id) => Ok(id),
        Err(_) => Err(TileIdError::NoSuchTile { tile }),
    }
}

/// The halves and quarters of a zoom.
proof fn lemma_half(z: nat)
    requires
        z > 0,
    ensures
        pow2((z - 1) as nat) >= 1,
        pow2(z) == 2 * pow2((z - 1) as nat),
        pow2(z) * pow2(z) == 4 * (pow2((z - 1) as nat) * pow2((z - 1) as nat)),
{
    let half = pow2((z - 1) as nat) as int;
    lemma_pow2_pos((z - 1) as nat);
    lemma_pow2_unfold(z);
    assert((2 * half) * (2 * half) == 4 * (half * half)) by (nonlinear_arith);
}

/// Places lie within the tiles of the zoom.
proof fn lemma_hilbert_range(z: nat, x: int, y: int)
    requires
        0 <= x < pow2(z),
        0 <= y < pow2(z),
    ensures
        0 <= hilbert(z, x, y) < pow2(z) * pow2(z),
    decreases z,
{
    if z == 0 {
        lemma2_to64();
    } else {
        lemma_half(z);
        let finer = (z - 1) as nat;
        let half = pow2(finer) as int;
        if x < half && y < half {
            lemma_hilbert_range(finer, y, x);
        } else if x < half {
            lemma_hilbert_range(finer, x, y - half);
        } else if y >= half {
            lemma_hilbert_range(finer, x - half, y - half);
        } else {
            lemma_hilbert_range(finer, half - 1 - y, 2 * half - 1 - x);
        }
    }
}

/// The quarter that a tile lies in, and where in that quarter the curve takes it to lie.
spec fn quarter(z: nat, x: int, y: int) -> (int, int, int) {
    let half = pow2((z - 1) as nat) as int;
    if x < half && y < half {
        (0, y, x)
    } else if x < half {
        (1, x, y - half)
    } else if y >= half {
        (2, x - half, y - half)
    } else {
        (3, half - 1 - y, 2 * half - 1 - x)
    }
}

proof fn lemma_quarter(z: nat, x: int, y: int)
    requires
        z > 0,
        0 <= x < pow2(z),
        0 <= y < pow2(z),
    ensures
        ({
            let (q, u, v) = quarter(z, x, y);
            let half = pow2((z - 1) as nat) as int;
            &&& 0 <= u < half
            &&& 0 <= v < half
            &&& 0 <= hilbert((z - 1) as nat, u, v) < half * half
            &&& hilbert(z, x, y) == q * (half * half) + hilbert((z - 1) as nat, u, v)
        }),
{
    lemma_half(z);
    let (q, u, v) = quarter(z, x, y);
    lemma_hilbert_range((z - 1) as nat, u, v);
    if q == 0 {
        let half = pow2((z - 1) as nat) as int;
        assert(0 * (half * half) == 0);
    }
}

/// Two tiles of a zoom never have the same place.
proof fn lemma_hilbert_injective(z: nat, ax: int, ay: int, bx: int, by: int)
    requires
        0 <= ax < pow2(z),
        0 <= ay < pow2(z),
        0 <= bx < pow2(z),
        0 <= by < pow2(z),
        hilbert(z, ax, ay) == hilbert(z, bx, by),
    ensures
        ax == bx,
        ay == by,
    decreases z,
{
    if z == 0 {
        lemma2_to64();
    } else {
        lemma_quarter(z, ax, ay);
        lemma_quarter(z, bx, by);
        let (q, u, v) = quarter(z, ax, ay);
        let (p, s, t) = quarter(z, bx, by);
        let half = pow2((z - 1) as nat) as int;
        let n = half * half;
        if q < p {
            assert((q + 1) * n <= p * n) by (nonlinear_arith)
                requires
                    q + 1 <= p,
                    n >= 0,
            ;
            assert((q + 1) * n == q * n + n) by (nonlinear_arith);
        }
        if p < q {
            assert((p + 1) * n <= q * n) by (nonlinear_arith)
                requires
                    p + 1 <= q,
                    n >= 0,
            ;
            assert((p + 1) * n == p * n + n) by (nonlinear_arith);
        }
        assert(q == p);
        lemma_hilbert_injective((z - 1) as nat, u, v, s, t);
    }
}

/// How many tiles there are before a zoom, in closed form.
proof fn lemma_tiles_before(z: nat)
    ensures
        3 * tiles_before(z) + 1 == pow2(2 * z),
        tiles_before(z + 1) == tiles_before(z) + pow2(z) * pow2(z),
    decreases z,
{
    lemma_pow2_adds(z, z);
    assert(z + z == 2 * z);
    if z == 0 {
        lemma2_to64();
    } else {
        lemma_tiles_before((z - 1) as nat);
        lemma_pow2_unfold(2 * z);
        lemma_pow2_unfold((2 * z - 1) as nat);
    }
}

/// An id is the number that it is said to be.
proof fn lemma_id_fits(tile: TileJob)
    requires
        exists_tile(tile),
    ensures
        id_of(tile) == tiles_before(tile.z as nat) + hilbert(
            tile.z as nat,
            tile.x as int,
            tile.y as int,
        ),
        tiles_before(tile.z as nat) <= id_of(tile) < tiles_before((tile.z + 1) as nat),
{
    let z = tile.z as nat;
    lemma_hilbert_range(z, tile.x as int, tile.y as int);
    lemma_tiles_before(z);
    lemma_tiles_before(z + 1);
    if z + 1 < 32 {
        lemma_pow2_strictly_increases(2 * (z + 1), 64);
    }
    lemma2_to64();
    lemma_pow2_adds(32, 32);
    assert(0x1_0000_0000 * 0x1_0000_0000 == 0x1_0000_0000_0000_0000int) by (nonlinear_arith);
}

/// The ids of a zoom come after those of lesser zooms, and no two tiles share one.
pub proof fn law_ids_known(tile: TileJob)
    requires
        exists_tile(tile),
    ensures
        id_known(tile),
{
    lemma_id_fits(tile);
    assert forall|other: TileJob|
        exists_tile(other) && #[trigger] id_of(other) == id_of(tile) implies other == tile by {
        lemma_id_fits(other);
        if other.z < tile.z {
            lemma_tiles_before_grows((other.z + 1) as nat, tile.z as nat);
        }
        if tile.z < other.z {
            lemma_tiles_before_grows((tile.z + 1) as nat, other.z as nat);
        }
        lemma_hilbert_injective(
            tile.z as nat,
            other.x as int,
            other.y as int,
            tile.x as int,
            tile.y as int,
        );
    }
}

/// The tiles of a lesser zoom come first.
pub proof fn lemma_tiles_before_grows(a: nat, b: nat)
    requires
        a <= b,
    ensures
        tiles_before(a) <= tiles_before(b),
    decreases b,
{
    if a < b {
        lemma_tiles_before_grows(a, (b - 1) as nat);
    }
}

/// A tile of a lesser zoom has a lesser id.
pub proof fn law_lesser_zoom_lesser_id(a: TileJob, b: TileJob)
    requires
        exists_tile(a),
        exists_tile(b),
        a.z < b.z,
    ensures
        id_of(a) < id_of(b),
{
    lemma_id_fits(a);
    lemma_id_fits(b);
    lemma_tiles_before_grows((a.z + 1) as nat, b.z as nat);
}

/// Two tiles never share an id.
pub proof fn law_ids_distinct(a: TileJob, b: TileJob)
    requires
        exists_tile(a),
        exists_tile(b),
        id_of(a) == id_of(b),
    ensures
        a == b,
{
    law_ids_known(a);
}

/// Where the curve begins and ends.
proof fn lemma_hilbert_ends(z: nat)
    ensures
        hilbert(z, 0, 0) == 0,
        hilbert(z, pow2(z) - 1, 0) == pow2(z) * pow2(z) - 1,
    decreases z,
{
    if z == 0 {
        lemma2_to64();
    } else {
        lemma_half(z);
        lemma_hilbert_ends((z - 1) as nat);
    }
}

/// Tiles in a row on the curve lie side by side.
proof fn lemma_hilbert_neighbours(z: nat, ax: int, ay: int, bx: int, by: int)
    requires
        0 <= ax < pow2(z),
        0 <= ay < pow2(z),
        0 <= bx < pow2(z),
        0 <= by < pow2(z),
        hilbert(z, bx, by) == hilbert(z, ax, ay) + 1,
    ensures
        (ax == bx && (ay == by + 1 || by == ay + 1)) || (ay == by && (ax == bx + 1 || bx == ax
            + 1)),
    decreases z,
{
    if z > 0 {
        let finer = (z - 1) as nat;
        lemma_half(z);
        lemma_quarter(z, ax, ay);
        lemma_quarter(z, bx, by);
        lemma_hilbert_ends(finer);
        let (q, u, v) = quarter(z, ax, ay);
        let (p, s, t) = quarter(z, bx, by);
        let half = pow2(finer) as int;
        let n = half * half;
        if q == p {
            lemma_hilbert_neighbours(finer, u, v, s, t);
        } else {
            if q < p - 1 {
                assert((q + 2) * n <= p * n) by (nonlinear_arith)
                    requires
                        q + 2 <= p,
                        n >= 0,
                ;
                assert((q + 2) * n == q * n + 2 * n) by (nonlinear_arith);
            }
            if p < q {
                assert((p + 1) * n <= q * n) by (nonlinear_arith)
                    requires
                        p + 1 <= q,
                        n >= 0,
                ;
                assert((p + 1) * n == p * n + n) by (nonlinear_arith);
            }
            assert(p == q + 1);
            assert((q + 1) * n == q * n + n) by (nonlinear_arith);
            lemma_hilbert_injective(finer, u, v, half - 1, 0);
            lemma_hilbert_injective(finer, s, t, 0, 0);
        }
    }
}

/// Of two tiles of a zoom whose ids follow each other, one lies right beside the other.
pub proof fn law_next_id_is_next_door(a: TileJob, b: TileJob)
    requires
        exists_tile(a),
        exists_tile(b),
        a.z == b.z,
        id_of(b) == id_of(a) + 1,
    ensures
        (a.x == b.x && (a.y == b.y + 1 || b.y == a.y + 1)) || (a.y == b.y && (a.x == b.x + 1 || b.x
            == a.x + 1)),
{
    lemma_id_fits(a);
    lemma_id_fits(b);
    lemma_hilbert_neighbours(a.z as nat, a.x as int, a.y as int, b.x as int, b.y as int);
}

/// A quarter of a place is the place of the parent.
proof fn lemma_hilbert_parent(z: nat, x: int, y: int)
    requires
        z > 0,
        0 <= x < pow2(z),
        0 <= y < pow2(z),
    ensures
        hilbert(z, x, y) / 4 == hilbert((z - 1) as nat, x / 2, y / 2),
    decreases z,
{
    let finer = (z - 1) as nat;
    lemma_half(z);
    lemma_quarter(z, x, y);
    let (q, u, v) = quarter(z, x, y);
    if finer == 0 {
        lemma2_to64();
        assert(q * (1 * 1) == q) by (nonlinear_arith);
    } else {
        lemma_half(finer);
        lemma_quarter(finer, x / 2, y / 2);
        lemma_hilbert_parent(finer, u, v);
        let half = pow2(finer) as int;
        let n = pow2((finer - 1) as nat) as int * pow2((finer - 1) as nat) as int;
        assert(quarter(finer, x / 2, y / 2) == (q, u / 2, v / 2));
        assert(q * (4 * n) == 4 * (q * n)) by (nonlinear_arith);
    }
}

/// The four tiles below a tile stand in a row in the archive, in the place that the tile has among
/// those of its own zoom.
pub proof fn law_children_stand_together(tile: TileJob, child: TileJob)
    requires
        exists_tile(tile),
        exists_tile(child),
        child.z == tile.z + 1,
        child.x / 2 == tile.x,
        child.y / 2 == tile.y,
    ensures
        (id_of(child) - tiles_before(child.z as nat)) / 4 == id_of(tile) - tiles_before(
            tile.z as nat,
        ),
{
    lemma_id_fits(tile);
    lemma_id_fits(child);
    lemma_hilbert_parent(child.z as nat, child.x as int, child.y as int);
}

/// A tile has an id exactly if its zoom is at most 31 and has its column and row. The id is the
/// number of tiles of lesser zooms and the place of the tile on the curve of its zoom.
pub proof fn law_ids_of_tiles_that_exist(tile: TileJob, id: Result<u64, TileIdError>)
    requires
        call_ensures(pmtiles_tile_id, (tile,), id),
    ensures
        id is Ok <==> tile.z <= 31 && tile.x < pow2(tile.z as nat) && tile.y < pow2(tile.z as nat),
        id matches Ok(v) ==> 3 * (v - hilbert(tile.z as nat, tile.x as int, tile.y as int)) + 1
            == pow2(2 * tile.z as nat),
        id matches Err(e) ==> e == (TileIdError::NoSuchTile { tile }),
{
    if exists_tile(tile) {
        lemma_id_fits(tile);
        lemma_tiles_before(tile.z as nat);
    }
}

/// The id of a tile comes after all ids of lesser zooms, and no other tile has it. The next id at
/// the same zoom is that of a tile right beside it.
pub proof fn law_ids_along_the_curve(
    a: TileJob,
    b: TileJob,
    u: u64,
    v: u64,
)
    requires
        call_ensures(pmtiles_tile_id, (a,), Ok::<u64, TileIdError>(u)),
        call_ensures(pmtiles_tile_id, (b,), Ok::<u64, TileIdError>(v)),
    ensures
        u == v ==> a == b,
        a.z < b.z ==> u < v,
        a.z == b.z && v == u + 1 ==> (a.x == b.x && (a.y == b.y + 1 || b.y == a.y + 1)) || (a.y
            == b.y && (a.x == b.x + 1 || b.x == a.x + 1)),
{
    if u == v {
        law_ids_distinct(a, b);
    }
    if a.z < b.z {
        law_lesser_zoom_lesser_id(a, b);
    }
    if a.z == b.z && v == u + 1 {
        law_next_id_is_next_door(a, b);
    }
}

} // verus!
