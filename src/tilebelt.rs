use vstd::arithmetic::div_mod::{lemma_div_denominator, lemma_mod_breakdown, lemma_basic_div, lemma_mod_pos_bound};
use vstd::arithmetic::power2::{lemma_pow2_adds, lemma_pow2_pos, lemma_pow2_strictly_increases, pow2, lemma2_to64};
use vstd::bits::{lemma_u32_shl_is_mul, lemma_u32_shr_is_div};
use vstd::prelude::*;

verus! {

/// A tile address in order x, y, z.
pub type Tile = (u32, u32, u32);

/// A tile together with its (shared, immutable) payload.
pub struct TileData {
    pub tile: Tile,
    pub data: std::sync::Arc<Vec<u8>>,
}

impl Clone for TileData {
    /// Shares the payload: only the reference count changes.
    fn clone(&self) -> (r: TileData)
        ensures
            r.tile == self.tile,
            r.data == self.data,
    {
        TileData { tile: self.tile, data: std::sync::Arc::clone(&self.data) }
    }
}

/// A tile is valid when both coordinates lie in `[0, 2^z)` and `z` is small
/// enough for the coordinates of every level to fit in a `u32`.
pub open spec fn valid_tile(t: Tile) -> bool {
    &&& t.2 <= 32
    &&& (t.0 as nat) < pow2(t.2 as nat)
    &&& (t.1 as nat) < pow2(t.2 as nat)
}

/// `a` is an ancestor of `t` (or `t` itself): `t` is at least as deep, and
/// dropping the low `z(t) - z(a)` bits of its coordinates gives those of `a`.
pub open spec fn is_ancestor(t: Tile, a: Tile) -> bool {
    &&& t.2 >= a.2
    &&& (t.0 as nat) / pow2((t.2 - a.2) as nat) == a.0
    &&& (t.1 as nat) / pow2((t.2 - a.2) as nat) == a.1
}

/// The four children of `t`, in the order (0,0), (1,0), (0,1), (1,1).
pub open spec fn children_of(t: Tile) -> Seq<Tile> {
    let x = (2 * t.0) as u32;
    let y = (2 * t.1) as u32;
    let z = (t.2 + 1) as u32;
    seq![(x, y, z), ((x + 1) as u32, y, z), (x, (y + 1) as u32, z), ((x + 1) as u32, (y + 1) as u32, z)]
}

/// All descendants of `t` with zoom at most `zoom`: the children of `t`
/// first, then the descendants of each child in turn. A tile already at
/// `zoom` or deeper has none.
pub open spec fn descendants_until(t: Tile, zoom: u8) -> Seq<Tile>
    decreases zoom - t.2,
{
    if t.2 < zoom {
        let cs = children_of(t);
        cs + descendants_until(cs[0], zoom) + descendants_until(cs[1], zoom) + descendants_until(
            cs[2],
            zoom,
        ) + descendants_until(cs[3], zoom)
    } else {
        seq![]
    }
}

/// The tile in TMS row order: the row is mirrored within its zoom level.
pub open spec fn flipped(t: Tile) -> Tile {
    (t.0, (pow2(t.2 as nat) - 1 - t.1) as u32, t.2)
}

/// Returns whether `ancestor` is `tile` or one of its ancestors. Shifts of 32
/// bits or more leave nothing of a coordinate.
pub fn tile_is_ancestor(tile: &Tile, ancestor: &Tile) -> (r: bool)
    ensures
        r == is_ancestor(*tile, *ancestor),
{
    if tile.2 < ancestor.2 {
        return false;
    }
    let z_diff = tile.2 - ancestor.2;
    let (ax, ay) = if z_diff >= 32 {
        proof {
            if z_diff > 32 {
                lemma_pow2_strictly_increases(32, z_diff as nat);
            }
            lemma2_to64();
            lemma_basic_div(tile.0 as int, pow2(z_diff as nat) as int);
            lemma_basic_div(tile.1 as int, pow2(z_diff as nat) as int);
        }
        (0u32, 0u32)
    } else {
        proof {
            lemma_u32_shr_is_div(tile.0, z_diff);
            lemma_u32_shr_is_div(tile.1, z_diff);
        }
        (tile.0 >> z_diff, tile.1 >> z_diff)
    };
    ax == ancestor.0 && ay == ancestor.1
}

/// Every tile is its own ancestor.
pub proof fn lemma_ancestor_reflexive(t: Tile)
    ensures
        is_ancestor(t, t),
{
    lemma2_to64();
    assert((t.2 - t.2) as nat == 0);
}

/// Being an ancestor is transitive.
pub proof fn lemma_ancestor_transitive(t: Tile, a: Tile, b: Tile)
    requires
        is_ancestor(t, a),
        is_ancestor(a, b),
    ensures
        is_ancestor(t, b),
{
    let d1 = (t.2 - a.2) as nat;
    let d2 = (a.2 - b.2) as nat;
    lemma_pow2_pos(d1);
    lemma_pow2_pos(d2);
    lemma_pow2_adds(d1, d2);
    lemma_div_denominator(t.0 as int, pow2(d1) as int, pow2(d2) as int);
    lemma_div_denominator(t.1 as int, pow2(d1) as int, pow2(d2) as int);
    assert(d1 + d2 == (t.2 - b.2) as nat);
}

/// The four children of `tile`, in the order (0,0), (1,0), (0,1), (1,1).
pub fn get_children(tile: &Tile) -> (r: Vec<Tile>)
    requires
        tile.0 < 0x8000_0000,
        tile.1 < 0x8000_0000,
        tile.2 < u32::MAX,
    ensures
        r@ == children_of(*tile),
{
    let x = tile.0 * 2;
    let y = tile.1 * 2;
    let z = tile.2 + 1;
    let r = vec![(x, y, z), (x + 1, y, z), (x, y + 1, z), (x + 1, y + 1, z)];
    assert(r@ =~= children_of(*tile));
    r
}

pub(crate) proof fn lemma_children_valid(t: Tile)
    requires
        valid_tile(t),
        t.2 < 32,
    ensures
        forall|i: int| 0 <= i < 4 ==> #[trigger] valid_tile(children_of(t)[i]) && children_of(t)[i].2
            == t.2 + 1,
{
    lemma_pow2_adds(t.2 as nat, 1);
    lemma2_to64();
    lemma_u32_pow2_fits(t.2 as nat);
}

proof fn lemma_u32_pow2_fits(n: nat)
    requires
        n < 32,
    ensures
        pow2(n) <= 0x8000_0000,
{
    if n < 31 {
        lemma_pow2_strictly_increases(n, 31);
    }
    lemma2_to64();
}

/// All descendants of `tile` with zoom at most `zoom`. The children of
/// `tile` come first; then, child by child, the descendants of each child. A
/// tile already at `zoom` or deeper has none.
pub fn get_children_until_zoom(tile: &Tile, zoom: u8) -> (r: Vec<Tile>)
    requires
        valid_tile(*tile),
        zoom <= 32,
    ensures
        r@ == descendants_until(*tile, zoom),
    decreases zoom - tile.2,
{
    if tile.2 >= zoom as u32 {
        return Vec::new();
    }
    proof {
        lemma_children_valid(*tile);
        lemma_u32_pow2_fits(tile.2 as nat);
    }
    let mut out = get_children(tile);
    let c0 = out[0];
    let c1 = out[1];
    let c2 = out[2];
    let c3 = out[3];
    let ghost cs = out@;
    let mut more = get_children_until_zoom(&c0, zoom);
    out.append(&mut more);
    let mut more = get_children_until_zoom(&c1, zoom);
    out.append(&mut more);
    let mut more = get_children_until_zoom(&c2, zoom);
    out.append(&mut more);
    let mut more = get_children_until_zoom(&c3, zoom);
    out.append(&mut more);
    assert(out@ =~= cs + descendants_until(cs[0], zoom) + descendants_until(cs[1], zoom)
        + descendants_until(cs[2], zoom) + descendants_until(cs[3], zoom));
    out
}

/// The position of `tile` within its parent, and the parent. The position is
/// looked up by the tile's index in the child order (0,0), (1,0), (1,1), (0,1),
/// which the table (0,0), (1,0), (1,1), (0,1) maps back to the low bits of x and y.
pub fn get_position_in_parent(tile: &Tile) -> (r: ((u32, u32), Tile))
    requires
        tile.2 >= 1,
    ensures
        r == (((tile.0 % 2) as u32, (tile.1 % 2) as u32), (tile.0 / 2, tile.1 / 2, (tile.2 - 1) as u32)),
{
    let parent = (tile.0 / 2, tile.1 / 2, tile.2 - 1);
    let index: usize = if tile.0 % 2 == 0 {
        if tile.1 % 2 == 0 { 0 } else { 3 }
    } else {
        if tile.1 % 2 == 0 { 1 } else { 2 }
    };
    let table: [(u32, u32); 4] = [(0, 0), (1, 0), (1, 1), (0, 1)];
    (table[index], parent)
}

/// The ancestor of `tile` at `target_zoom`, the number of levels between them,
/// and the cell of `tile` within the `2^steps`-sided grid that the ancestor
/// covers. The cell is the sum over the levels walked of each level's position
/// in its parent, weighted by `2^level`.
pub fn get_relative_position_in_ancestor(tile: &Tile, target_zoom: u8) -> (r: (Tile, u32, (u32, u32)))
    requires
        target_zoom as u32 <= tile.2,
        tile.2 - target_zoom <= 32,
    ensures
        ({
            let s = (tile.2 - target_zoom) as nat;
            &&& r.0 == ((tile.0 as nat / pow2(s)) as u32, (tile.1 as nat / pow2(s)) as u32,
                target_zoom as u32)
            &&& r.1 == s
            &&& r.2 == ((tile.0 as nat % pow2(s)) as u32, (tile.1 as nat % pow2(s)) as u32)
        }),
{
    let tgt_z = target_zoom as u32;
    let steps = tile.2 - tgt_z;
    let mut current: Tile = *tile;
    let mut rel_x: u64 = 0;
    let mut rel_y: u64 = 0;
    let mut multiplier: u64 = 1;
    let mut k: u32 = 0;
    proof {
        lemma2_to64();
    }
    while current.2 > tgt_z
        invariant
            steps == tile.2 - tgt_z,
            steps <= 32,
            k <= steps,
            current.2 == tile.2 - k,
            multiplier == pow2(k as nat),
            current.0 == tile.0 as nat / pow2(k as nat),
            current.1 == tile.1 as nat / pow2(k as nat),
            rel_x == tile.0 as nat % pow2(k as nat),
            rel_y == tile.1 as nat % pow2(k as nat),
        decreases current.2,
    {
        let (pos, parent) = get_position_in_parent(&current);
        proof {
            lemma_pow2_pos(k as nat);
            lemma_pow2_adds(k as nat, 1);
            lemma2_to64();
            lemma_mod_pos_bound(tile.0 as int, pow2(k as nat) as int);
            lemma_mod_pos_bound(tile.1 as int, pow2(k as nat) as int);
            lemma_mod_breakdown(tile.0 as int, pow2(k as nat) as int, 2);
            lemma_mod_breakdown(tile.1 as int, pow2(k as nat) as int, 2);
            lemma_div_denominator(tile.0 as int, pow2(k as nat) as int, 2);
            lemma_div_denominator(tile.1 as int, pow2(k as nat) as int, 2);
            lemma_u32_pow2_fits(k as nat);
            assert(pos.0 <= 1 && pos.1 <= 1);
            assert(multiplier <= 0x8000_0000);
            assert(rel_x < multiplier && rel_y < multiplier);
            assert((pos.0 as u64) * multiplier <= multiplier) by (nonlinear_arith)
                requires pos.0 <= 1;
            assert((pos.1 as u64) * multiplier <= multiplier) by (nonlinear_arith)
                requires pos.1 <= 1;
            let m = pow2(k as nat) as int;
            assert(pow2((k + 1) as nat) == m * 2);
            assert(pos.0 as int * m == m * ((tile.0 as int / m) % 2)) by (nonlinear_arith)
                requires pos.0 as int == (tile.0 as int / m) % 2;
            assert(pos.1 as int * m == m * ((tile.1 as int / m) % 2)) by (nonlinear_arith)
                requires pos.1 as int == (tile.1 as int / m) % 2;
        }
        rel_x = rel_x + (pos.0 as u64) * multiplier;
        rel_y = rel_y + (pos.1 as u64) * multiplier;
        multiplier = multiplier * 2;
        current = parent;
        k = k + 1;
    }
    proof {
        lemma_pow2_pos(steps as nat);
    }
    (current, steps, (rel_x as u32, rel_y as u32))
}

/// Mirrors the row of `tile` within its zoom level (XYZ to TMS and back).
pub fn flip_x(tile: Tile) -> (r: Tile)
    requires
        tile.2 < 32,
        (tile.1 as nat) < pow2(tile.2 as nat),
    ensures
        r == flipped(tile),
{
    proof {
        lemma_u32_pow2_fits(tile.2 as nat);
        lemma_u32_shl_is_mul(1, tile.2);
    }
    let flipped_row = ((1u32 << tile.2) - 1) - tile.1;
    (tile.0, flipped_row, tile.2)
}

/// Mirroring the row twice gives the tile back.
pub proof fn lemma_flip_involution(t: Tile)
    requires
        t.2 < 32,
        (t.1 as nat) < pow2(t.2 as nat),
    ensures
        (flipped(t).1 as nat) < pow2(t.2 as nat),
        flipped(flipped(t)) == t,
{
    lemma_pow2_pos(t.2 as nat);
    lemma_u32_pow2_fits(t.2 as nat);
}

} // verus!
