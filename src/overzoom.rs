//! The overzoom driver's decisions: whether an archive can be overzoomed to a
//! zoom level, and which tiles are synthesised from each tile at the
//! archive's maximum zoom.
use crate::converter::{decimal_u32, parse_decimal_u32};
use crate::tilebelt::{
    descendants_until, get_children_until_zoom, get_relative_position_in_ancestor,
    children_of, is_ancestor, lemma_ancestor_transitive, valid_tile, Tile,
};
use vstd::arithmetic::power2::{lemma2_to64, pow2};
use vstd::prelude::*;

verus! {

#[derive(Debug, Clone, Copy, PartialEq, Eq, Structural)]
pub enum OverzoomError {
    /// The archive's metadata has no `maxzoom`, or not a zoom level.
    MissingMaxzoom,
    /// The archive already reaches the target zoom.
    AlreadyAtTargetZoom,
}

/// The archive's maximum zoom read from its `maxzoom` metadata value, when
/// it is below the target zoom.
pub open spec fn overzoom_source_zoom(maxzoom: Option<Seq<u8>>, target_zoom: u8) -> Result<u8, OverzoomError> {
    match maxzoom {
        None => Err(OverzoomError::MissingMaxzoom),
        Some(text) => match decimal_u32(text) {
            None => Err(OverzoomError::MissingMaxzoom),
            Some(z) => if z > 255 {
                Err(OverzoomError::MissingMaxzoom)
            } else if z >= target_zoom {
                Err(OverzoomError::AlreadyAtTargetZoom)
            } else {
                Ok(z as u8)
            },
        },
    }
}

/// Checks that an archive whose metadata holds `maxzoom` (when it does) can be
/// overzoomed to `target_zoom`, and returns its maximum zoom.
pub fn check_overzoom(maxzoom: Option<&[u8]>, target_zoom: u8) -> (r: Result<u8, OverzoomError>)
    ensures
        r == overzoom_source_zoom(
            match maxzoom {
                Some(t) => Some(t@),
                None => None,
            },
            target_zoom,
        ),
{
    let text = match maxzoom {
        None => {
            return Err(OverzoomError::MissingMaxzoom);
        },
        Some(t) => t,
    };
    match parse_decimal_u32(text) {
        None => Err(OverzoomError::MissingMaxzoom),
        Some(z) => {
            if z > 255 {
                Err(OverzoomError::MissingMaxzoom)
            } else if z >= target_zoom as u32 {
                Err(OverzoomError::AlreadyAtTargetZoom)
            } else {
                Ok(z as u8)
            }
        },
    }
}

/// Every descendant is a valid tile strictly below `t`, not deeper than
/// `zoom`, with `t` as an ancestor.
pub proof fn lemma_descendants(t: Tile, zoom: u8)
    requires
        valid_tile(t),
        zoom <= 32,
    ensures
        forall|i: int|
            0 <= i < descendants_until(t, zoom).len() ==> {
                let d = #[trigger] descendants_until(t, zoom)[i];
                &&& valid_tile(d)
                &&& t.2 < d.2 <= zoom
                &&& is_ancestor(d, t)
            },
    decreases zoom - t.2,
{
    if t.2 < zoom {
        let cs = children_of(t);
        lemma2_to64();
        crate::tilebelt::lemma_children_valid(t);
        assert forall|i: int| 0 <= i < 4 implies is_ancestor(#[trigger] cs[i], t) by {
            assert((cs[i].2 - t.2) as nat == 1);
        }
        let d0 = descendants_until(cs[0], zoom);
        let d1 = descendants_until(cs[1], zoom);
        let d2 = descendants_until(cs[2], zoom);
        let d3 = descendants_until(cs[3], zoom);
        assert forall|k: int| 0 <= k < 4 implies forall|i: int|
            0 <= i < descendants_until(#[trigger] cs[k], zoom).len() ==> {
                let d = #[trigger] descendants_until(cs[k], zoom)[i];
                &&& valid_tile(d)
                &&& t.2 < d.2 <= zoom
                &&& is_ancestor(d, t)
            } by {
            lemma_descendants(cs[k], zoom);
            assert forall|i: int| 0 <= i < descendants_until(cs[k], zoom).len() implies {
                let d = #[trigger] descendants_until(cs[k], zoom)[i];
                &&& valid_tile(d)
                &&& t.2 < d.2 <= zoom
                &&& is_ancestor(d, t)
            } by {
                let d = descendants_until(cs[k], zoom)[i];
                assert(valid_tile(d) && is_ancestor(d, cs[k]));
                lemma_ancestor_transitive(d, cs[k], t);
            }
        }
        let all = descendants_until(t, zoom);
        assert(all == cs + d0 + d1 + d2 + d3);
        assert forall|i: int| 0 <= i < all.len() implies {
            let d = #[trigger] all[i];
            &&& valid_tile(d)
            &&& t.2 < d.2 <= zoom
            &&& is_ancestor(d, t)
        } by {
            let (a, b, c) = (4 + d0.len(), 4 + d0.len() + d1.len(), 4 + d0.len() + d1.len() + d2.len());
            if i < 4 {
                assert(all[i] == cs[i]);
            } else if i < a {
                assert(all[i] == d0[i - 4]);
            } else if i < b {
                assert(all[i] == d1[i - a]);
            } else if i < c {
                assert(all[i] == d2[i - b]);
            } else {
                assert(all[i] == d3[i - c]);
            }
        }
    }
}

/// What the overzoom transformer makes of a tile at the archive's maximum
/// zoom: for each descendant down to `target_zoom`, in the order of
/// `descendants_until`, the descendant, its depth below the tile, and its cell
/// in the tile's grid. Tiles at other zooms yield nothing.
pub open spec fn overzoom_plan(t: Tile, maxzoom: u8, target_zoom: u8) -> Seq<(Tile, u32, (u32, u32))> {
    if t.2 == maxzoom {
        let ds = descendants_until(t, target_zoom);
        Seq::new(
            ds.len(),
            |i: int|
                {
                    let d = ds[i];
                    let s = (d.2 - maxzoom) as nat;
                    (d, s as u32, ((d.0 as nat % pow2(s)) as u32, (d.1 as nat % pow2(s)) as u32))
                },
        )
    } else {
        seq![]
    }
}

/// The tiles to synthesise from `tile`, with how to rescale it for each; see
/// `overzoom_plan`.
pub fn overzoom_targets(tile: &Tile, maxzoom: u8, target_zoom: u8) -> (r: Vec<(Tile, u32, (u32, u32))>)
    requires
        valid_tile(*tile),
        target_zoom <= 32,
    ensures
        r@ == overzoom_plan(*tile, maxzoom, target_zoom),
{
    let mut out: Vec<(Tile, u32, (u32, u32))> = Vec::new();
    if tile.2 != maxzoom as u32 {
        assert(out@ =~= overzoom_plan(*tile, maxzoom, target_zoom));
        return out;
    }
    let ds = get_children_until_zoom(tile, target_zoom);
    proof {
        lemma_descendants(*tile, target_zoom);
    }
    let mut i: usize = 0;
    while i < ds.len()
        invariant
            tile.2 == maxzoom,
            ds@ == descendants_until(*tile, target_zoom),
            forall|j: int|
                0 <= j < ds@.len() ==> {
                    let d = #[trigger] ds@[j];
                    &&& valid_tile(d)
                    &&& tile.2 < d.2 <= target_zoom
                    &&& is_ancestor(d, *tile)
                },
            target_zoom <= 32,
            0 <= i <= ds@.len(),
            out@ =~= overzoom_plan(*tile, maxzoom, target_zoom).subrange(0, i as int),
        decreases ds@.len() - i,
    {
        let d = ds[i];
        let (ancestor, steps, rel) = get_relative_position_in_ancestor(&d, maxzoom);
        out.push((d, steps, rel));
        i = i + 1;
    }
    out
}

/// The tiles that the transformer emits for one input tile: the tile itself,
/// forwarded first, then the tiles it synthesises.
pub open spec fn emitted_tiles(t: Tile, maxzoom: u8, target_zoom: u8) -> Seq<Tile> {
    seq![t] + overzoom_plan(t, maxzoom, target_zoom).map_values(|p: (Tile, u32, (u32, u32))| p.0)
}

/// Overzooming a tile at the maximum zoom emits exactly the tile and its
/// descendants down to the target zoom.
pub proof fn lemma_overzoom_emits_tile_and_descendants(t: Tile, target_zoom: u8)
    requires
        valid_tile(t),
        target_zoom <= 32,
    ensures
        emitted_tiles(t, t.2 as u8, target_zoom).to_set() == set![t].union(
            descendants_until(t, target_zoom).to_set(),
        ),
{
    let e = emitted_tiles(t, t.2 as u8, target_zoom);
    let ds = descendants_until(t, target_zoom);
    assert(e =~= seq![t] + ds);
    assert forall|x: Tile| e.to_set().contains(x) <==> set![t].union(ds.to_set()).contains(x) by {
        if e.to_set().contains(x) {
            let i = choose|i: int| 0 <= i < e.len() && e[i] == x;
            if i > 0 {
                assert(ds[i - 1] == x);
            }
        }
        if ds.to_set().contains(x) {
            let i = choose|i: int| 0 <= i < ds.len() && ds[i] == x;
            assert(e[i + 1] == x);
        }
        if x == t {
            assert(e[0] == x);
        }
    }
    assert(e.to_set() =~= set![t].union(ds.to_set()));
}

} // verus!
