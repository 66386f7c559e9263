//! Subdivision: which outputs each input tile goes to. An output takes every
//! tile that has one of its configured tiles as an ancestor, up to its
//! maximum zoom; outputs may overlap.
use crate::tilebelt::{flip_x, flipped, is_ancestor, tile_is_ancestor, Tile};
use vstd::arithmetic::power2::pow2;
use vstd::prelude::*;

verus! {

/// The maximum zoom of an output that sets none.
pub const NO_MAXZOOM: u32 = 999;

/// One output archive: its name, the tiles whose descendants it takes, and
/// the deepest zoom it takes, if limited.
pub struct SubdivideOutput {
    pub name: String,
    pub tiles: Vec<Tile>,
    pub maxzoom: Option<u32>,
}

pub struct SubdivideConfig {
    pub outputs: Vec<SubdivideOutput>,
}

/// A routing rule: tiles under `.0`, up to zoom `.1`, go to output `.2`.
pub type Rule = (Tile, u32, usize);

/// The rules of the first `n` outputs: for each output in order, one rule per
/// configured tile, in order.
pub open spec fn rules_upto(outputs: Seq<SubdivideOutput>, n: int) -> Seq<Rule>
    decreases n,
{
    if n <= 0 {
        seq![]
    } else {
        let o = outputs[n - 1];
        let z = match o.maxzoom {
            Some(z) => z,
            None => NO_MAXZOOM,
        };
        rules_upto(outputs, n - 1) + Seq::new(o.tiles@.len(), |j: int| (o.tiles@[j], z, (n - 1) as usize))
    }
}

/// The routing rules of a configuration; see `rules_upto`.
pub fn routing_rules(config: &SubdivideConfig) -> (r: Vec<Rule>)
    ensures
        r@ == rules_upto(config.outputs@, config.outputs@.len() as int),
{
    let mut rules: Vec<Rule> = Vec::new();
    let n = config.outputs.len();
    let mut i: usize = 0;
    while i < n
        invariant
            n == config.outputs@.len(),
            0 <= i <= n,
            rules@ == rules_upto(config.outputs@, i as int),
        decreases n - i,
    {
        let o = &config.outputs[i];
        let z = match o.maxzoom {
            Some(z) => z,
            None => NO_MAXZOOM,
        };
        let ghost before = rules@;
        let m = o.tiles.len();
        let mut j: usize = 0;
        while j < m
            invariant
                m == o.tiles@.len(),
                0 <= j <= m,
                rules@ =~= before + Seq::new(j as nat, |k: int| (o.tiles@[k], z, i)),
            decreases m - j,
        {
            rules.push((o.tiles[j], z, i));
            j = j + 1;
        }
        assert(rules@ =~= rules_upto(config.outputs@, i + 1));
        i = i + 1;
    }
    rules
}

/// The outputs, in rule order and once per matching rule, that the first `n`
/// rules send the tile `xyz` to.
pub open spec fn routes_upto(rules: Seq<Rule>, xyz: Tile, n: int) -> Seq<usize>
    decreases n,
{
    if n <= 0 {
        seq![]
    } else {
        let r = rules[n - 1];
        let prev = routes_upto(rules, xyz, n - 1);
        if xyz.2 <= r.1 && is_ancestor(xyz, r.0) {
            prev.push(r.2)
        } else {
            prev
        }
    }
}

/// The outputs that an input tile goes to. The tile comes in TMS row order
/// as read from the archive; the rules speak of XYZ tiles.
pub fn route_tile(rules: &Vec<Rule>, tms_tile: Tile) -> (r: Vec<usize>)
    requires
        tms_tile.2 < 32,
        (tms_tile.1 as nat) < pow2(tms_tile.2 as nat),
    ensures
        r@ == routes_upto(rules@, flipped(tms_tile), rules@.len() as int),
{
    let xyz = flip_x(tms_tile);
    let mut out: Vec<usize> = Vec::new();
    let n = rules.len();
    let mut i: usize = 0;
    while i < n
        invariant
            n == rules@.len(),
            0 <= i <= n,
            xyz == flipped(tms_tile),
            out@ == routes_upto(rules@, xyz, i as int),
        decreases n - i,
    {
        let (anc, maxzoom, output) = rules[i];
        if xyz.2 <= maxzoom && tile_is_ancestor(&xyz, &anc) {
            out.push(output);
        }
        i = i + 1;
    }
    out
}

} // verus!
