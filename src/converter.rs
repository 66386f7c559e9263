//! Reading loose tile files: a file's path relative to the input directory,
//! `z/x/y.pbf` or `z/x/y.mvt`, gives its tile address.
use crate::tilebelt::Tile;
use vstd::prelude::*;

verus! {

pub open spec fn is_digit(c: u8) -> bool {
    48 <= c <= 57
}

pub open spec fn all_digits(s: Seq<u8>) -> bool {
    forall|i: int| 0 <= i < s.len() ==> is_digit(#[trigger] s[i])
}

/// The value of a string of decimal digits.
pub open spec fn decimal_value(s: Seq<u8>) -> nat
    decreases s.len(),
{
    if s.len() == 0 {
        0
    } else {
        decimal_value(s.drop_last()) * 10 + (s.last() - 48) as nat
    }
}

/// A nonempty run of decimal digits whose value fits in a `u32`.
pub open spec fn decimal_u32(s: Seq<u8>) -> Option<u32> {
    if s.len() > 0 && all_digits(s) && decimal_value(s) <= u32::MAX {
        Some(decimal_value(s) as u32)
    } else {
        None
    }
}

proof fn lemma_decimal_monotone(s: Seq<u8>, i: int)
    requires
        0 <= i <= s.len(),
        all_digits(s),
    ensures
        decimal_value(s.subrange(0, i)) <= decimal_value(s),
    decreases s.len() - i,
{
    if i < s.len() {
        lemma_decimal_monotone(s, i + 1);
        assert(s.subrange(0, i + 1).drop_last() =~= s.subrange(0, i));
    } else {
        assert(s.subrange(0, i) =~= s);
    }
}

/// Reads a nonempty run of decimal digits as a `u32`; `None` for anything
/// else, or for a value beyond `u32::MAX`.
pub fn parse_decimal_u32(s: &[u8]) -> (r: Option<u32>)
    ensures
        r == decimal_u32(s@),
{
    let n = s.len();
    if n == 0 {
        return None;
    }
    let mut value: u64 = 0;
    let mut i: usize = 0;
    while i < n
        invariant
            n == s@.len(),
            0 <= i <= n,
            all_digits(s@.subrange(0, i as int)),
            value == decimal_value(s@.subrange(0, i as int)),
            value <= u32::MAX,
        decreases n - i,
    {
        let c = s[i];
        assert(s@.subrange(0, i + 1).drop_last() =~= s@.subrange(0, i as int));
        if c < 48 || c > 57 {
            assert(!all_digits(s@)) by {
                assert(!is_digit(s@[i as int]));
            }
            return None;
        }
        let next = value * 10 + (c - 48) as u64;
        if next > u32::MAX as u64 {
            proof {
                if all_digits(s@) {
                    lemma_decimal_monotone(s@, i + 1);
                }
            }
            return None;
        }
        value = next;
        i = i + 1;
    }
    assert(s@.subrange(0, n as int) =~= s@);
    Some(value as u32)
}

/// A path separator for tile paths: `/` or `.`.
pub open spec fn is_separator(c: u8) -> bool {
    c == 47 || c == 46
}

/// The pieces of `s` between separators, in order; always at least one.
pub open spec fn path_components(s: Seq<u8>) -> Seq<Seq<u8>>
    decreases s.len(),
{
    if s.len() == 0 {
        seq![seq![]]
    } else {
        let c = path_components(s.drop_last());
        if is_separator(s.last()) {
            c.push(seq![])
        } else {
            c.update(c.len() - 1, c.last().push(s.last()))
        }
    }
}

proof fn lemma_components_nonempty(s: Seq<u8>)
    ensures
        path_components(s).len() >= 1,
    decreases s.len(),
{
    if s.len() > 0 {
        lemma_components_nonempty(s.drop_last());
    }
}

/// The file extensions of vector tiles: `pbf` and `mvt`.
pub open spec fn is_tile_extension(e: Seq<u8>) -> bool {
    e == seq![112u8, 98, 102] || e == seq![109u8, 118, 116]
}

/// The tile a relative path names: exactly four components `z`, `x`, `y` and
/// a tile extension, the first three decimal numbers.
pub open spec fn tile_of_path(s: Seq<u8>) -> Option<Tile> {
    let c = path_components(s);
    if c.len() == 4 && is_tile_extension(c[3]) && decimal_u32(c[0]) is Some && decimal_u32(c[1]) is Some
        && decimal_u32(c[2]) is Some {
        Some((decimal_u32(c[1])->0, decimal_u32(c[2])->0, decimal_u32(c[0])->0))
    } else {
        None
    }
}

fn split_path(s: &[u8]) -> (r: Vec<Vec<u8>>)
    ensures
        r@.len() == path_components(s@).len(),
        forall|i: int| 0 <= i < r@.len() ==> #[trigger] r@[i]@ == path_components(s@)[i],
{
    let mut parts: Vec<Vec<u8>> = Vec::new();
    let mut current: Vec<u8> = Vec::new();
    let n = s.len();
    let mut i: usize = 0;
    while i < n
        invariant
            n == s@.len(),
            0 <= i <= n,
            parts@.len() + 1 == path_components(s@.subrange(0, i as int)).len(),
            forall|j: int| 0 <= j < parts@.len() ==> #[trigger] parts@[j]@ == path_components(s@.subrange(0, i as int))[j],
            current@ == path_components(s@.subrange(0, i as int)).last(),
        decreases n - i,
    {
        let c = s[i];
        let ghost prefix = s@.subrange(0, i as int);
        assert(s@.subrange(0, i + 1).drop_last() =~= prefix);
        proof {
            lemma_components_nonempty(prefix);
        }
        if c == 47 || c == 46 {
            parts.push(current);
            current = Vec::new();
            assert(current@ =~= seq![]);
        } else {
            current.push(c);
        }
        i = i + 1;
    }
    assert(s@.subrange(0, n as int) =~= s@);
    parts.push(current);
    parts
}

fn is_tile_extension_exec(e: &Vec<u8>) -> (r: bool)
    ensures
        r == is_tile_extension(e@),
{
    if e.len() != 3 {
        return false;
    }
    let pbf = e[0] == 112 && e[1] == 98 && e[2] == 102;
    let mvt = e[0] == 109 && e[1] == 118 && e[2] == 116;
    assert(pbf ==> e@ =~= seq![112u8, 98, 102]);
    assert(mvt ==> e@ =~= seq![109u8, 118, 116]);
    pbf || mvt
}

/// The tile named by a path relative to the input directory, `z/x/y.pbf` or
/// `z/x/y.mvt`; `None` for any other path.
pub fn parse_tile_path(path: &[u8]) -> (r: Option<Tile>)
    ensures
        r == tile_of_path(path@),
{
    let parts = split_path(path);
    if parts.len() != 4 || !is_tile_extension_exec(&parts[3]) {
        return None;
    }
    let z = parse_decimal_u32(parts[0].as_slice());
    let x = parse_decimal_u32(parts[1].as_slice());
    let y = parse_decimal_u32(parts[2].as_slice());
    match (z, x, y) {
        (Some(z), Some(x), Some(y)) => Some((x, y, z)),
        _ => None,
    }
}

} // verus!
