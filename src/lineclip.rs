//! Clipping against an axis-aligned, inclusive bounding box: Cohen-Sutherland
//! for polylines, Sutherland-Hodgman for polygon rings. All arithmetic is on
//! integers; intersections divide with truncation toward zero.
use crate::geom::{LineString, Point, Polygon};
use vstd::arithmetic::div_mod::{lemma_div_is_ordered, lemma_div_multiples_vanish, lemma_div_pos_is_pos};
use vstd::prelude::*;

verus! {

/// `(x0, y0, x1, y1)`, both corners included.
pub type BoundingBox = (i32, i32, i32, i32);

pub open spec fn valid_bbox(b: BoundingBox) -> bool {
    b.0 <= b.2 && b.1 <= b.3
}

/// The horizontal part of a point's code: 1 left of the box, 2 right of it.
pub open spec fn x_code(p: Point, b: BoundingBox) -> u8 {
    if p.x < b.0 {
        1
    } else if p.x > b.2 {
        2
    } else {
        0
    }
}

/// The vertical part of a point's code: 4 below the box (y < y0), 8 above it.
pub open spec fn y_code(p: Point, b: BoundingBox) -> u8 {
    if p.y < b.1 {
        4
    } else if p.y > b.3 {
        8
    } else {
        0
    }
}

/// The Cohen-Sutherland outcode of a point; 0 inside the box.
pub open spec fn code_of(p: Point, b: BoundingBox) -> u8 {
    x_code(p, b) | y_code(p, b)
}

/// Integer division truncating toward zero, for a positive divisor.
pub open spec fn quot_pos(n: int, d: int) -> int {
    if n >= 0 {
        n / d
    } else {
        -((-n) / d)
    }
}

/// Integer division truncating toward zero (Rust's `/`), for a nonzero divisor.
pub open spec fn quot(n: int, d: int) -> int {
    if d >= 0 {
        quot_pos(n, d)
    } else {
        quot_pos(-n, -d)
    }
}

/// The point where segment `a`-`b` meets the box edge named by the highest bit
/// of `edge` (top 8, bottom 4, right 2, left 1).
pub open spec fn intersect_spec(a: Point, b: Point, edge: u8, bbox: BoundingBox) -> Point {
    if edge & 8 != 0 {
        Point { x: (a.x + quot((b.x - a.x) * (bbox.3 - a.y), b.y - a.y)) as i32, y: bbox.3 }
    } else if edge & 4 != 0 {
        Point { x: (a.x + quot((b.x - a.x) * (bbox.1 - a.y), b.y - a.y)) as i32, y: bbox.1 }
    } else if edge & 2 != 0 {
        Point { x: bbox.2, y: (a.y + quot((b.y - a.y) * (bbox.2 - a.x), b.x - a.x)) as i32 }
    } else if edge & 1 != 0 {
        Point { x: bbox.0, y: (a.y + quot((b.y - a.y) * (bbox.0 - a.x), b.x - a.x)) as i32 }
    } else {
        a
    }
}

pub open spec fn fits_i32(v: int) -> bool {
    i32::MIN <= v <= i32::MAX
}

/// The intersection formula for the edge chosen by `edge` has a nonzero
/// divisor and a result in the `i32` range.
pub open spec fn intersect_defined(a: Point, b: Point, edge: u8, bbox: BoundingBox) -> bool {
    if edge & 8 != 0 {
        a.y != b.y && fits_i32(a.x + quot((b.x - a.x) * (bbox.3 - a.y), b.y - a.y))
    } else if edge & 4 != 0 {
        a.y != b.y && fits_i32(a.x + quot((b.x - a.x) * (bbox.1 - a.y), b.y - a.y))
    } else if edge & 2 != 0 {
        a.x != b.x && fits_i32(a.y + quot((b.y - a.y) * (bbox.2 - a.x), b.x - a.x))
    } else if edge & 1 != 0 {
        a.x != b.x && fits_i32(a.y + quot((b.y - a.y) * (bbox.0 - a.x), b.x - a.x))
    } else {
        true
    }
}

pub open spec fn between(e: int, u: int, v: int) -> bool {
    (u <= e <= v) || (v <= e <= u)
}

/// The edge chosen by `edge` separates `a` from `b` strictly on its axis.
pub open spec fn crosses(a: Point, b: Point, edge: u8, bbox: BoundingBox) -> bool {
    if edge & 8 != 0 {
        a.y != b.y && between(bbox.3 as int, a.y as int, b.y as int)
    } else if edge & 4 != 0 {
        a.y != b.y && between(bbox.1 as int, a.y as int, b.y as int)
    } else if edge & 2 != 0 {
        a.x != b.x && between(bbox.2 as int, a.x as int, b.x as int)
    } else if edge & 1 != 0 {
        a.x != b.x && between(bbox.0 as int, a.x as int, b.x as int)
    } else {
        true
    }
}

proof fn lemma_fraction(m: int, t: int, d: int)
    requires
        m >= 0,
        0 <= t <= d,
        d > 0,
    ensures
        0 <= (m * t) / d <= m,
{
    assert(0 <= m * t <= m * d) by (nonlinear_arith)
        requires
            m >= 0,
            0 <= t <= d,
    ;
    lemma_div_pos_is_pos(m * t, d);
    lemma_div_is_ordered(m * t, m * d, d);
    lemma_div_multiples_vanish(m, d);
    assert(m * d == d * m) by (nonlinear_arith);
}

/// Interpolating from `u0` toward `u1` by the fraction `t / d` of the way
/// stays between the two.
proof fn lemma_interpolate_between(u0: int, u1: int, t: int, d: int)
    requires
        d != 0,
        between(t + 0, 0, d),
    ensures
        between(u0 + quot((u1 - u0) * t, d), u0, u1),
{
    let m = u1 - u0;
    let (tt, dd) = if d > 0 { (t, d) } else { (-t, -d) };
    assert(quot(m * t, d) == quot_pos(m * tt, dd)) by (nonlinear_arith)
        requires
            tt == (if d > 0 { t } else { -t }),
            dd == (if d > 0 { d } else { -d }),
            d != 0,
    {
    }
    if m >= 0 {
        lemma_fraction(m, tt, dd);
        assert(m * tt >= 0) by (nonlinear_arith)
            requires
                m >= 0,
                tt >= 0,
        ;
    } else {
        lemma_fraction(-m, tt, dd);
        assert(m * tt == -((-m) * tt)) by (nonlinear_arith);
        assert((-m) * tt >= 0) by (nonlinear_arith)
            requires
                m < 0,
                tt >= 0,
        ;
        if m * tt == 0 {
            assert(quot_pos(m * tt, dd) == 0);
        }
    }
}

/// Intersects segment `a`-`b` with one edge of the box. The result lies on
/// that edge, between `a` and `b`.
fn intersect(a: Point, b: Point, edge: u8, bbox: &BoundingBox) -> (r: Point)
    requires
        intersect_defined(a, b, edge, *bbox),
    ensures
        r == intersect_spec(a, b, edge, *bbox),
        crosses(a, b, edge, *bbox) && edge & 15 != 0 ==> between(r.x as int, a.x as int, b.x as int),
        crosses(a, b, edge, *bbox) && edge & 15 != 0 ==> between(r.y as int, a.y as int, b.y as int),
{
    proof {
        if crosses(a, b, edge, *bbox) && edge & 15 != 0 {
            lemma_intersect_on_edge(a, b, edge, *bbox);
        }
    }
    assert((edge & 8 != 0 || edge & 4 != 0 || edge & 2 != 0 || edge & 1 != 0) == (edge & 15 != 0))
        by (bit_vector);
    if edge & 8 != 0 || edge & 4 != 0 {
        let e: i32 = if edge & 8 != 0 { bbox.3 } else { bbox.1 };
        let m = (b.x as i128) - (a.x as i128);
        let t = (e as i128) - (a.y as i128);
        let d = (b.y as i128) - (a.y as i128);
        proof {
            assert(-0x1_0000_0000 < m < 0x1_0000_0000);
            assert(-0x1_0000_0000 < t < 0x1_0000_0000);
            assert(-0x1_0000_0000_0000_0000 < m * t < 0x1_0000_0000_0000_0000) by (nonlinear_arith)
                requires
                    -0x1_0000_0000 < m < 0x1_0000_0000,
                    -0x1_0000_0000 < t < 0x1_0000_0000,
            ;
        }
        let n = m * t;
        let q = if d < 0 { (-n) / (-d) } else { n / d };
        Point { x: (a.x as i128 + q) as i32, y: e }
    } else if edge & 2 != 0 || edge & 1 != 0 {
        let e: i32 = if edge & 2 != 0 { bbox.2 } else { bbox.0 };
        let m = (b.y as i128) - (a.y as i128);
        let t = (e as i128) - (a.x as i128);
        let d = (b.x as i128) - (a.x as i128);
        proof {
            assert(-0x1_0000_0000 < m < 0x1_0000_0000);
            assert(-0x1_0000_0000 < t < 0x1_0000_0000);
            assert(-0x1_0000_0000_0000_0000 < m * t < 0x1_0000_0000_0000_0000) by (nonlinear_arith)
                requires
                    -0x1_0000_0000 < m < 0x1_0000_0000,
                    -0x1_0000_0000 < t < 0x1_0000_0000,
            ;
        }
        let n = m * t;
        let q = if d < 0 { (-n) / (-d) } else { n / d };
        Point { x: e, y: (a.y as i128 + q) as i32 }
    } else {
        a
    }
}

/// The point where a crossing segment meets an edge lies on that edge, between
/// the segment's ends.
proof fn lemma_intersect_on_edge(a: Point, b: Point, edge: u8, bbox: BoundingBox)
    requires
        crosses(a, b, edge, bbox),
        edge & 15 != 0,
    ensures
        ({
            let r = intersect_spec(a, b, edge, bbox);
            &&& between(r.x as int, a.x as int, b.x as int)
            &&& between(r.y as int, a.y as int, b.y as int)
            &&& edge & 8 != 0 ==> r.y == bbox.3
            &&& (edge & 8 == 0 && edge & 4 != 0) ==> r.y == bbox.1
            &&& (edge & 8 == 0 && edge & 4 == 0 && edge & 2 != 0) ==> r.x == bbox.2
            &&& (edge & 8 == 0 && edge & 4 == 0 && edge & 2 == 0) ==> r.x == bbox.0
        }),
{
    assert((edge & 8 != 0 || edge & 4 != 0 || edge & 2 != 0 || edge & 1 != 0) == (edge & 15 != 0))
        by (bit_vector);
    if edge & 8 != 0 {
        lemma_interpolate_between(a.x as int, b.x as int, bbox.3 - a.y, b.y - a.y);
    } else if edge & 4 != 0 {
        lemma_interpolate_between(a.x as int, b.x as int, bbox.1 - a.y, b.y - a.y);
    } else if edge & 2 != 0 {
        lemma_interpolate_between(a.y as int, b.y as int, bbox.2 - a.x, b.x - a.x);
    } else {
        lemma_interpolate_between(a.y as int, b.y as int, bbox.0 - a.x, b.x - a.x);
    }
}

/// An edge that separates the ends of a segment gives a defined intersection.
proof fn lemma_crossing_defined(a: Point, b: Point, edge: u8, bbox: BoundingBox)
    requires
        crosses(a, b, edge, bbox),
    ensures
        intersect_defined(a, b, edge, bbox),
{
    if edge & 8 != 0 {
        lemma_interpolate_between(a.x as int, b.x as int, bbox.3 - a.y, b.y - a.y);
    } else if edge & 4 != 0 {
        lemma_interpolate_between(a.x as int, b.x as int, bbox.1 - a.y, b.y - a.y);
    } else if edge & 2 != 0 {
        lemma_interpolate_between(a.y as int, b.y as int, bbox.2 - a.x, b.x - a.x);
    } else if edge & 1 != 0 {
        lemma_interpolate_between(a.y as int, b.y as int, bbox.0 - a.x, b.x - a.x);
    }
}

proof fn lemma_code_parts(cx: u8, cy: u8, dx: u8, dy: u8)
    by (bit_vector)
    requires
        cx == 0 || cx == 1 || cx == 2,
        cy == 0 || cy == 4 || cy == 8,
        dx == 0 || dx == 1 || dx == 2,
        dy == 0 || dy == 4 || dy == 8,
    ensures
        ((cx | cy) & 8 != 0) == (cy == 8),
        ((cx | cy) & 4 != 0) == (cy == 4),
        ((cx | cy) & 2 != 0) == (cx == 2),
        ((cx | cy) & 1 != 0) == (cx == 1),
        ((cx | cy) & 15 != 0) == (cx != 0 || cy != 0),
        ((cx | cy) > 0) == (cx != 0 || cy != 0),
        (((cx | cy) | (dx | dy)) == 0) == (cx == 0 && cy == 0 && dx == 0 && dy == 0),
        (((cx | cy) & (dx | dy)) != 0) == ((cx != 0 && cx == dx) || (cy != 0 && cy == dy)),
{
}

proof fn lemma_edge_bits()
    by (bit_vector)
    ensures
        1u8 & 8 == 0,
        1u8 & 4 == 0,
        1u8 & 2 == 0,
        1u8 & 1 != 0,
        2u8 & 8 == 0,
        2u8 & 4 == 0,
        2u8 & 2 != 0,
        4u8 & 8 == 0,
        4u8 & 4 != 0,
        8u8 & 8 != 0,
        1u8 & 15 != 0,
        2u8 & 15 != 0,
        4u8 & 15 != 0,
        8u8 & 15 != 0,
{
}

/// What the outcodes of two points say about the points.
proof fn lemma_codes(a: Point, b: Point, bbox: BoundingBox)
    ensures
        (code_of(a, bbox) & 8 != 0) == (y_code(a, bbox) == 8),
        (code_of(a, bbox) & 4 != 0) == (y_code(a, bbox) == 4),
        (code_of(a, bbox) & 2 != 0) == (x_code(a, bbox) == 2),
        (code_of(a, bbox) & 1 != 0) == (x_code(a, bbox) == 1),
        (code_of(a, bbox) & 15 != 0) == (code_of(a, bbox) > 0),
        (code_of(a, bbox) > 0) == (x_code(a, bbox) != 0 || y_code(a, bbox) != 0),
        (code_of(a, bbox) | code_of(b, bbox)) == 0 <==> (x_code(a, bbox) == 0 && y_code(a, bbox)
            == 0 && x_code(b, bbox) == 0 && y_code(b, bbox) == 0),
        (code_of(a, bbox) & code_of(b, bbox)) != 0 <==> ((x_code(a, bbox) != 0 && x_code(a, bbox)
            == x_code(b, bbox)) || (y_code(a, bbox) != 0 && y_code(a, bbox) == y_code(b, bbox))),
{
    lemma_code_parts(x_code(a, bbox), y_code(a, bbox), x_code(b, bbox), y_code(b, bbox));
}

/// How far a segment is from being settled: each end counts the axes on which
/// it lies outside the box, and a segment not yet known to be rejected counts
/// one more.
pub open spec fn seg_measure(a: Point, b: Point, bbox: BoundingBox) -> int {
    2 * ((if x_code(a, bbox) != 0 { 1int } else { 0 }) + (if y_code(a, bbox) != 0 { 1int } else { 0 }) + (
    if x_code(b, bbox) != 0 { 1int } else { 0 }) + (if y_code(b, bbox) != 0 { 1int } else { 0 })) + (if (
    code_of(a, bbox) & code_of(b, bbox)) == 0 { 1int } else { 0 })
}

/// One clipping step moves the outside end (the first end if it is outside)
/// onto the edge named by its code, and the segment gets closer to settled.
pub proof fn lemma_clip_step(a: Point, b: Point, bbox: BoundingBox)
    requires
        valid_bbox(bbox),
        (code_of(a, bbox) | code_of(b, bbox)) != 0,
        (code_of(a, bbox) & code_of(b, bbox)) == 0,
    ensures
        code_of(a, bbox) > 0 ==> crosses(a, b, code_of(a, bbox), bbox) && 0 <= seg_measure(
            intersect_spec(a, b, code_of(a, bbox), bbox),
            b,
            bbox,
        ) < seg_measure(a, b, bbox),
        code_of(a, bbox) == 0 ==> crosses(a, b, code_of(b, bbox), bbox) && 0 <= seg_measure(
            a,
            intersect_spec(a, b, code_of(b, bbox), bbox),
            bbox,
        ) < seg_measure(a, b, bbox),
{
    lemma_codes(a, b, bbox);
    lemma_codes(b, a, bbox);
    if code_of(a, bbox) > 0 {
        let ca = code_of(a, bbox);
        assert(crosses(a, b, ca, bbox));
        lemma_intersect_on_edge(a, b, ca, bbox);
        let a2 = intersect_spec(a, b, ca, bbox);
        lemma_codes(a2, b, bbox);
    } else {
        let cb = code_of(b, bbox);
        assert(crosses(a, b, cb, bbox));
        lemma_intersect_on_edge(a, b, cb, bbox);
        let b2 = intersect_spec(a, b, cb, bbox);
        lemma_codes(a, b2, bbox);
    }
}

/// Cohen-Sutherland on one segment: accept it (`Some` of the clipped ends)
/// once both ends are inside, reject it once both lie beyond a common edge,
/// and otherwise move an outside end onto the edge its code names.
pub open spec fn clip_segment_spec(a: Point, b: Point, bbox: BoundingBox) -> Option<(Point, Point)>
    decreases seg_measure(a, b, bbox),
    when valid_bbox(bbox)
{
    let ca = code_of(a, bbox);
    let cb = code_of(b, bbox);
    if (ca | cb) == 0 {
        Some((a, b))
    } else if (ca & cb) != 0 {
        None
    } else if ca > 0 {
        proof {
            lemma_clip_step(a, b, bbox);
        }
        clip_segment_spec(intersect_spec(a, b, ca, bbox), b, bbox)
    } else {
        proof {
            lemma_clip_step(a, b, bbox);
        }
        clip_segment_spec(a, intersect_spec(a, b, cb, bbox), bbox)
    }
}

/// The outcode of a point against the box.
fn bit_code(p: Point, bbox: &BoundingBox) -> (r: u8)
    ensures
        r == code_of(p, *bbox),
{
    let cx: u8 = if p.x < bbox.0 {
        1
    } else if p.x > bbox.2 {
        2
    } else {
        0
    };
    let cy: u8 = if p.y < bbox.1 {
        4
    } else if p.y > bbox.3 {
        8
    } else {
        0
    };
    cx | cy
}

/// The views of a list of polylines.
pub open spec fn lines_view(v: Seq<LineString>) -> Seq<Seq<Point>> {
    Seq::new(v.len(), |i: int| v[i]@)
}

/// Processes segment `c[i-1]`-`c[i]` of a polyline, given the part being built
/// and the polylines already finished. An accepted segment adds its start; it
/// also adds its end when the end was moved (the segment leaves the box, which
/// closes the part unless this is the last segment) or when it is the last
/// segment.
pub open spec fn lineclip_step(c: Seq<Point>, bbox: BoundingBox, i: int, part: Seq<Point>, done: Seq<
    Seq<Point>,
>) -> (Seq<Point>, Seq<Seq<Point>>) {
    let last_code = code_of(c[i], bbox);
    match clip_segment_spec(c[i - 1], c[i], bbox) {
        None => (part, done),
        Some((a, b)) => {
            let p1 = part.push(a);
            if code_of(b, bbox) != last_code {
                if i < c.len() - 1 {
                    (seq![], done.push(p1.push(b)))
                } else {
                    (p1.push(b), done)
                }
            } else if i == c.len() - 1 {
                (p1.push(b), done)
            } else {
                (p1, done)
            }
        },
    }
}

/// The part under construction and the finished polylines after the segments
/// ending at `c[1]`, ..., `c[n-1]`.
pub open spec fn lineclip_upto(c: Seq<Point>, bbox: BoundingBox, n: int) -> (Seq<Point>, Seq<
    Seq<Point>,
>)
    decreases n,
{
    if n <= 1 {
        (seq![], seq![])
    } else {
        let prev = lineclip_upto(c, bbox, n - 1);
        lineclip_step(c, bbox, n - 1, prev.0, prev.1)
    }
}

/// The polylines that clipping `c` to the box yields: the finished ones, then
/// the last part if it holds any point.
pub open spec fn lineclip_spec(c: Seq<Point>, bbox: BoundingBox) -> Seq<Seq<Point>> {
    let st = lineclip_upto(c, bbox, c.len() as int);
    if st.0.len() > 0 {
        st.1.push(st.0)
    } else {
        st.1
    }
}

/// Clips one segment: `Some` of its clipped ends, or `None` when no part of it
/// lies in the box.
fn clip_segment(a: Point, b: Point, bbox: &BoundingBox) -> (r: Option<(Point, Point)>)
    requires
        valid_bbox(*bbox),
    ensures
        r == clip_segment_spec(a, b, *bbox),
{
    let mut p = a;
    let mut q = b;
    let mut code_a = bit_code(p, bbox);
    let mut code_b = bit_code(q, bbox);
    loop
        invariant
            valid_bbox(*bbox),
            code_a == code_of(p, *bbox),
            code_b == code_of(q, *bbox),
            clip_segment_spec(p, q, *bbox) == clip_segment_spec(a, b, *bbox),
        decreases seg_measure(p, q, *bbox),
    {
        if code_a | code_b == 0 {
            return Some((p, q));
        } else if code_a & code_b != 0 {
            return None;
        }
        proof {
            lemma_clip_step(p, q, *bbox);
            if code_a > 0 {
                lemma_crossing_defined(p, q, code_a, *bbox);
            } else {
                lemma_crossing_defined(p, q, code_b, *bbox);
            }
        }
        if code_a > 0 {
            p = intersect(p, q, code_a, bbox);
            code_a = bit_code(p, bbox);
        } else {
            q = intersect(p, q, code_b, bbox);
            code_b = bit_code(q, bbox);
        }
    }
}

/// Clips a polyline to the box; the result may be several polylines. A
/// polyline without points gives none.
pub fn lineclip(input: LineString, bbox: BoundingBox) -> (r: Vec<LineString>)
    requires
        valid_bbox(bbox),
    ensures
        lines_view(r@) == lineclip_spec(input@, bbox),
{
    let coords: Vec<Point> = input.points;
    let len = coords.len();
    let mut result: Vec<LineString> = Vec::new();
    if len == 0 {
        assert(lines_view(result@) =~= lineclip_spec(coords@, bbox));
        return result;
    }
    let mut part: Vec<Point> = Vec::new();
    let mut i: usize = 1;
    while i < len
        invariant
            valid_bbox(bbox),
            len == coords@.len(),
            1 <= i <= len,
            (part@, lines_view(result@)) == lineclip_upto(coords@, bbox, i as int),
        decreases len - i,
    {
        let last_code = bit_code(coords[i], &bbox);
        let ghost old_result = result@;
        match clip_segment(coords[i - 1], coords[i], &bbox) {
            None => {},
            Some((a, b)) => {
                part.push(a);
                if bit_code(b, &bbox) != last_code {
                    part.push(b);
                    if i < len - 1 {
                        result.push(LineString { points: part });
                        part = Vec::new();
                        assert(lines_view(result@) =~= lines_view(old_result).push(
                            result@[result@.len() - 1]@,
                        ));
                    }
                } else if i == len - 1 {
                    part.push(b);
                }
            },
        }
        assert(lines_view(result@) =~= lineclip_upto(coords@, bbox, i + 1).1);
        i = i + 1;
    }
    if part.len() > 0 {
        let ghost old_result = result@;
        result.push(LineString { points: part });
        assert(lines_view(result@) =~= lines_view(old_result).push(result@[result@.len() - 1]@));
    }
    assert(lines_view(result@) =~= lineclip_spec(coords@, bbox));
    result
}

/// One Sutherland-Hodgman pass over the first `n` points of a ring against
/// one edge: for each point, taking the ring as closed, the crossing point
/// when the edge separates it from its predecessor, then the point itself if
/// it is inside.
pub open spec fn ring_pass_upto(ring: Seq<Point>, edge: u8, bbox: BoundingBox, n: int) -> Seq<Point>
    decreases n,
{
    if n <= 0 {
        seq![]
    } else {
        let out = ring_pass_upto(ring, edge, bbox, n - 1);
        let p = ring[n - 1];
        let prev = if n == 1 {
            ring[ring.len() - 1]
        } else {
            ring[n - 2]
        };
        let inside = (code_of(p, bbox) & edge) == 0;
        let prev_inside = (code_of(prev, bbox) & edge) == 0;
        let out1 = if inside != prev_inside {
            out.push(intersect_spec(prev, p, edge, bbox))
        } else {
            out
        };
        if inside {
            out1.push(p)
        } else {
            out1
        }
    }
}

pub open spec fn ring_pass(ring: Seq<Point>, edge: u8, bbox: BoundingBox) -> Seq<Point> {
    ring_pass_upto(ring, edge, bbox, ring.len() as int)
}

/// A ring clipped against the left, right, bottom and top edges in turn.
pub open spec fn polygonclip_spec(ring: Seq<Point>, bbox: BoundingBox) -> Seq<Point> {
    ring_pass(ring_pass(ring_pass(ring_pass(ring, 1, bbox), 2, bbox), 4, bbox), 8, bbox)
}

/// Two points on different sides of one edge are separated by it.
proof fn lemma_separated(p: Point, q: Point, edge: u8, bbox: BoundingBox)
    requires
        valid_bbox(bbox),
        edge == 1 || edge == 2 || edge == 4 || edge == 8,
        ((code_of(p, bbox) & edge) == 0) != ((code_of(q, bbox) & edge) == 0),
    ensures
        crosses(p, q, edge, bbox),
{
    lemma_codes(p, q, bbox);
    lemma_codes(q, p, bbox);
    lemma_edge_bits();
}

fn clip_ring_edge(points: &Vec<Point>, edge: u8, bbox: &BoundingBox) -> (r: Vec<Point>)
    requires
        valid_bbox(*bbox),
        edge == 1 || edge == 2 || edge == 4 || edge == 8,
    ensures
        r@ == ring_pass(points@, edge, *bbox),
{
    let mut result: Vec<Point> = Vec::new();
    let n = points.len();
    if n == 0 {
        return result;
    }
    let mut prev = points[n - 1];
    let mut prev_inside = (bit_code(prev, bbox) & edge) == 0;
    let mut i: usize = 0;
    while i < n
        invariant
            valid_bbox(*bbox),
            edge == 1 || edge == 2 || edge == 4 || edge == 8,
            n == points@.len(),
            n > 0,
            0 <= i <= n,
            prev == (if i == 0 { points@[n - 1] } else { points@[i - 1] }),
            prev_inside == ((code_of(prev, *bbox) & edge) == 0),
            result@ == ring_pass_upto(points@, edge, *bbox, i as int),
        decreases n - i,
    {
        let p = points[i];
        let inside = (bit_code(p, bbox) & edge) == 0;
        if inside != prev_inside {
            proof {
                lemma_separated(prev, p, edge, *bbox);
                lemma_crossing_defined(prev, p, edge, *bbox);
            }
            result.push(intersect(prev, p, edge, bbox));
        }
        if inside {
            result.push(p);
        }
        prev = p;
        prev_inside = inside;
        i = i + 1;
    }
    result
}

/// Clips a polygon ring to the box. The ring is taken as closed; the result is
/// not closed by a repeated point, and is empty when nothing of the ring lies
/// in the box.
pub fn polygonclip(input: Polygon, bbox: BoundingBox) -> (r: Polygon)
    requires
        valid_bbox(bbox),
    ensures
        r@ == polygonclip_spec(input@, bbox),
{
    let mut points = input.points;
    points = clip_ring_edge(&points, 1, &bbox);
    if points.len() > 0 {
        points = clip_ring_edge(&points, 2, &bbox);
        if points.len() > 0 {
            points = clip_ring_edge(&points, 4, &bbox);
            if points.len() > 0 {
                points = clip_ring_edge(&points, 8, &bbox);
            }
        }
    }
    Polygon { points }
}

} // verus!
